//! The session that a visualisation drives: it owns the sequence, the
//! cursors of the stepwise algorithms and the operation counters.

use vstd::prelude::*;
use crate::order::{is_sort_of, one_to, permutes, sorted, span};
use crate::shuffle::{shuffle_with, shuffled, valid_draws};
use crate::sorting::bubble_sort::{bubble_pass, bubble_sort_step};
use crate::sorting::heap_sort::heap_sort;
use crate::sorting::insertion_sort::{
    insertion_sort,
    insertion_sort_step,
    insertion_step_cursor,
    insertion_step_done,
    insertion_step_result,
};
use crate::sorting::merge_sort::{by_value, merge_sort, merge_sorted};
use crate::sorting::quick_sort::quick_sort;
use crate::sorting::selection_sort::{
    selection_sort,
    selection_sort_step,
    selection_step_cursor,
    selection_step_done,
    selection_step_result,
};
use crate::sorting::shell_sort::shell_sort;

verus! {

/// The greatest size that a session can have: the items are the numbers
/// from 1 to the size, held as `i32`.
pub const MAX_SIZE: usize = 0x7fff_ffff;

/// A sorting session.
pub struct SortingVisualizer {
    data: Vec<i32>,
    size: usize,
    insertion_step: usize,
    selection_step: usize,
    comparisons: u32,
    swaps: u32,
}

/// What a session holds, as mathematical values.
pub struct SessionState {
    /// The sequence.
    pub data: Seq<i32>,
    /// The cursor of insertion sort: the index of the next item to place.
    pub insertion_step: nat,
    /// The cursor of selection sort: the index of the next place to fill.
    pub selection_step: nat,
    /// The comparisons counted.
    pub comparisons: nat,
    /// The exchanges counted.
    pub swaps: nat,
}

/// Both cursors and both counters of `a` are those of `b`.
pub open spec fn same_progress(a: SessionState, b: SessionState) -> bool {
    &&& a.insertion_step == b.insertion_step
    &&& a.selection_step == b.selection_step
    &&& a.comparisons == b.comparisons
    &&& a.swaps == b.swaps
}

/// Both cursors and both counters of `a` are zero.
pub open spec fn fresh_progress(a: SessionState) -> bool {
    &&& a.insertion_step == 0
    &&& a.selection_step == 0
    &&& a.comparisons == 0
    &&& a.swaps == 0
}

impl View for SortingVisualizer {
    type V = SessionState;

    closed spec fn view(&self) -> SessionState {
        SessionState {
            data: self.data@,
            insertion_step: self.insertion_step as nat,
            selection_step: self.selection_step as nat,
            comparisons: self.comparisons as nat,
            swaps: self.swaps as nat,
        }
    }
}

impl SortingVisualizer {
    /// The session is well formed: the sequence has the size the session
    /// was made with, and neither cursor lies beyond its end.
    pub closed spec fn wf(&self) -> bool {
        &&& self.data@.len() == self.size
        &&& self.insertion_step <= self.size
        &&& self.selection_step <= self.size
    }

    /// The size the session was made with.
    pub closed spec fn spec_size(&self) -> nat {
        self.size as nat
    }

    /// In a well-formed session the sequence has the session's size and the
    /// cursors lie within it.
    pub proof fn lemma_wf(&self)
        requires
            self.wf(),
        ensures
            self@.data.len() == self.spec_size(),
            self@.insertion_step <= self.spec_size(),
            self@.selection_step <= self.spec_size(),
    {
    }

    /// A session over the sequence `1, 2, ..., size`, with cursors and
    /// counters at zero.
    pub fn new(size: usize) -> (session: SortingVisualizer)
        requires
            size <= MAX_SIZE,
        ensures
            session.wf(),
            session.spec_size() == size,
            session@.data == one_to(size as nat),
            fresh_progress(session@),
    {
        let mut data: Vec<i32> = Vec::with_capacity(size);
        let mut i: usize = 0;
        while i < size
            invariant
                i <= size <= MAX_SIZE,
                data@ == one_to(i as nat),
            decreases size - i,
        {
            data.push((i + 1) as i32);
            i += 1;
            assert(data@ =~= one_to(i as nat));
        }
        SortingVisualizer {
            data,
            size,
            insertion_step: 0,
            selection_step: 0,
            comparisons: 0,
            swaps: 0,
        }
    }

    /// A session of `size` items as `new` makes it, or `None` where `size`
    /// is beyond `MAX_SIZE`.
    pub fn try_new(size: usize) -> (made: Option<SortingVisualizer>)
        ensures
            made.is_some() <==> size <= MAX_SIZE,
            made matches Some(session) ==> {
                &&& session.wf()
                &&& session.spec_size() == size
                &&& session@.data == one_to(size as nat)
                &&& fresh_progress(session@)
            },
    {
        if size > MAX_SIZE {
            None
        } else {
            Some(SortingVisualizer::new(size))
        }
    }

    /// A session over the sequence `data`, with cursors and counters at
    /// zero.
    pub fn from_data(data: Vec<i32>) -> (session: SortingVisualizer)
        ensures
            session.wf(),
            session.spec_size() == data@.len(),
            session@.data == data@,
            fresh_progress(session@),
    {
        let size: usize = data.len();
        SortingVisualizer {
            data,
            size,
            insertion_step: 0,
            selection_step: 0,
            comparisons: 0,
            swaps: 0,
        }
    }

    /// A copy of the sequence as it stands.
    pub fn get_data(&self) -> (data: Vec<i32>)
        ensures
            data@ == self@.data,
    {
        self.data.clone()
    }

    /// The size the session was made with.
    pub fn size(&self) -> (size: usize)
        ensures
            size == self.spec_size(),
    {
        self.size
    }

    /// Shuffles the sequence with the partners in `draws`, one for each
    /// item, and sets cursors and counters back to zero.
    pub fn shuffle(&mut self, draws: &Vec<usize>)
        requires
            old(self).wf(),
            valid_draws(draws@, old(self).spec_size()),
        ensures
            final(self).wf(),
            final(self).spec_size() == old(self).spec_size(),
            final(self)@.data == shuffled(old(self)@.data, draws@),
            permutes(final(self)@.data, old(self)@.data),
            fresh_progress(final(self)@),
    {
        shuffle_with(&mut self.data, draws);
        self.insertion_step = 0;
        self.selection_step = 0;
        self.comparisons = 0;
        self.swaps = 0;
    }

    /// Makes one pass of bubble sort and returns whether it found the
    /// sequence ascending, in which case nothing has changed.
    pub fn bubble_sort_step(&mut self) -> (done: bool)
        requires
            old(self).wf(),
        ensures
            final(self).wf(),
            final(self).spec_size() == old(self).spec_size(),
            final(self)@.data == bubble_pass(old(self)@.data),
            done == sorted(old(self)@.data),
            done ==> final(self)@.data == old(self)@.data,
            permutes(final(self)@.data, old(self)@.data),
            same_progress(final(self)@, old(self)@),
    {
        bubble_sort_step(&mut self.data)
    }

    /// Sorts the sequence by quick sort.
    pub fn quick_sort(&mut self)
        requires
            old(self).wf(),
        ensures
            final(self).wf(),
            final(self).spec_size() == old(self).spec_size(),
            is_sort_of(final(self)@.data, old(self)@.data),
            same_progress(final(self)@, old(self)@),
    {
        let len: usize = self.data.len();
        if len > 0 {
            quick_sort(&mut self.data, 0, len - 1);
            proof {
                let a = self.data@;
                let b = old(self).data@;
                if len > 1 {
                    assert(span(a, 0, len - 1) =~= a);
                    assert(span(b, 0, len - 1) =~= b);
                }
            }
        }
    }

    /// Sorts the sequence by merge sort.
    pub fn merge_sort(&mut self)
        requires
            old(self).wf(),
        ensures
            final(self).wf(),
            final(self).spec_size() == old(self).spec_size(),
            final(self)@.data == merge_sorted(old(self)@.data, by_value()),
            is_sort_of(final(self)@.data, old(self)@.data),
            same_progress(final(self)@, old(self)@),
    {
        merge_sort(&mut self.data);
    }

    /// Sorts the sequence by heap sort.
    pub fn heap_sort(&mut self)
        requires
            old(self).wf(),
        ensures
            final(self).wf(),
            final(self).spec_size() == old(self).spec_size(),
            is_sort_of(final(self)@.data, old(self)@.data),
            same_progress(final(self)@, old(self)@),
    {
        heap_sort(&mut self.data);
    }

    /// Sorts the sequence by insertion sort.
    pub fn insertion_sort(&mut self)
        requires
            old(self).wf(),
        ensures
            final(self).wf(),
            final(self).spec_size() == old(self).spec_size(),
            is_sort_of(final(self)@.data, old(self)@.data),
            same_progress(final(self)@, old(self)@),
    {
        insertion_sort(&mut self.data);
    }

    /// Takes one step of insertion sort and returns whether the run is
    /// complete. Once it is, further steps change nothing and say so again.
    pub fn insertion_sort_step(&mut self) -> (done: bool)
        requires
            old(self).wf(),
        ensures
            final(self).wf(),
            final(self).spec_size() == old(self).spec_size(),
            final(self)@.data == insertion_step_result(
                old(self)@.data,
                old(self)@.insertion_step,
            ),
            final(self)@.insertion_step == insertion_step_cursor(
                old(self)@.data.len(),
                old(self)@.insertion_step,
            ),
            done == insertion_step_done(old(self)@.data.len(), old(self)@.insertion_step),
            final(self)@.selection_step == old(self)@.selection_step,
            final(self)@.comparisons == old(self)@.comparisons,
            final(self)@.swaps == old(self)@.swaps,
    {
        insertion_sort_step(&mut self.data, &mut self.insertion_step)
    }

    /// Sorts the sequence by selection sort.
    pub fn selection_sort(&mut self)
        requires
            old(self).wf(),
        ensures
            final(self).wf(),
            final(self).spec_size() == old(self).spec_size(),
            is_sort_of(final(self)@.data, old(self)@.data),
            same_progress(final(self)@, old(self)@),
    {
        selection_sort(&mut self.data);
    }

    /// Takes one step of selection sort and returns whether the run is
    /// complete. Once it is, further steps change nothing and say so again.
    pub fn selection_sort_step(&mut self) -> (done: bool)
        requires
            old(self).wf(),
        ensures
            final(self).wf(),
            final(self).spec_size() == old(self).spec_size(),
            final(self)@.data == selection_step_result(
                old(self)@.data,
                old(self)@.selection_step,
            ),
            final(self)@.selection_step == selection_step_cursor(
                old(self)@.data.len(),
                old(self)@.selection_step,
            ),
            done == selection_step_done(old(self)@.data.len(), old(self)@.selection_step),
            final(self)@.insertion_step == old(self)@.insertion_step,
            final(self)@.comparisons == old(self)@.comparisons,
            final(self)@.swaps == old(self)@.swaps,
    {
        selection_sort_step(&mut self.data, &mut self.selection_step)
    }

    /// Sorts the sequence by Shell sort.
    pub fn shell_sort(&mut self)
        requires
            old(self).wf(),
        ensures
            final(self).wf(),
            final(self).spec_size() == old(self).spec_size(),
            is_sort_of(final(self)@.data, old(self)@.data),
            same_progress(final(self)@, old(self)@),
    {
        shell_sort(&mut self.data);
    }

    /// The comparisons counted since the counters were last set to zero.
    pub fn get_comparisons(&self) -> (n: u32)
        ensures
            n == self@.comparisons,
    {
        self.comparisons
    }

    /// The exchanges counted since the counters were last set to zero.
    pub fn get_swaps(&self) -> (n: u32)
        ensures
            n == self@.swaps,
    {
        self.swaps
    }

    /// Sets counters and cursors back to zero. The sequence stays as it is.
    pub fn reset_stats(&mut self)
        requires
            old(self).wf(),
        ensures
            final(self).wf(),
            final(self).spec_size() == old(self).spec_size(),
            final(self)@.data == old(self)@.data,
            fresh_progress(final(self)@),
    {
        self.comparisons = 0;
        self.swaps = 0;
        self.insertion_step = 0;
        self.selection_step = 0;
    }
}

} // verus!
