//! Selection sort, as a whole run and one selection at a time.
//!
//! A cursor counts the items that have been placed. One step finds the
//! least item from the cursor on, the first of them where several are equal,
//! and exchanges it with the item under the cursor.

use vstd::prelude::*;
use crate::order::{
    is_sort_of,
    lemma_sorted_arrangement_unique,
    lemma_swap_permutes,
    permutes,
    sorted,
    swap_items,
    swapped,
};

verus! {

/// The index of the least item of `s` from `from` up to `to`, exclusive; of
/// several least items, the first.
pub open spec fn first_min_index(s: Seq<i32>, from: int, to: int) -> int
    decreases to - from,
{
    if to <= from + 1 {
        from
    } else {
        let m = first_min_index(s, from, to - 1);
        if s[to - 1] < s[m] {
            to - 1
        } else {
            m
        }
    }
}

/// `s` after the least item from `i` on has changed places with the item at
/// `i`.
pub open spec fn select_into_place(s: Seq<i32>, i: int) -> Seq<i32> {
    swapped(s, i, first_min_index(s, i, s.len() as int))
}

/// The first `i` items of `s` are in their final places: each is no greater
/// than any item behind it.
pub open spec fn placed(s: Seq<i32>, i: int) -> bool {
    forall|a: int, b: int| 0 <= a < i && a <= b < s.len() ==> s[a] <= s[b]
}

/// The sequence that one step leaves, for a cursor at `step`: a step at or
/// beyond the end moves nothing.
pub open spec fn selection_step_result(s: Seq<i32>, step: nat) -> Seq<i32> {
    if step < s.len() {
        select_into_place(s, step as int)
    } else {
        s
    }
}

/// The cursor that one step leaves: one further, unless it was at the end.
pub open spec fn selection_step_cursor(len: nat, step: nat) -> nat {
    if step >= len {
        step
    } else {
        (step + 1) as nat
    }
}

/// Whether the step from cursor `step` reports that the run is complete.
pub open spec fn selection_step_done(len: nat, step: nat) -> bool {
    step + 1 >= len
}

/// The sequence that is left when steps are taken on a sequence of `len`
/// items, from cursor `step`, until one reports completion.
pub open spec fn selection_run_from(s: Seq<i32>, step: nat, len: nat) -> Seq<i32>
    decreases len - step,
{
    if selection_step_done(len, step) {
        selection_step_result(s, step)
    } else {
        selection_run_from(selection_step_result(s, step), selection_step_cursor(len, step), len)
    }
}

/// The sequence that is left when steps are taken from cursor 0 until one
/// reports completion.
pub open spec fn selection_run(s: Seq<i32>) -> Seq<i32> {
    selection_run_from(s, 0, s.len())
}

/// What the index of the first least item is: it lies in the range, no item
/// of the range is less than the item there, and every item of the range
/// before it is greater.
pub proof fn lemma_first_min_index(s: Seq<i32>, from: int, to: int)
    requires
        0 <= from < to <= s.len(),
    ensures
        from <= first_min_index(s, from, to) < to,
        forall|t: int| from <= t < to ==> s[first_min_index(s, from, to)] <= #[trigger] s[t],
        forall|t: int|
            from <= t < first_min_index(s, from, to) ==> #[trigger] s[t] > s[first_min_index(
                s,
                from,
                to,
            )],
    decreases to - from,
{
    if to > from + 1 {
        lemma_first_min_index(s, from, to - 1);
    }
}

/// One selection rearranges the sequence, touches nothing before `i`, and
/// puts one more item in its final place.
pub proof fn lemma_select_into_place(s: Seq<i32>, i: int)
    requires
        0 <= i < s.len(),
    ensures
        select_into_place(s, i).len() == s.len(),
        permutes(select_into_place(s, i), s),
        select_into_place(s, i).take(i) == s.take(i),
        placed(s, i) ==> placed(select_into_place(s, i), i + 1),
{
    let m = first_min_index(s, i, s.len() as int);
    let out = select_into_place(s, i);
    lemma_first_min_index(s, i, s.len() as int);
    lemma_swap_permutes(s, i, m);
    assert(out.take(i) =~= s.take(i));
    if placed(s, i) {
        assert forall|a: int, b: int| 0 <= a < i + 1 && a <= b < out.len() implies out[a]
            <= out[b] by {
            if a < i {
                // out[b] is an item of s at or behind i
                let src = if b == i {
                    m
                } else if b == m {
                    i
                } else {
                    b
                };
                assert(out[b] == s[src]);
                assert(s[a] <= s[src]);
            } else {
                let src = if b == m {
                    i
                } else {
                    b
                };
                if b != i {
                    assert(out[b] == s[src]);
                }
            }
        }
    }
}

/// A sequence whose items are all in their final places is ascending.
pub proof fn lemma_placed_sorted(s: Seq<i32>, i: int)
    requires
        placed(s, i),
        i + 1 >= s.len(),
    ensures
        sorted(s),
{
}

/// Steps taken until completion, from a cursor before which every item is in
/// its final place, leave the ascending arrangement of the sequence.
pub proof fn lemma_selection_run_from_sorts(s: Seq<i32>, step: nat)
    requires
        placed(s, step as int),
    ensures
        is_sort_of(selection_run_from(s, step, s.len()), s),
    decreases s.len() - step,
{
    let next = selection_step_result(s, step);
    if step >= s.len() {
        lemma_placed_sorted(s, step as int);
    } else {
        lemma_select_into_place(s, step as int);
        if selection_step_done(s.len(), step) {
            lemma_placed_sorted(next, step as int + 1);
        } else {
            lemma_selection_run_from_sorts(next, (step + 1) as nat);
        }
    }
}

/// Once a step has reported completion, the next step changes nothing and
/// reports it again.
pub proof fn lemma_selection_step_after_done(s: Seq<i32>, step: nat)
    requires
        selection_step_done(s.len(), step),
    ensures
        ({
            let after = selection_step_result(s, step);
            let cursor = selection_step_cursor(s.len(), step);
            &&& after.len() == s.len()
            &&& selection_step_done(after.len(), cursor)
            &&& selection_step_result(after, cursor) == after
            &&& selection_step_cursor(after.len(), cursor) == cursor
        }),
{
    if step < s.len() {
        lemma_select_into_place(s, step as int);
    }
}

/// Puts the least item from `i` on at `i`, in exchange for the item there.
pub fn select_least(arr: &mut Vec<i32>, i: usize)
    requires
        i < old(arr).len(),
    ensures
        final(arr)@ == select_into_place(old(arr)@, i as int),
        final(arr)@.len() == old(arr)@.len(),
        permutes(final(arr)@, old(arr)@),
{
    let len: usize = arr.len();
    let mut min_idx: usize = i;
    let mut j: usize = i + 1;
    while j < len
        invariant
            i < j <= len,
            len == arr.len(),
            arr@ == old(arr)@,
            min_idx == first_min_index(arr@, i as int, j as int),
            i <= min_idx < j,
        decreases len - j,
    {
        if arr[j] < arr[min_idx] {
            min_idx = j;
        }
        j += 1;
    }
    if min_idx != i {
        swap_items(arr, i, min_idx);
    } else {
        assert(arr@ =~= swapped(arr@, i as int, i as int));
    }
}

/// Sorts `arr` by selection sort: afterwards it is ascending and holds the
/// items it held before.
pub fn selection_sort(arr: &mut Vec<i32>)
    ensures
        is_sort_of(final(arr)@, old(arr)@),
        final(arr)@.len() == old(arr)@.len(),
{
    let len: usize = arr.len();
    let mut i: usize = 0;
    while i < len
        invariant
            i <= len,
            len == arr.len(),
            permutes(arr@, old(arr)@),
            placed(arr@, i as int),
        decreases len - i,
    {
        proof {
            lemma_select_into_place(arr@, i as int);
        }
        select_least(arr, i);
        i += 1;
    }
    proof {
        lemma_placed_sorted(arr@, i as int);
    }
}

/// Takes one step of selection sort from the cursor `*step` and moves the
/// cursor on; returns whether the run is complete.
///
/// A step with the cursor at or beyond the end changes nothing and reports
/// completion again.
pub fn selection_sort_step(arr: &mut Vec<i32>, step: &mut usize) -> (done: bool)
    ensures
        final(arr)@ == selection_step_result(old(arr)@, *old(step) as nat),
        *final(step) == selection_step_cursor(old(arr)@.len(), *old(step) as nat),
        done == selection_step_done(old(arr)@.len(), *old(step) as nat),
        final(arr)@.len() == old(arr)@.len(),
        permutes(final(arr)@, old(arr)@),
{
    let len: usize = arr.len();

    if *step >= len {
        return true;
    }
    select_least(arr, *step);
    proof {
        lemma_select_into_place(old(arr)@, *old(step) as int);
    }

    *step += 1;
    *step >= len
}

/// Stepping and running agree: the steps of selection sort, taken from
/// cursor 0 until one reports completion, leave the sequence that any
/// complete sort of the same input leaves.
pub proof fn lemma_selection_steps_match_run(s: Seq<i32>, whole_run: Seq<i32>)
    requires
        is_sort_of(whole_run, s),
    ensures
        selection_run(s) == whole_run,
{
    lemma_selection_run_from_sorts(s, 0);
    lemma_sorted_arrangement_unique(selection_run(s), whole_run);
}

} // verus!
