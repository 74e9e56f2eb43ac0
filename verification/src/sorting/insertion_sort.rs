//! Insertion sort, as a whole run and one insertion at a time.
//!
//! A cursor counts the items that have been placed. One step takes the item
//! under the cursor and moves it left past every greater item before it; the
//! whole run is one such step for each cursor from 1 on.

use vstd::prelude::*;
use crate::order::{is_sort_of, lemma_sorted_arrangement_unique, permutes, sorted};

verus! {

/// The index at which `key` comes to stand when it moves left from `k` past
/// every greater item: it stops behind the nearest item that is not greater,
/// or at the front.
pub open spec fn insertion_point(s: Seq<i32>, k: int, key: i32) -> int
    decreases k,
{
    if k <= 0 {
        0
    } else if s[k - 1] > key {
        insertion_point(s, k - 1, key)
    } else {
        k
    }
}

/// `s` after the item at `k` has been moved to its insertion point among the
/// items before it. The items behind `k` stay where they are.
pub open spec fn insert_at_place(s: Seq<i32>, k: int) -> Seq<i32> {
    s.remove(k).insert(insertion_point(s, k, s[k]), s[k])
}

/// The sequence that one step leaves, for a cursor at `step`: the step
/// from cursor 0 and a step at or beyond the end move nothing.
pub open spec fn insertion_step_result(s: Seq<i32>, step: nat) -> Seq<i32> {
    if 0 < step < s.len() {
        insert_at_place(s, step as int)
    } else {
        s
    }
}

/// The cursor that one step leaves: one further, unless it was at the end.
pub open spec fn insertion_step_cursor(len: nat, step: nat) -> nat {
    if step >= len {
        step
    } else {
        (step + 1) as nat
    }
}

/// Whether the step from cursor `step` reports that the run is complete. The
/// step from cursor 0 only starts the run and never does.
pub open spec fn insertion_step_done(len: nat, step: nat) -> bool {
    step >= len || (step > 0 && step + 1 >= len)
}

/// The sequence that is left when steps are taken on a sequence of `len`
/// items, from cursor `step`, until one reports completion.
pub open spec fn insertion_run_from(s: Seq<i32>, step: nat, len: nat) -> Seq<i32>
    decreases len - step,
{
    if insertion_step_done(len, step) {
        insertion_step_result(s, step)
    } else {
        insertion_run_from(insertion_step_result(s, step), insertion_step_cursor(len, step), len)
    }
}

/// The sequence that is left when steps are taken from cursor 0 until one
/// reports completion.
pub open spec fn insertion_run(s: Seq<i32>) -> Seq<i32> {
    insertion_run_from(s, 0, s.len())
}

/// What the insertion point is: it lies at or before `k`, every item from it
/// up to `k` is greater than `key`, and the item before it, if there is one,
/// is not.
pub proof fn lemma_insertion_point(s: Seq<i32>, k: int, key: i32)
    requires
        0 <= k <= s.len(),
    ensures
        0 <= insertion_point(s, k, key) <= k,
        forall|t: int| insertion_point(s, k, key) <= t < k ==> s[t] > key,
        insertion_point(s, k, key) > 0 ==> s[insertion_point(s, k, key) - 1] <= key,
    decreases k,
{
    if k > 0 && s[k - 1] > key {
        lemma_insertion_point(s, k - 1, key);
    }
}

/// One insertion rearranges the sequence, touches nothing behind `k`, and
/// extends an ascending prefix of `k` items to one of `k + 1`.
pub proof fn lemma_insert_at_place(s: Seq<i32>, k: int)
    requires
        0 <= k < s.len(),
    ensures
        insert_at_place(s, k).len() == s.len(),
        permutes(insert_at_place(s, k), s),
        insert_at_place(s, k).skip(k + 1) == s.skip(k + 1),
        sorted(s.take(k)) ==> sorted(insert_at_place(s, k).take(k + 1)),
{
    broadcast use vstd::seq_lib::group_to_multiset_ensures;
    broadcast use vstd::multiset::group_multiset_axioms;

    let key = s[k];
    let p = insertion_point(s, k, key);
    let out = insert_at_place(s, k);
    lemma_insertion_point(s, k, key);
    assert(s.to_multiset().count(key) > 0) by {
        assert(s.contains(key));
    }
    assert(out.to_multiset() =~= s.to_multiset());
    assert(out.skip(k + 1) =~= s.skip(k + 1));
    if sorted(s.take(k)) {
        let a = out.take(k + 1);
        assert forall|i: int, j: int| 0 <= i <= j < a.len() implies a[i] <= a[j] by {
            // below p: as in s; at p: key; above p: s shifted by one
            if j < p {
                assert(a[i] == s.take(k)[i] && a[j] == s.take(k)[j]);
            } else if j == p {
                if i < p {
                    assert(a[i] == s.take(k)[i]);
                    assert(s.take(k)[i] <= s.take(k)[p - 1]);
                }
            } else {
                assert(a[j] == s.take(k)[j - 1]);
                if i < p {
                    assert(a[i] == s.take(k)[i]);
                } else if i == p {
                    assert(s[j - 1] > key);
                } else {
                    assert(a[i] == s.take(k)[i - 1]);
                }
            }
        }
    }
}

/// Steps taken until completion, from a cursor before which the sequence is
/// ascending, leave the ascending arrangement of the sequence.
pub proof fn lemma_insertion_run_from_sorts(s: Seq<i32>, step: nat)
    requires
        step <= s.len() ==> sorted(s.take(step as int)),
    ensures
        step <= s.len() ==> is_sort_of(insertion_run_from(s, step, s.len()), s),
        step > s.len() ==> insertion_run_from(s, step, s.len()) == s,
    decreases s.len() - step,
{
    let next = insertion_step_result(s, step);
    if step >= s.len() {
        if step == s.len() {
            assert(s.take(step as int) =~= s);
        }
    } else {
        if step > 0 {
            lemma_insert_at_place(s, step as int);
        }
        if insertion_step_done(s.len(), step) {
            assert(next.take(step as int + 1) =~= next);
        } else {
            lemma_insertion_run_from_sorts(next, (step + 1) as nat);
        }
    }
}

/// Once a step has reported completion, the next step changes nothing and
/// reports it again.
pub proof fn lemma_insertion_step_after_done(s: Seq<i32>, step: nat)
    requires
        insertion_step_done(s.len(), step),
    ensures
        ({
            let after = insertion_step_result(s, step);
            let cursor = insertion_step_cursor(s.len(), step);
            &&& after.len() == s.len()
            &&& insertion_step_done(after.len(), cursor)
            &&& insertion_step_result(after, cursor) == after
            &&& insertion_step_cursor(after.len(), cursor) == cursor
        }),
{
    if 0 < step < s.len() {
        lemma_insert_at_place(s, step as int);
    }
}

/// Moves the item at `k` left past every greater item before it.
pub fn insert_into_prefix(arr: &mut Vec<i32>, k: usize)
    requires
        k < old(arr).len(),
    ensures
        final(arr)@ == insert_at_place(old(arr)@, k as int),
        final(arr)@.len() == old(arr)@.len(),
        permutes(final(arr)@, old(arr)@),
{
    let key: i32 = arr[k];
    let mut j: usize = k;
    let ghost s = arr@;
    while j > 0 && arr[j - 1] > key
        invariant
            0 <= j <= k < arr.len(),
            arr.len() == s.len(),
            key == s[k as int],
            forall|t: int| 0 <= t < j ==> arr@[t] == s[t],
            forall|t: int| j < t <= k ==> arr@[t] == s[t - 1],
            forall|t: int| k < t < s.len() ==> arr@[t] == s[t],
            insertion_point(s, k as int, key) == insertion_point(s, j as int, key),
        decreases j,
    {
        arr[j] = arr[j - 1];
        j -= 1;
    }
    arr[j] = key;
    proof {
        assert(insertion_point(s, j as int, key) == j);
        assert(arr@ =~= insert_at_place(s, k as int));
        lemma_insert_at_place(s, k as int);
    }
}

/// Sorts `arr` by insertion sort: afterwards it is ascending and holds the
/// items it held before.
pub fn insertion_sort(arr: &mut Vec<i32>)
    ensures
        is_sort_of(final(arr)@, old(arr)@),
        final(arr)@.len() == old(arr)@.len(),
{
    let len: usize = arr.len();
    let mut i: usize = 1;
    while i < len
        invariant
            1 <= i,
            len >= 1 ==> i <= len,
            len == arr.len(),
            permutes(arr@, old(arr)@),
            i <= len ==> sorted(arr@.take(i as int)),
        decreases len - i,
    {
        proof {
            lemma_insert_at_place(arr@, i as int);
        }
        insert_into_prefix(arr, i);
        i += 1;
    }
    proof {
        if len >= 1 {
            assert(arr@.take(len as int) =~= arr@);
        }
    }
}

/// Stepping and running agree: the steps of insertion sort, taken from
/// cursor 0 until one reports completion, leave the sequence that any
/// complete sort of the same input leaves.
pub proof fn lemma_insertion_steps_match_run(s: Seq<i32>, whole_run: Seq<i32>)
    requires
        is_sort_of(whole_run, s),
    ensures
        insertion_run(s) == whole_run,
{
    assert(s.take(0) =~= Seq::<i32>::empty());
    lemma_insertion_run_from_sorts(s, 0);
    lemma_sorted_arrangement_unique(insertion_run(s), whole_run);
}

/// Takes one step of insertion sort from the cursor `*step` and moves the
/// cursor on; returns whether the run is complete.
///
/// The step from cursor 0 only moves the cursor to 1. A step with the cursor
/// at or beyond the end changes nothing and reports completion again.
pub fn insertion_sort_step(arr: &mut Vec<i32>, step: &mut usize) -> (done: bool)
    ensures
        final(arr)@ == insertion_step_result(old(arr)@, *old(step) as nat),
        *final(step) == insertion_step_cursor(old(arr)@.len(), *old(step) as nat),
        done == insertion_step_done(old(arr)@.len(), *old(step) as nat),
        final(arr)@.len() == old(arr)@.len(),
        permutes(final(arr)@, old(arr)@),
{
    let len: usize = arr.len();

    if *step >= len {
        return true;
    }
    if *step == 0 {
        *step = 1;
        return false;
    }
    insert_into_prefix(arr, *step);
    proof {
        lemma_insert_at_place(old(arr)@, *old(step) as int);
    }

    *step += 1;
    *step >= len
}

} // verus!
