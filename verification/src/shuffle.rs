//! The shuffle: one pass over the sequence that exchanges each item with a
//! partner drawn by the caller.
//!
//! The partner of every item is drawn from the whole sequence, the item's
//! own place included. This is the plain exchange pass, not the
//! Fisher-Yates shuffle: with uniform draws the arrangements that come out
//! are not equally likely.

use vstd::prelude::*;
use crate::order::{lemma_swap_permutes, permutes, swap_items, swapped};

verus! {

/// `draws` holds one partner for each of `size` items, each of them an index
/// below `size`.
pub open spec fn valid_draws(draws: Seq<usize>, size: nat) -> bool {
    &&& draws.len() == size
    &&& forall|i: int| 0 <= i < size ==> (#[trigger] draws[i]) < size
}

/// `s` after the first `n` items have changed places with their partners,
/// one after the other from the front.
pub open spec fn shuffled_upto(s: Seq<i32>, draws: Seq<usize>, n: int) -> Seq<i32>
    decreases n,
{
    if n <= 0 {
        s
    } else {
        swapped(shuffled_upto(s, draws, n - 1), n - 1, draws[n - 1] as int)
    }
}

/// `s` after the whole pass.
pub open spec fn shuffled(s: Seq<i32>, draws: Seq<usize>) -> Seq<i32> {
    shuffled_upto(s, draws, s.len() as int)
}

/// The pass rearranges the sequence, whatever is drawn.
pub proof fn lemma_shuffled_upto_permutes(s: Seq<i32>, draws: Seq<usize>, n: int)
    requires
        valid_draws(draws, s.len()),
        0 <= n <= s.len(),
    ensures
        shuffled_upto(s, draws, n).len() == s.len(),
        permutes(shuffled_upto(s, draws, n), s),
    decreases n,
{
    if n > 0 {
        lemma_shuffled_upto_permutes(s, draws, n - 1);
        lemma_swap_permutes(shuffled_upto(s, draws, n - 1), n - 1, draws[n - 1] as int);
    }
}

/// A sequence of fewer than two items comes out of the pass as it went in.
pub proof fn lemma_shuffled_short(s: Seq<i32>, draws: Seq<usize>)
    requires
        valid_draws(draws, s.len()),
        s.len() <= 1,
    ensures
        shuffled(s, draws) == s,
{
    if s.len() == 1 {
        assert(shuffled_upto(s, draws, 0) == s);
        assert(draws[0] == 0);
        assert(swapped(s, 0, 0) =~= s);
    }
}

/// Whether `draws` holds one partner for each of `size` items, each of them
/// an index below `size`.
pub fn check_draws(draws: &Vec<usize>, size: usize) -> (ok: bool)
    ensures
        ok == valid_draws(draws@, size as nat),
{
    if draws.len() != size {
        return false;
    }
    let mut i: usize = 0;
    while i < size
        invariant
            i <= size,
            draws.len() == size,
            forall|t: int| 0 <= t < i ==> (#[trigger] draws@[t]) < size,
        decreases size - i,
    {
        if draws[i] >= size {
            return false;
        }
        i += 1;
    }
    true
}

/// Exchanges each item of `arr`, from the front, with the partner that
/// `draws` names for its place.
pub fn shuffle_with(arr: &mut Vec<i32>, draws: &Vec<usize>)
    requires
        valid_draws(draws@, old(arr)@.len()),
    ensures
        final(arr)@ == shuffled(old(arr)@, draws@),
        final(arr)@.len() == old(arr)@.len(),
        permutes(final(arr)@, old(arr)@),
{
    let size: usize = arr.len();
    let mut i: usize = 0;
    while i < size
        invariant
            i <= size,
            size == arr.len(),
            size == old(arr).len(),
            valid_draws(draws@, size as nat),
            arr@ == shuffled_upto(old(arr)@, draws@, i as int),
        decreases size - i,
    {
        let j: usize = draws[i];
        swap_items(arr, i, j);
        i += 1;
    }
    proof {
        lemma_shuffled_upto_permutes(old(arr)@, draws@, size as int);
    }
}

} // verus!
