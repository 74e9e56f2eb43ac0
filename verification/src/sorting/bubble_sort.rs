//! Bubble sort, one pass at a time.
//!
//! A pass walks over the whole sequence once, from the front, and exchanges
//! each item with its right neighbour where the two are out of order. It
//! needs no cursor: a pass that exchanges nothing has found the sequence
//! ascending.

use vstd::prelude::*;
use crate::order::{
    gap_sorted,
    gap_sorted_upto,
    lemma_neighbours_sorted,
    lemma_swap_permutes,
    permutes,
    sorted,
    swap_items,
    swapped,
};

verus! {

/// `s` after the first `n` pairs of neighbours have been visited, from the
/// front: the pair at `k` and `k + 1` is exchanged where the first is the
/// greater, as the pass finds it.
pub open spec fn bubble_pass_upto(s: Seq<i32>, n: int) -> Seq<i32>
    decreases n,
{
    if n <= 0 {
        s
    } else {
        let p = bubble_pass_upto(s, n - 1);
        if p[n - 1] > p[n] {
            swapped(p, n - 1, n)
        } else {
            p
        }
    }
}

/// `s` after one whole pass.
pub open spec fn bubble_pass(s: Seq<i32>) -> Seq<i32> {
    bubble_pass_upto(s, s.len() - 1)
}

/// A pass rearranges the sequence, and after `n` pairs the item at `n` is
/// the greatest of the first `n + 1`.
pub proof fn lemma_bubble_pass_upto(s: Seq<i32>, n: int)
    requires
        0 <= n < s.len(),
    ensures
        bubble_pass_upto(s, n).len() == s.len(),
        permutes(bubble_pass_upto(s, n), s),
        forall|t: int| 0 <= t <= n ==> #[trigger] bubble_pass_upto(s, n)[t] <= bubble_pass_upto(s, n)[n],
        forall|t: int| n < t < s.len() ==> #[trigger] bubble_pass_upto(s, n)[t] == s[t],
    decreases n,
{
    if n > 0 {
        lemma_bubble_pass_upto(s, n - 1);
        let p = bubble_pass_upto(s, n - 1);
        if p[n - 1] > p[n] {
            lemma_swap_permutes(p, n - 1, n);
        }
        let out = bubble_pass_upto(s, n);
        assert forall|t: int| 0 <= t <= n implies #[trigger] out[t] <= out[n] by {
            if t < n - 1 {
                assert(out[t] == p[t]);
                assert(p[t] <= p[n - 1]);
            }
        }
    }
}

/// A whole pass rearranges the sequence and leaves its greatest item last.
pub proof fn lemma_bubble_pass(s: Seq<i32>)
    ensures
        bubble_pass(s).len() == s.len(),
        permutes(bubble_pass(s), s),
        forall|t: int|
            0 <= t < s.len() ==> #[trigger] bubble_pass(s)[t] <= bubble_pass(s)[s.len() - 1],
{
    if s.len() > 0 {
        lemma_bubble_pass_upto(s, s.len() - 1);
    }
}

/// A pass over an ascending sequence exchanges nothing.
pub proof fn lemma_bubble_pass_of_sorted(s: Seq<i32>)
    requires
        sorted(s),
    ensures
        bubble_pass(s) == s,
{
    if s.len() > 0 {
        lemma_bubble_pass_upto_of_sorted(s, s.len() - 1);
    }
}

/// The first `n` pairs of an ascending sequence are left as they are.
proof fn lemma_bubble_pass_upto_of_sorted(s: Seq<i32>, n: int)
    requires
        sorted(s),
        0 <= n < s.len(),
    ensures
        bubble_pass_upto(s, n) == s,
    decreases n,
{
    if n > 0 {
        lemma_bubble_pass_upto_of_sorted(s, n - 1);
    }
}

/// `s` after `n` passes.
pub open spec fn bubble_passes(s: Seq<i32>, n: nat) -> Seq<i32>
    decreases n,
{
    if n == 0 {
        s
    } else {
        bubble_pass(bubble_passes(s, (n - 1) as nat))
    }
}

/// The last `k` items of `s` are in their final places: each is no less
/// than any item before it.
pub open spec fn settled_tail(s: Seq<i32>, k: int) -> bool {
    forall|a: int, b: int| 0 <= a <= b < s.len() && s.len() - k <= b ==> s[a] <= s[b]
}

/// An upper bound on the first `n + 1` items is one on the same items
/// after `n` pairs have been visited.
proof fn lemma_bubble_pass_upto_bound(s: Seq<i32>, n: int, bound: i32)
    requires
        0 <= n < s.len(),
        forall|t: int| 0 <= t <= n ==> s[t] <= bound,
    ensures
        forall|t: int| 0 <= t <= n ==> #[trigger] bubble_pass_upto(s, n)[t] <= bound,
    decreases n,
{
    if n > 0 {
        lemma_bubble_pass_upto_bound(s, n - 1, bound);
        lemma_bubble_pass_upto(s, n - 1);
        let p = bubble_pass_upto(s, n - 1);
        assert(p[n] == s[n]);
        assert forall|t: int| 0 <= t <= n implies #[trigger] bubble_pass_upto(s, n)[t]
            <= bound by {
            if t < n {
                assert(p[t] <= bound);
            }
        }
    }
}

/// Among settled items the pass exchanges nothing: from the pair before the
/// first settled item on, the sequence stays as the pass has left it there.
proof fn lemma_bubble_pass_upto_settled(s: Seq<i32>, k: int, n: int)
    requires
        settled_tail(s, k),
        0 <= k < s.len(),
        s.len() - k - 1 <= n < s.len(),
    ensures
        bubble_pass_upto(s, n) == bubble_pass_upto(s, s.len() - k - 1),
    decreases n,
{
    if n > s.len() - k - 1 {
        lemma_bubble_pass_upto_settled(s, k, n - 1);
        lemma_bubble_pass_upto(s, n - 1);
        lemma_bubble_pass_upto_bound(s, n - 1, s[n]);
        let p = bubble_pass_upto(s, n - 1);
        assert(p[n - 1] <= s[n]);
        assert(p[n] == s[n]);
    }
}

/// A pass settles one more item: where the last `k` items were in their
/// final places, the last `k + 1` are so afterwards.
pub proof fn lemma_bubble_pass_settles(s: Seq<i32>, k: int)
    requires
        0 <= k,
        settled_tail(s, k),
    ensures
        settled_tail(bubble_pass(s), k + 1),
        bubble_pass(s).len() == s.len(),
{
    lemma_bubble_pass(s);
    let len = s.len() as int;
    let out = bubble_pass(s);
    if k >= len {
        assert(sorted(s));
        lemma_bubble_pass_of_sorted(s);
    } else {
        let m = len - k - 1;
        lemma_bubble_pass_upto_settled(s, k, len - 1);
        lemma_bubble_pass_upto(s, m);
        assert(out == bubble_pass_upto(s, m));
        assert forall|a: int, b: int| 0 <= a <= b < out.len() && out.len() - (k + 1)
            <= b implies out[a] <= out[b] by {
            if b > m {
                assert(out[b] == s[b]);
                if a > m {
                    assert(out[a] == s[a]);
                } else {
                    lemma_bubble_pass_upto_bound(s, m, s[b]);
                }
            }
        }
    }
}

/// Passes come to an end: after one pass fewer than there are items, and
/// after any further pass, the sequence is ascending, so that the next pass
/// reports it. The items are those of `s` throughout.
pub proof fn lemma_bubble_passes_sort(s: Seq<i32>, n: nat)
    ensures
        bubble_passes(s, n).len() == s.len(),
        permutes(bubble_passes(s, n), s),
        settled_tail(bubble_passes(s, n), n as int),
        n + 1 >= s.len() ==> sorted(bubble_passes(s, n)),
    decreases n,
{
    if n > 0 {
        let before = bubble_passes(s, (n - 1) as nat);
        lemma_bubble_passes_sort(s, (n - 1) as nat);
        lemma_bubble_pass(before);
        lemma_bubble_pass_settles(before, n - 1);
    }
    let out = bubble_passes(s, n);
    if n + 1 >= s.len() {
        assert forall|a: int, b: int| 0 <= a <= b < out.len() implies out[a] <= out[b] by {
            if b == 0 {
            }
        }
    }
}

/// Makes one pass over `arr` and returns whether it found `arr` ascending.
///
/// Where it returns `true`, nothing was exchanged. A sequence of fewer than
/// two items is ascending as it is.
pub fn bubble_sort_step(arr: &mut Vec<i32>) -> (done: bool)
    ensures
        final(arr)@ == bubble_pass(old(arr)@),
        done == sorted(old(arr)@),
        done ==> final(arr)@ == old(arr)@,
        permutes(final(arr)@, old(arr)@),
        final(arr)@.len() == old(arr)@.len(),
{
    let mut was_swapped: bool = false;
    let len: usize = arr.len();
    let mut i: usize = 0;
    // the first pair that was found out of order
    let ghost mut found: int = 0;

    while i + 1 < len
        invariant
            len == arr.len(),
            len == old(arr).len(),
            len > 0 ==> i < len,
            len == 0 ==> i == 0,
            arr@ == bubble_pass_upto(old(arr)@, i as int),
            !was_swapped ==> arr@ == old(arr)@,
            !was_swapped ==> gap_sorted_upto(old(arr)@, 1, i + 1),
            was_swapped ==> 0 <= found < len - 1 && old(arr)@[found] > old(arr)@[found + 1],
        decreases len - i,
    {
        if arr[i] > arr[i + 1] {
            proof {
                if !was_swapped {
                    found = i as int;
                }
            }
            swap_items(arr, i, i + 1);
            was_swapped = true;
        }
        i += 1;
    }

    proof {
        lemma_bubble_pass(old(arr)@);
        if !was_swapped {
            assert(gap_sorted(old(arr)@, 1));
            lemma_neighbours_sorted(old(arr)@);
        }
    }
    !was_swapped
}

} // verus!
