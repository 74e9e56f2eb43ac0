//! The vocabulary shared by every algorithm of the crate: what it means for
//! a sequence to be ascending, and for one sequence to be a rearrangement of
//! another; the facts about both that the proofs rest on; and the exchange
//! of two items, from which most of the algorithms are built.

use vstd::prelude::*;

verus! {

/// `s` is ascending: no element is greater than a later one.
pub open spec fn sorted(s: Seq<i32>) -> bool {
    forall|i: int, j: int| 0 <= i <= j < s.len() ==> s[i] <= s[j]
}

/// `a` holds the same elements as `b`, each as often, in any order.
pub open spec fn permutes(a: Seq<i32>, b: Seq<i32>) -> bool {
    a.to_multiset() == b.to_multiset()
}

/// `out` is the ascending arrangement of `inp`.
pub open spec fn is_sort_of(out: Seq<i32>, inp: Seq<i32>) -> bool {
    sorted(out) && permutes(out, inp)
}

/// `s` with the elements at `i` and `j` exchanged.
pub open spec fn swapped(s: Seq<i32>, i: int, j: int) -> Seq<i32> {
    s.update(i, s[j]).update(j, s[i])
}

/// Exchanging two elements rearranges a sequence and keeps its length.
pub proof fn lemma_swap_permutes(s: Seq<i32>, i: int, j: int)
    requires
        0 <= i < s.len(),
        0 <= j < s.len(),
    ensures
        permutes(swapped(s, i, j), s),
        swapped(s, i, j).len() == s.len(),
{
    broadcast use vstd::seq_lib::group_to_multiset_ensures;
    broadcast use vstd::multiset::group_multiset_axioms;

    let mid = s.update(i, s[j]);
    assert(mid.to_multiset() == s.to_multiset().insert(s[j]).remove(s[i]));
    assert(mid.update(j, s[i]).to_multiset() == mid.to_multiset().insert(s[i]).remove(mid[j]));
    assert(swapped(s, i, j).to_multiset() =~= s.to_multiset());
}

/// Rearranging keeps the length.
pub proof fn lemma_permutes_len(a: Seq<i32>, b: Seq<i32>)
    requires
        permutes(a, b),
    ensures
        a.len() == b.len(),
{
    broadcast use vstd::seq_lib::group_to_multiset_ensures;

    assert(a.len() == a.to_multiset().len());
    assert(b.len() == b.to_multiset().len());
}

/// A sequence has one ascending arrangement only: two ascending sequences
/// with the same elements are the same sequence.
pub proof fn lemma_sorted_arrangement_unique(a: Seq<i32>, b: Seq<i32>)
    requires
        sorted(a),
        sorted(b),
        permutes(a, b),
    ensures
        a == b,
{
    let leq = |x: i32, y: i32| x <= y;
    assert(vstd::relations::total_ordering(leq));
    assert(vstd::relations::sorted_by(a, leq));
    assert(vstd::relations::sorted_by(b, leq));
    vstd::seq_lib::lemma_sorted_unique(a, b, leq);
}

/// In `s`, no item is greater than the item `gap` places behind it.
pub open spec fn gap_sorted(s: Seq<i32>, gap: int) -> bool {
    forall|t: int| gap <= t < s.len() ==> s[t - gap] <= #[trigger] s[t]
}

/// Among the first `n` items of `s`, no item is greater than the item `gap`
/// places behind it.
pub open spec fn gap_sorted_upto(s: Seq<i32>, gap: int, n: int) -> bool {
    forall|t: int| gap <= t < n ==> s[t - gap] <= #[trigger] s[t]
}

/// A sequence in which no item is greater than its right neighbour is
/// ascending.
pub proof fn lemma_neighbours_sorted(s: Seq<i32>)
    requires
        gap_sorted(s, 1),
    ensures
        sorted(s),
{
    assert forall|i: int, j: int| 0 <= i <= j < s.len() implies s[i] <= s[j] by {
        lemma_neighbours_reach(s, i, j);
    }
}

/// In a sequence in which no item is greater than its right neighbour, none
/// is greater than any later one.
proof fn lemma_neighbours_reach(s: Seq<i32>, i: int, j: int)
    requires
        gap_sorted(s, 1),
        0 <= i <= j < s.len(),
    ensures
        s[i] <= s[j],
    decreases j - i,
{
    if i < j {
        lemma_neighbours_reach(s, i, j - 1);
        assert(s[j - 1] <= s[j]);
    }
}

/// The items of `s` from `lo` up to `hi`, inclusive.
pub open spec fn span(s: Seq<i32>, lo: int, hi: int) -> Seq<i32> {
    s.subrange(lo, hi + 1)
}

/// `a` and `b` are equally long and differ at most from `lo` up to `hi`,
/// inclusive.
pub open spec fn same_outside(a: Seq<i32>, b: Seq<i32>, lo: int, hi: int) -> bool {
    &&& a.len() == b.len()
    &&& forall|t: int| 0 <= t < a.len() && !(lo <= t <= hi) ==> a[t] == b[t]
}

/// An exchange inside a span rearranges the span and leaves the rest alone.
pub proof fn lemma_swap_in_span(s: Seq<i32>, lo: int, hi: int, i: int, j: int)
    requires
        0 <= lo <= i <= hi < s.len(),
        lo <= j <= hi,
    ensures
        same_outside(swapped(s, i, j), s, lo, hi),
        permutes(span(swapped(s, i, j), lo, hi), span(s, lo, hi)),
{
    lemma_swap_permutes(span(s, lo, hi), i - lo, j - lo);
    assert(span(swapped(s, i, j), lo, hi) =~= swapped(span(s, lo, hi), i - lo, j - lo));
}

/// Every item of a rearrangement is an item of what was rearranged.
pub proof fn lemma_permutes_member(a: Seq<i32>, b: Seq<i32>, i: int) -> (j: int)
    requires
        permutes(a, b),
        0 <= i < a.len(),
    ensures
        0 <= j < b.len(),
        b[j] == a[i],
{
    broadcast use vstd::seq_lib::group_to_multiset_ensures;

    assert(a.contains(a[i]));
    assert(a.to_multiset().count(a[i]) > 0);
    assert(b.contains(a[i]));
    choose|j: int| 0 <= j < b.len() && b[j] == a[i]
}

/// A sequence rearranged in one span, and unchanged elsewhere, is a
/// rearrangement as a whole.
pub proof fn lemma_span_permutes_whole(a: Seq<i32>, b: Seq<i32>, lo: int, hi: int)
    requires
        0 <= lo <= hi + 1 <= a.len(),
        same_outside(a, b, lo, hi),
        permutes(span(a, lo, hi), span(b, lo, hi)),
    ensures
        permutes(a, b),
{
    assert(a =~= a.take(lo) + span(a, lo, hi) + a.skip(hi + 1));
    assert(b =~= b.take(lo) + span(b, lo, hi) + b.skip(hi + 1));
    assert(a.take(lo) =~= b.take(lo));
    assert(a.skip(hi + 1) =~= b.skip(hi + 1));
    vstd::seq_lib::lemma_multiset_commutative(a.take(lo), span(a, lo, hi));
    vstd::seq_lib::lemma_multiset_commutative(a.take(lo) + span(a, lo, hi), a.skip(hi + 1));
    vstd::seq_lib::lemma_multiset_commutative(b.take(lo), span(b, lo, hi));
    vstd::seq_lib::lemma_multiset_commutative(b.take(lo) + span(b, lo, hi), b.skip(hi + 1));
}

/// The sequence `1, 2, ..., n`.
pub open spec fn one_to(n: nat) -> Seq<i32> {
    Seq::new(n, |i: int| (i + 1) as i32)
}

/// The sequence `1, 2, ..., n` is ascending, as long as `n` is a value of
/// `i32`.
pub proof fn lemma_one_to_sorted(n: nat)
    requires
        n <= i32::MAX,
    ensures
        sorted(one_to(n)),
        one_to(n).len() == n,
{
}

/// Sorting any arrangement of `1, 2, ..., n` gives `1, 2, ..., n`.
pub proof fn lemma_sort_of_arranged_one_to(inp: Seq<i32>, out: Seq<i32>, n: nat)
    requires
        n <= i32::MAX,
        permutes(inp, one_to(n)),
        is_sort_of(out, inp),
    ensures
        out == one_to(n),
{
    lemma_one_to_sorted(n);
    lemma_sorted_arrangement_unique(out, one_to(n));
}

/// Sorting is idempotent: to sort what has been sorted changes nothing.
pub proof fn lemma_sort_idempotent(inp: Seq<i32>, once: Seq<i32>, twice: Seq<i32>)
    requires
        is_sort_of(once, inp),
        is_sort_of(twice, once),
    ensures
        twice == once,
{
    lemma_sorted_arrangement_unique(twice, once);
}

/// Two complete sorts of one input agree, whichever algorithms made them.
pub proof fn lemma_sorts_agree(inp: Seq<i32>, a: Seq<i32>, b: Seq<i32>)
    requires
        is_sort_of(a, inp),
        is_sort_of(b, inp),
    ensures
        a == b,
{
    lemma_sorted_arrangement_unique(a, b);
}

/// Exchanges the items at `i` and `j`.
pub fn swap_items(arr: &mut Vec<i32>, i: usize, j: usize)
    requires
        i < old(arr).len(),
        j < old(arr).len(),
    ensures
        final(arr)@ == swapped(old(arr)@, i as int, j as int),
        final(arr)@.len() == old(arr)@.len(),
        permutes(final(arr)@, old(arr)@),
{
    proof {
        lemma_swap_permutes(arr@, i as int, j as int);
    }
    let a: i32 = arr[i];
    let b: i32 = arr[j];
    arr[i] = b;
    arr[j] = a;
}

} // verus!
