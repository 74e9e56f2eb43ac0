//! Quick sort with Lomuto's partition: the pivot is the last item of the
//! span, and the items less than it are gathered before it.

use vstd::prelude::*;
use crate::order::{
    is_sort_of,
    lemma_permutes_member,
    lemma_span_permutes_whole,
    lemma_swap_in_span,
    permutes,
    same_outside,
    sorted,
    span,
    swap_items,
};

verus! {

/// `s` is divided at `p` within the span from `lo` to `hi`: the items of the
/// span before `p` are less than the item at `p`, those behind it are not.
pub open spec fn divided_at(s: Seq<i32>, lo: int, hi: int, p: int) -> bool {
    &&& lo <= p <= hi
    &&& forall|t: int| lo <= t < p ==> s[t] < s[p]
    &&& forall|t: int| p < t <= hi ==> s[t] >= s[p]
}

/// The number of items from `low` to `high`, inclusive.
pub open spec fn span_len(low: usize, high: usize) -> nat {
    if low <= high {
        (high - low + 1) as nat
    } else {
        0
    }
}

/// Rearranges the span from `low` to `high` around its last item, the
/// pivot, and returns the index at which the pivot comes to stand.
fn partition(arr: &mut Vec<i32>, low: usize, high: usize) -> (pi: usize)
    requires
        low <= high < old(arr).len(),
    ensures
        same_outside(final(arr)@, old(arr)@, low as int, high as int),
        permutes(span(final(arr)@, low as int, high as int), span(old(arr)@, low as int, high as int)),
        divided_at(final(arr)@, low as int, high as int, pi as int),
        final(arr)@[pi as int] == old(arr)@[high as int],
{
    let pivot: i32 = arr[high];
    let mut i: usize = low;
    let mut j: usize = low;

    while j < high
        invariant
            low <= i <= j <= high < arr.len(),
            arr@[high as int] == pivot,
            pivot == old(arr)@[high as int],
            same_outside(arr@, old(arr)@, low as int, high as int),
            permutes(span(arr@, low as int, high as int), span(old(arr)@, low as int, high as int)),
            forall|t: int| low <= t < i ==> arr@[t] < pivot,
            forall|t: int| i <= t < j ==> arr@[t] >= pivot,
        decreases high - j,
    {
        if arr[j] < pivot {
            proof {
                lemma_swap_in_span(arr@, low as int, high as int, i as int, j as int);
            }
            swap_items(arr, i, j);
            i += 1;
        }
        j += 1;
    }

    proof {
        lemma_swap_in_span(arr@, low as int, high as int, i as int, high as int);
    }
    swap_items(arr, i, high);
    i
}

/// Sorts the span from `low` to `high` of `arr` by quick sort. The rest of
/// `arr` stays as it is; a span of fewer than two items (`low >= high`)
/// changes nothing.
pub fn quick_sort(arr: &mut Vec<i32>, low: usize, high: usize)
    requires
        low < high ==> high < old(arr).len(),
    ensures
        low >= high ==> final(arr)@ == old(arr)@,
        low < high ==> same_outside(final(arr)@, old(arr)@, low as int, high as int),
        low < high ==> is_sort_of(
            span(final(arr)@, low as int, high as int),
            span(old(arr)@, low as int, high as int),
        ),
        permutes(final(arr)@, old(arr)@),
        final(arr)@.len() == old(arr)@.len(),
    decreases span_len(low, high),
{
    if low < high {
        let ghost a0 = arr@;
        let pi: usize = partition(arr, low, high);
        let ghost a1 = arr@;
        let ghost pivot = a1[pi as int];

        if pi > 0 {
            quick_sort(arr, low, pi - 1);
        }
        let ghost a2 = arr@;
        proof {
            // the part before the pivot: in order, and still below the pivot
            assert(same_outside(a2, a1, low as int, pi - 1));
            if low < pi - 1 {
            } else {
                assert(span(a2, low as int, pi - 1) =~= span(a1, low as int, pi - 1));
            }
            assert(sorted(span(a2, low as int, pi - 1)));
            assert(permutes(span(a2, low as int, pi - 1), span(a1, low as int, pi - 1)));
            assert forall|t: int| low <= t < pi implies a2[t] < pivot by {
                let u = lemma_permutes_member(
                    span(a2, low as int, pi - 1),
                    span(a1, low as int, pi - 1),
                    t - low,
                );
                assert(span(a2, low as int, pi - 1)[t - low] == a2[t]);
                assert(span(a1, low as int, pi - 1)[u] == a1[u + low]);
            }
        }

        quick_sort(arr, pi + 1, high);
        let ghost a3 = arr@;
        proof {
            assert(same_outside(a3, a2, pi + 1, high as int));
            if pi + 1 < high {
            } else {
                assert(span(a3, pi + 1, high as int) =~= span(a2, pi + 1, high as int));
            }
            assert(span(a2, pi + 1, high as int) =~= span(a1, pi + 1, high as int));
            assert(sorted(span(a3, pi + 1, high as int)));
            assert(permutes(span(a3, pi + 1, high as int), span(a1, pi + 1, high as int)));
            assert forall|t: int| pi < t <= high implies a3[t] >= pivot by {
                let u = lemma_permutes_member(
                    span(a3, pi + 1, high as int),
                    span(a1, pi + 1, high as int),
                    t - pi - 1,
                );
                assert(span(a3, pi + 1, high as int)[t - pi - 1] == a3[t]);
                assert(span(a1, pi + 1, high as int)[u] == a1[u + pi + 1]);
            }
            let left = span(a3, low as int, pi - 1);
            let right = span(a3, pi + 1, high as int);
            let out = span(a3, low as int, high as int);
            assert(left =~= span(a2, low as int, pi - 1));
            assert(a3[pi as int] == pivot);
            assert forall|x: int, y: int| 0 <= x <= y < out.len() implies out[x] <= out[y] by {
                let tx = x + low;
                let ty = y + low;
                assert(out[x] == a3[tx] && out[y] == a3[ty]);
                if ty < pi {
                    assert(left[x] == a3[tx] && left[y] == a3[ty]);
                } else if tx > pi {
                    assert(right[tx - pi - 1] == a3[tx] && right[ty - pi - 1] == a3[ty]);
                }
            }
            // the span holds what it held: part by part
            let l1 = span(a1, low as int, pi - 1);
            let r1 = span(a1, pi + 1, high as int);
            assert(out =~= left + seq![pivot] + right);
            assert(span(a1, low as int, high as int) =~= l1 + seq![pivot] + r1);
            vstd::seq_lib::lemma_multiset_commutative(left, seq![pivot]);
            vstd::seq_lib::lemma_multiset_commutative(left + seq![pivot], right);
            vstd::seq_lib::lemma_multiset_commutative(l1, seq![pivot]);
            vstd::seq_lib::lemma_multiset_commutative(l1 + seq![pivot], r1);
            assert(permutes(out, span(a1, low as int, high as int)));
            assert(same_outside(a3, a0, low as int, high as int));
            lemma_span_permutes_whole(a3, a0, low as int, high as int);
        }
    }
}

} // verus!
