//! Heap sort over a binary max-heap laid out in the sequence itself: the
//! children of the item at `p` stand at `2p + 1` and `2p + 2`.
//!
//! The sequence is first made a heap, from the last parent back to the
//! root. Then the root, the greatest item, changes places with the last item
//! of the heap, the heap ends one item earlier, and the new root sinks to
//! its place; this is repeated until one item is left.

use vstd::prelude::*;
use crate::order::{
    is_sort_of,
    lemma_permutes_member,
    lemma_span_permutes_whole,
    lemma_swap_in_span,
    lemma_swap_permutes,
    permutes,
    same_outside,
    span,
    swap_items,
};

verus! {

/// In the heap that ends before `end`, the item at `p` is not less than
/// either of its children.
pub open spec fn heap_at(s: Seq<i32>, p: int, end: int) -> bool {
    &&& 2 * p + 1 < end ==> s[p] >= s[2 * p + 1]
    &&& 2 * p + 2 < end ==> s[p] >= s[2 * p + 2]
}

/// Every item from `lo` on, in the heap that ends before `end`, is not less
/// than either of its children.
pub open spec fn heap_from(s: Seq<i32>, lo: int, end: int) -> bool {
    forall|p: int| lo <= p < end ==> #[trigger] heap_at(s, p, end)
}

/// The first `end` items of `s` are what is still to be sorted: everything
/// behind them is ascending and not less than any of them.
pub open spec fn tail_done(s: Seq<i32>, end: int) -> bool {
    &&& forall|a: int, b: int| end <= a <= b < s.len() ==> s[a] <= s[b]
    &&& forall|a: int, b: int| 0 <= a < end <= b < s.len() ==> s[a] <= s[b]
}

/// The root of a heap is its greatest item.
pub proof fn lemma_heap_root_greatest(s: Seq<i32>, end: int, i: int)
    requires
        heap_from(s, 0, end),
        0 <= i < end <= s.len(),
    ensures
        s[i] <= s[0],
    decreases i,
{
    if i > 0 {
        let p = (i - 1) / 2;
        assert(heap_at(s, p, end));
        lemma_heap_root_greatest(s, end, p);
    }
}

/// Lets the item at `start` sink until neither child is greater, within the
/// heap that ends before `end`. Where everything behind `start` was in heap
/// order, everything from `start` on is so afterwards.
fn sift_down(arr: &mut Vec<i32>, start: usize, end: usize)
    requires
        start < end <= old(arr).len(),
        heap_from(old(arr)@, start + 1, end as int),
    ensures
        heap_from(final(arr)@, start as int, end as int),
        same_outside(final(arr)@, old(arr)@, start as int, end - 1),
        permutes(span(final(arr)@, start as int, end - 1), span(old(arr)@, start as int, end - 1)),
{
    let mut root: usize = start;
    // the parent of `root`, once it has left `start`
    let ghost mut parent: int = 0;

    while root < end / 2
        invariant
            start <= root < end <= arr.len(),
            same_outside(arr@, old(arr)@, start as int, end - 1),
            permutes(span(arr@, start as int, end - 1), span(old(arr)@, start as int, end - 1)),
            forall|p: int| start <= p < end && p != root ==> #[trigger] heap_at(arr@, p, end as int),
            root != start ==> start <= parent < root && (root == 2 * parent + 1 || root == 2
                * parent + 2),
            root != start && 2 * root + 1 < end ==> arr@[parent] >= arr@[2 * root + 1],
            root != start && 2 * root + 2 < end ==> arr@[parent] >= arr@[2 * root + 2],
        decreases end - root,
    {
        let left: usize = 2 * root + 1;
        let right: usize = left + 1;
        let mut largest: usize = root;
        if arr[left] > arr[largest] {
            largest = left;
        }
        if right < end && arr[right] > arr[largest] {
            largest = right;
        }
        if largest == root {
            assert(heap_at(arr@, root as int, end as int));
            return ;
        }
        let ghost before = arr@;
        proof {
            lemma_swap_in_span(before, start as int, end - 1, root as int, largest as int);
            assert(heap_at(before, largest as int, end as int));
        }
        swap_items(arr, root, largest);
        proof {
            assert forall|p: int| start <= p < end && p != largest implies #[trigger] heap_at(
                arr@,
                p,
                end as int,
            ) by {
                if p != root {
                    assert(heap_at(before, p, end as int));
                }
            }
            parent = root as int;
        }
        root = largest;
    }
    proof {
        assert(heap_at(arr@, root as int, end as int));
    }
}

/// Sorts `arr` by heap sort: afterwards it is ascending and holds the items
/// it held before.
pub fn heap_sort(arr: &mut Vec<i32>)
    ensures
        is_sort_of(final(arr)@, old(arr)@),
        final(arr)@.len() == old(arr)@.len(),
{
    let len: usize = arr.len();

    let mut i: usize = len / 2;
    while i > 0
        invariant
            i <= len / 2,
            len == arr.len(),
            permutes(arr@, old(arr)@),
            heap_from(arr@, i as int, len as int),
        decreases i,
    {
        i -= 1;
        let ghost before = arr@;
        sift_down(arr, i, len);
        proof {
            lemma_span_permutes_whole(arr@, before, i as int, len - 1);
        }
    }

    let mut end: usize = len;
    while end > 1
        invariant
            end <= len,
            len == arr.len(),
            permutes(arr@, old(arr)@),
            heap_from(arr@, 0, end as int),
            tail_done(arr@, end as int),
        decreases end,
    {
        let ghost a0 = arr@;
        end -= 1;
        swap_items(arr, 0, end);
        let ghost a1 = arr@;
        proof {
            lemma_swap_permutes(a0, 0, end as int);
            assert forall|p: int| 1 <= p < end implies #[trigger] heap_at(a1, p, end as int) by {
                assert(heap_at(a0, p, end + 1));
            }
            assert forall|a: int| 0 <= a < end implies a1[a] <= a1[end as int] by {
                lemma_heap_root_greatest(a0, end + 1, a);
                lemma_heap_root_greatest(a0, end + 1, end as int);
            }
        }
        sift_down(arr, 0, end);
        proof {
            lemma_span_permutes_whole(arr@, a1, 0, end - 1);
            assert forall|a: int, b: int| 0 <= a < end <= b < arr@.len() implies arr@[a]
                <= arr@[b] by {
                let u = lemma_permutes_member(span(arr@, 0, end - 1), span(a1, 0, end - 1), a);
                assert(span(arr@, 0, end - 1)[a] == arr@[a]);
                assert(span(a1, 0, end - 1)[u] == a1[u]);
                assert(a1[u] <= a1[end as int]);
                if b > end {
                    assert(a1[end as int] == a0[0]);
                    assert(a1[b] == a0[b]);
                }
            }
        }
    }
    proof {
        assert forall|a: int, b: int| 0 <= a <= b < arr@.len() implies arr@[a] <= arr@[b] by {
            if a < end {
            }
        }
    }
}

} // verus!
