//! Shell sort with the gaps `len / 2`, `len / 4`, ... down to 1.
//!
//! Each pass is an insertion sort of the items that stand `gap` places
//! apart. The last pass, with gap 1, is an insertion sort of the whole
//! sequence, which leaves it ascending.

use vstd::prelude::*;
use crate::order::{
    gap_sorted,
    gap_sorted_upto,
    is_sort_of,
    lemma_neighbours_sorted,
    lemma_swap_permutes,
    permutes,
    swapped,
};

verus! {

/// Moves the item at `i` left in strides of `gap` past every greater item.
/// Where the items before `i` were in order at that distance, those up to
/// and including `i` are so afterwards.
fn gap_insert(arr: &mut Vec<i32>, gap: usize, i: usize)
    requires
        0 < gap <= i < old(arr).len(),
    ensures
        final(arr)@.len() == old(arr)@.len(),
        permutes(final(arr)@, old(arr)@),
        gap_sorted_upto(old(arr)@, gap as int, i as int) ==> gap_sorted_upto(
            final(arr)@,
            gap as int,
            i + 1,
        ),
{
    let temp: i32 = arr[i];
    let mut j: usize = i;
    let ghost s = arr@;
    // `placed` is the sequence as it would be if the item were put down here
    let ghost mut placed = arr@;

    while j >= gap && arr[j - gap] > temp
        invariant
            0 < gap <= i < arr.len(),
            j <= i,
            arr.len() == s.len(),
            s == old(arr)@,
            placed == arr@.update(j as int, temp),
            permutes(placed, s),
            gap_sorted_upto(s, gap as int, i as int) ==> forall|t: int|
                gap <= t <= i && t != j ==> placed[t - gap] <= #[trigger] placed[t],
            gap_sorted_upto(s, gap as int, i as int) && gap <= j && j + gap <= i ==> placed[j
                - gap] <= placed[j + gap],
        decreases j,
    {
        let ghost before = placed;
        arr[j] = arr[j - gap];
        proof {
            placed = arr@.update(j - gap, temp);
            assert(placed =~= swapped(before, j - gap, j as int));
            lemma_swap_permutes(before, j - gap, j as int);
            if gap_sorted_upto(s, gap as int, i as int) {
                assert forall|t: int| gap <= t <= i && t != j - gap implies placed[t - gap]
                    <= #[trigger] placed[t] by {
                    if t == j {
                    } else if t == j + gap {
                    } else {
                        assert(before[t - gap] <= before[t]);
                    }
                }
                if gap <= j - gap {
                    assert(before[j - gap - gap] <= before[j - gap]);
                }
            }
        }
        j -= gap;
    }
    arr[j] = temp;
    proof {
        assert(arr@ =~= placed);
        if gap_sorted_upto(s, gap as int, i as int) {
            assert forall|t: int| gap <= t < i + 1 implies arr@[t - gap] <= #[trigger] arr@[t] by {
                if t != j {
                    assert(placed[t - gap] <= placed[t]);
                }
            }
        }
    }
}

/// Sorts `arr` by Shell sort: afterwards it is ascending and holds the
/// items it held before.
pub fn shell_sort(arr: &mut Vec<i32>)
    ensures
        is_sort_of(final(arr)@, old(arr)@),
        final(arr)@.len() == old(arr)@.len(),
{
    let len: usize = arr.len();
    let mut gap: usize = len / 2;

    while gap > 0
        invariant
            len == arr.len(),
            gap <= len,
            permutes(arr@, old(arr)@),
            gap == 0 ==> gap_sorted(arr@, 1),
        decreases gap,
    {
        let mut i: usize = gap;
        while i < len
            invariant
                0 < gap <= i <= len,
                len == arr.len(),
                permutes(arr@, old(arr)@),
                gap_sorted_upto(arr@, gap as int, i as int),
            decreases len - i,
        {
            gap_insert(arr, gap, i);
            i += 1;
        }
        proof {
            if gap == 1 {
                assert(gap_sorted(arr@, 1));
            }
        }
        gap /= 2;
    }
    proof {
        lemma_neighbours_sorted(arr@);
    }
}

} // verus!
