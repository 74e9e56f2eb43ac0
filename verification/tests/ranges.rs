use sorting_visualizer::order::swap_items;
use sorting_visualizer::sorting::insertion_sort::insert_into_prefix;
use sorting_visualizer::sorting::merge_sort::{merge, merge_sort, merge_sort_helper};
use sorting_visualizer::sorting::quick_sort::quick_sort;
use sorting_visualizer::sorting::selection_sort::select_least;

#[test]
fn swap_items_exchanges_two_places() {
    let mut arr = vec![10, 20, 30, 40];
    swap_items(&mut arr, 0, 3);
    assert_eq!(arr, vec![40, 20, 30, 10]);
}

#[test]
fn swap_items_with_itself_changes_nothing() {
    let mut arr = vec![10, 20, 30];
    swap_items(&mut arr, 1, 1);
    assert_eq!(arr, vec![10, 20, 30]);
}

#[test]
fn quick_sort_of_a_span_leaves_the_rest() {
    let mut arr = vec![9, 8, 7, 6, 5, 4, 3, 2, 1];
    quick_sort(&mut arr, 2, 6);
    assert_eq!(arr, vec![9, 8, 3, 4, 5, 6, 7, 2, 1]);
}

#[test]
fn quick_sort_of_an_empty_span_changes_nothing() {
    let mut arr = vec![3, 2, 1];
    quick_sort(&mut arr, 2, 2);
    assert_eq!(arr, vec![3, 2, 1]);
    quick_sort(&mut arr, 2, 1);
    assert_eq!(arr, vec![3, 2, 1]);
    // beyond the end, too, as long as the span is empty
    quick_sort(&mut arr, 7, 5);
    assert_eq!(arr, vec![3, 2, 1]);
}

#[test]
fn quick_sort_with_the_least_item_as_pivot() {
    // the pivot comes to stand at index 0: the part before it is empty
    let mut arr = vec![5, 4, 3, 2, 1];
    quick_sort(&mut arr, 0, 4);
    assert_eq!(arr, vec![1, 2, 3, 4, 5]);
}

#[test]
fn merge_joins_two_runs() {
    let mut arr = vec![0, 1, 4, 7, 2, 3, 9, 0];
    merge(&mut arr, 1, 3, 6);
    assert_eq!(arr, vec![0, 1, 2, 3, 4, 7, 9, 0]);
}

#[test]
fn merge_with_an_empty_right_run() {
    let mut arr = vec![5, 1, 2, 3, 0];
    merge(&mut arr, 1, 3, 3);
    assert_eq!(arr, vec![5, 1, 2, 3, 0]);
}

#[test]
fn merge_follows_the_heads_of_unordered_runs() {
    // the runs need not be ascending: the merge compares the heads as they come
    let mut arr = vec![2, 1, 1, 3];
    merge(&mut arr, 0, 1, 3);
    assert_eq!(arr, vec![1, 2, 1, 3]);
}

#[test]
fn merge_sort_helper_of_a_span_leaves_the_rest() {
    let mut arr = vec![9, 8, 7, 6, 5, 4, 3, 2, 1];
    merge_sort_helper(&mut arr, 3, 7);
    assert_eq!(arr, vec![9, 8, 7, 2, 3, 4, 5, 6, 1]);
}

#[test]
fn merge_sort_helper_of_an_empty_span_changes_nothing() {
    let mut arr = vec![3, 2, 1];
    merge_sort_helper(&mut arr, 1, 1);
    assert_eq!(arr, vec![3, 2, 1]);
    merge_sort_helper(&mut arr, 2, 0);
    assert_eq!(arr, vec![3, 2, 1]);
}

#[test]
fn merge_sort_with_repeated_keys() {
    let mut arr = vec![2, 1, 2, 1, 2, 1, 3, 1];
    merge_sort(&mut arr);
    assert_eq!(arr, vec![1, 1, 1, 1, 2, 2, 2, 3]);
}

#[test]
fn insert_into_prefix_moves_past_greater_items() {
    let mut arr = vec![1, 3, 5, 7, 4, 0, 9];
    insert_into_prefix(&mut arr, 4);
    assert_eq!(arr, vec![1, 3, 4, 5, 7, 0, 9]);
}

#[test]
fn insert_into_prefix_stops_behind_an_equal_item() {
    let mut arr = vec![1, 4, 6, 4];
    insert_into_prefix(&mut arr, 3);
    assert_eq!(arr, vec![1, 4, 4, 6]);
}

#[test]
fn insert_into_prefix_reaches_the_front() {
    let mut arr = vec![2, 3, 4, 1];
    insert_into_prefix(&mut arr, 3);
    assert_eq!(arr, vec![1, 2, 3, 4]);
}

#[test]
fn insert_into_prefix_stops_at_the_first_smaller_item() {
    // the prefix is not ascending: the item stops behind the 2
    let mut arr = vec![9, 2, 8, 5];
    insert_into_prefix(&mut arr, 3);
    assert_eq!(arr, vec![9, 2, 5, 8]);
}

#[test]
fn select_least_brings_the_least_item_forward() {
    let mut arr = vec![0, 5, 3, 1, 4];
    select_least(&mut arr, 1);
    assert_eq!(arr, vec![0, 1, 3, 5, 4]);
}

#[test]
fn select_least_takes_the_first_of_equal_items() {
    let mut arr = vec![5, 2, 7, 2];
    select_least(&mut arr, 0);
    assert_eq!(arr, vec![2, 5, 7, 2]);
}

#[test]
fn select_least_at_the_last_place_changes_nothing() {
    let mut arr = vec![3, 1, 2];
    select_least(&mut arr, 2);
    assert_eq!(arr, vec![3, 1, 2]);
}
