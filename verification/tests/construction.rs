use sorting_visualizer::visualizer::MAX_SIZE;
use sorting_visualizer::SortingVisualizer;

#[test]
fn try_new_makes_what_new_makes() {
    let session = SortingVisualizer::try_new(4).expect("a small size is accepted");
    assert_eq!(session.get_data(), vec![1, 2, 3, 4]);
    assert_eq!(session.size(), 4);
    assert_eq!(session.get_comparisons(), 0);
    assert_eq!(session.get_swaps(), 0);
    assert!(SortingVisualizer::try_new(0).is_some());
}

#[test]
fn try_new_rejects_a_size_beyond_the_greatest() {
    assert_eq!(MAX_SIZE, 2147483647);
    assert!(SortingVisualizer::try_new(MAX_SIZE + 1).is_none());
    assert!(SortingVisualizer::try_new(usize::MAX).is_none());
}

#[test]
fn new_session_counts_from_one() {
    let session = SortingVisualizer::new(5);
    assert_eq!(session.get_data(), vec![1, 2, 3, 4, 5]);
    assert_eq!(session.size(), 5);
}

#[test]
fn new_session_of_every_small_size() {
    for n in 0..200usize {
        let session = SortingVisualizer::new(n);
        let data = session.get_data();
        assert_eq!(data.len(), n);
        for (i, item) in data.iter().enumerate() {
            assert_eq!(*item, i as i32 + 1);
        }
    }
}

#[test]
fn new_session_of_size_zero_is_empty() {
    let session = SortingVisualizer::new(0);
    assert_eq!(session.get_data(), Vec::<i32>::new());
    assert_eq!(session.size(), 0);
}

#[test]
fn new_session_of_size_one() {
    let session = SortingVisualizer::new(1);
    assert_eq!(session.get_data(), vec![1]);
}

#[test]
fn new_session_starts_with_zero_counters() {
    let session = SortingVisualizer::new(7);
    assert_eq!(session.get_comparisons(), 0);
    assert_eq!(session.get_swaps(), 0);
}

#[test]
fn from_data_keeps_the_sequence() {
    let session = SortingVisualizer::from_data(vec![5, 4, 3, 2, 1]);
    assert_eq!(session.get_data(), vec![5, 4, 3, 2, 1]);
    assert_eq!(session.size(), 5);
    assert_eq!(session.get_comparisons(), 0);
    assert_eq!(session.get_swaps(), 0);
}

#[test]
fn get_data_is_a_copy() {
    let session = SortingVisualizer::new(3);
    let mut copy = session.get_data();
    copy[0] = 99;
    assert_eq!(session.get_data(), vec![1, 2, 3]);
}

#[test]
fn reset_stats_keeps_the_sequence() {
    let mut session = SortingVisualizer::from_data(vec![3, 1, 2]);
    session.reset_stats();
    assert_eq!(session.get_data(), vec![3, 1, 2]);
    assert_eq!(session.get_comparisons(), 0);
    assert_eq!(session.get_swaps(), 0);
}

#[test]
fn reset_stats_restarts_the_cursors() {
    let mut session = SortingVisualizer::from_data(vec![3, 1, 2]);
    // run both stepwise sorts to completion
    while !session.selection_sort_step() {}
    assert!(!session.insertion_sort_step());
    while !session.insertion_sort_step() {}
    assert_eq!(session.get_data(), vec![1, 2, 3]);
    assert!(session.selection_sort_step());
    assert!(session.insertion_sort_step());

    session.reset_stats();
    assert_eq!(session.get_data(), vec![1, 2, 3]);
    // with the cursors back at zero a first step reports "not complete"
    assert!(!session.selection_sort_step());
    assert!(!session.insertion_sort_step());
}

#[test]
fn sorts_leave_the_counters_alone() {
    let mut session = SortingVisualizer::from_data(vec![4, 2, 9, 1]);
    session.quick_sort();
    session.merge_sort();
    session.heap_sort();
    session.insertion_sort();
    session.selection_sort();
    session.shell_sort();
    assert_eq!(session.get_comparisons(), 0);
    assert_eq!(session.get_swaps(), 0);
}
