use sorting_visualizer::sorting::bubble_sort::bubble_sort_step;
use sorting_visualizer::sorting::insertion_sort::{insertion_sort, insertion_sort_step};
use sorting_visualizer::sorting::selection_sort::{selection_sort, selection_sort_step};
use sorting_visualizer::SortingVisualizer;

fn extend_permutations(prefix: &mut Vec<i32>, rest: &mut Vec<i32>, out: &mut Vec<Vec<i32>>) {
    if rest.is_empty() {
        out.push(prefix.clone());
        return;
    }
    for k in 0..rest.len() {
        let item = rest.remove(k);
        prefix.push(item);
        extend_permutations(prefix, rest, out);
        prefix.pop();
        rest.insert(k, item);
    }
}

fn permutations(n: i32) -> Vec<Vec<i32>> {
    let mut out = Vec::new();
    let mut rest: Vec<i32> = (1..=n).collect();
    extend_permutations(&mut Vec::new(), &mut rest, &mut out);
    out
}

#[test]
fn selection_steps_on_sorted_five() {
    let mut session = SortingVisualizer::new(5);
    assert_eq!(session.get_data(), vec![1, 2, 3, 4, 5]);
    assert!(!session.selection_sort_step());
    assert_eq!(session.get_data(), vec![1, 2, 3, 4, 5]);
    assert!(!session.selection_sort_step());
    assert!(!session.selection_sort_step());
    assert!(!session.selection_sort_step());
    assert!(session.selection_sort_step());
    assert_eq!(session.get_data(), vec![1, 2, 3, 4, 5]);
}

#[test]
fn selection_steps_one_by_one() {
    let mut arr = vec![4, 2, 5, 1, 3];
    let mut step = 0usize;
    assert!(!selection_sort_step(&mut arr, &mut step));
    assert_eq!((arr.clone(), step), (vec![1, 2, 5, 4, 3], 1));
    assert!(!selection_sort_step(&mut arr, &mut step));
    assert_eq!((arr.clone(), step), (vec![1, 2, 5, 4, 3], 2));
    assert!(!selection_sort_step(&mut arr, &mut step));
    assert_eq!((arr.clone(), step), (vec![1, 2, 3, 4, 5], 3));
    assert!(!selection_sort_step(&mut arr, &mut step));
    assert_eq!((arr.clone(), step), (vec![1, 2, 3, 4, 5], 4));
    assert!(selection_sort_step(&mut arr, &mut step));
    assert_eq!((arr.clone(), step), (vec![1, 2, 3, 4, 5], 5));
}

#[test]
fn insertion_steps_one_by_one() {
    let mut arr = vec![4, 2, 5, 1, 3];
    let mut step = 0usize;
    // the first step only starts the run
    assert!(!insertion_sort_step(&mut arr, &mut step));
    assert_eq!((arr.clone(), step), (vec![4, 2, 5, 1, 3], 1));
    assert!(!insertion_sort_step(&mut arr, &mut step));
    assert_eq!((arr.clone(), step), (vec![2, 4, 5, 1, 3], 2));
    assert!(!insertion_sort_step(&mut arr, &mut step));
    assert_eq!((arr.clone(), step), (vec![2, 4, 5, 1, 3], 3));
    assert!(!insertion_sort_step(&mut arr, &mut step));
    assert_eq!((arr.clone(), step), (vec![1, 2, 4, 5, 3], 4));
    assert!(insertion_sort_step(&mut arr, &mut step));
    assert_eq!((arr.clone(), step), (vec![1, 2, 3, 4, 5], 5));
}

#[test]
fn insertion_first_step_of_a_single_item_is_not_done() {
    let mut arr = vec![7];
    let mut step = 0usize;
    assert!(!insertion_sort_step(&mut arr, &mut step));
    assert_eq!(step, 1);
    assert!(insertion_sort_step(&mut arr, &mut step));
    assert_eq!(step, 1);
    assert_eq!(arr, vec![7]);
}

#[test]
fn steps_on_the_empty_sequence_are_done_at_once() {
    let mut arr: Vec<i32> = Vec::new();
    let mut step = 0usize;
    assert!(insertion_sort_step(&mut arr, &mut step));
    assert_eq!(step, 0);
    assert!(selection_sort_step(&mut arr, &mut step));
    assert_eq!(step, 0);
    assert!(bubble_sort_step(&mut arr));
    assert_eq!(arr, Vec::<i32>::new());

    let mut session = SortingVisualizer::new(0);
    assert!(session.insertion_sort_step());
    assert!(session.selection_sort_step());
    assert!(session.bubble_sort_step());
    assert_eq!(session.get_data(), Vec::<i32>::new());
}

#[test]
fn selection_step_of_a_single_item_is_done() {
    let mut arr = vec![7];
    let mut step = 0usize;
    assert!(selection_sort_step(&mut arr, &mut step));
    assert_eq!(step, 1);
    assert_eq!(arr, vec![7]);
}

#[test]
fn insertion_steps_equal_the_whole_run() {
    for n in 0..=7 {
        for input in permutations(n) {
            let mut whole = input.clone();
            insertion_sort(&mut whole);

            let mut stepped = input.clone();
            let mut step = 0usize;
            let mut calls = 0;
            while !insertion_sort_step(&mut stepped, &mut step) {
                calls += 1;
                assert!(calls <= 8, "no end on {:?}", input);
            }
            assert_eq!(stepped, whole, "input {:?}", input);
        }
    }
}

#[test]
fn selection_steps_equal_the_whole_run() {
    for n in 0..=7 {
        for input in permutations(n) {
            let mut whole = input.clone();
            selection_sort(&mut whole);

            let mut stepped = input.clone();
            let mut step = 0usize;
            let mut calls = 0;
            while !selection_sort_step(&mut stepped, &mut step) {
                calls += 1;
                assert!(calls <= 8, "no end on {:?}", input);
            }
            assert_eq!(stepped, whole, "input {:?}", input);
        }
    }
}

#[test]
fn session_steps_equal_the_whole_run() {
    let input = vec![6, 3, 8, 1, 1, 9, 2];

    let mut whole = SortingVisualizer::from_data(input.clone());
    whole.insertion_sort();
    let mut stepped = SortingVisualizer::from_data(input.clone());
    while !stepped.insertion_sort_step() {}
    assert_eq!(stepped.get_data(), whole.get_data());

    let mut whole = SortingVisualizer::from_data(input.clone());
    whole.selection_sort();
    let mut stepped = SortingVisualizer::from_data(input.clone());
    while !stepped.selection_sort_step() {}
    assert_eq!(stepped.get_data(), whole.get_data());
    assert_eq!(stepped.get_data(), vec![1, 1, 2, 3, 6, 8, 9]);
}

#[test]
fn insertion_step_after_completion_changes_nothing() {
    let mut arr = vec![3, 1, 2];
    let mut step = 0usize;
    while !insertion_sort_step(&mut arr, &mut step) {}
    assert_eq!(arr, vec![1, 2, 3]);
    let cursor = step;
    // disturb nothing, step again
    for _ in 0..3 {
        assert!(insertion_sort_step(&mut arr, &mut step));
        assert_eq!(arr, vec![1, 2, 3]);
        assert_eq!(step, cursor);
    }
}

#[test]
fn selection_step_after_completion_changes_nothing() {
    let mut arr = vec![3, 1, 2];
    let mut step = 0usize;
    while !selection_sort_step(&mut arr, &mut step) {}
    assert_eq!(arr, vec![1, 2, 3]);
    let cursor = step;
    for _ in 0..3 {
        assert!(selection_sort_step(&mut arr, &mut step));
        assert_eq!(arr, vec![1, 2, 3]);
        assert_eq!(step, cursor);
    }
}

#[test]
fn steps_after_completion_do_not_start_again() {
    // a step beyond the end must not touch a sequence that is out of order
    let mut arr = vec![3, 1, 2];
    let mut step = 3usize;
    assert!(insertion_sort_step(&mut arr, &mut step));
    assert_eq!((arr.clone(), step), (vec![3, 1, 2], 3));
    assert!(selection_sort_step(&mut arr, &mut step));
    assert_eq!((arr.clone(), step), (vec![3, 1, 2], 3));
    let mut far = 10usize;
    assert!(insertion_sort_step(&mut arr, &mut far));
    assert!(selection_sort_step(&mut arr, &mut far));
    assert_eq!((arr, far), (vec![3, 1, 2], 10));
}

#[test]
fn session_steps_after_completion_change_nothing() {
    let mut session = SortingVisualizer::from_data(vec![2, 3, 1]);
    while !session.selection_sort_step() {}
    assert!(session.selection_sort_step());
    assert!(session.selection_sort_step());
    assert_eq!(session.get_data(), vec![1, 2, 3]);

    let mut session = SortingVisualizer::from_data(vec![2, 3, 1]);
    while !session.insertion_sort_step() {}
    assert!(session.insertion_sort_step());
    assert!(session.insertion_sort_step());
    assert_eq!(session.get_data(), vec![1, 2, 3]);
}

#[test]
fn the_two_cursors_are_independent() {
    let mut session = SortingVisualizer::from_data(vec![3, 2, 1]);
    assert!(!session.selection_sort_step());
    assert_eq!(session.get_data(), vec![1, 2, 3]);
    // the insertion cursor is still at zero: its first step only starts
    assert!(!session.insertion_sort_step());
    assert!(!session.insertion_sort_step());
    assert!(session.insertion_sort_step());
    assert!(!session.selection_sort_step());
    assert!(session.selection_sort_step());
}

#[test]
fn bubble_pass_moves_the_greatest_item_last() {
    let mut arr = vec![5, 1, 4, 2, 3];
    assert!(!bubble_sort_step(&mut arr));
    assert_eq!(arr, vec![1, 4, 2, 3, 5]);
    assert!(!bubble_sort_step(&mut arr));
    assert_eq!(arr, vec![1, 2, 3, 4, 5]);
    assert!(bubble_sort_step(&mut arr));
    assert_eq!(arr, vec![1, 2, 3, 4, 5]);
}

#[test]
fn bubble_pass_on_a_sorted_sequence_is_done() {
    let mut arr = vec![1, 2, 2, 3];
    assert!(bubble_sort_step(&mut arr));
    assert_eq!(arr, vec![1, 2, 2, 3]);
}

#[test]
fn bubble_pass_on_a_single_item_is_done() {
    let mut arr = vec![1];
    assert!(bubble_sort_step(&mut arr));
    assert_eq!(arr, vec![1]);
}

#[test]
fn bubble_passes_sort_every_permutation() {
    for n in 0..=7 {
        let expected: Vec<i32> = (1..=n).collect();
        for input in permutations(n) {
            let mut arr = input.clone();
            let mut passes = 0;
            while !bubble_sort_step(&mut arr) {
                passes += 1;
                assert!(passes <= n, "no end on {:?}", input);
            }
            assert_eq!(arr, expected, "input {:?}", input);
        }
    }
}

#[test]
fn session_bubble_passes() {
    let mut session = SortingVisualizer::from_data(vec![2, 1, 3]);
    assert!(!session.bubble_sort_step());
    assert_eq!(session.get_data(), vec![1, 2, 3]);
    assert!(session.bubble_sort_step());
    assert_eq!(session.get_data(), vec![1, 2, 3]);
}
