use sorting_visualizer::sorting::heap_sort::heap_sort;
use sorting_visualizer::sorting::insertion_sort::insertion_sort;
use sorting_visualizer::sorting::merge_sort::merge_sort;
use sorting_visualizer::sorting::quick_sort::quick_sort;
use sorting_visualizer::sorting::selection_sort::selection_sort;
use sorting_visualizer::sorting::shell_sort::shell_sort;
use sorting_visualizer::SortingVisualizer;

fn quick(arr: &mut Vec<i32>) {
    let len = arr.len();
    if len > 0 {
        quick_sort(arr, 0, len - 1);
    }
}

fn algorithms() -> Vec<(&'static str, fn(&mut Vec<i32>))> {
    vec![
        ("quick", quick as fn(&mut Vec<i32>)),
        ("merge", merge_sort as fn(&mut Vec<i32>)),
        ("heap", heap_sort as fn(&mut Vec<i32>)),
        ("insertion", insertion_sort as fn(&mut Vec<i32>)),
        ("selection", selection_sort as fn(&mut Vec<i32>)),
        ("shell", shell_sort as fn(&mut Vec<i32>)),
    ]
}

fn extend_permutations(prefix: &mut Vec<i32>, rest: &mut Vec<i32>, out: &mut Vec<Vec<i32>>) {
    if rest.is_empty() {
        out.push(prefix.clone());
        return;
    }
    for k in 0..rest.len() {
        let item = rest.remove(k);
        prefix.push(item);
        extend_permutations(prefix, rest, out);
        prefix.pop();
        rest.insert(k, item);
    }
}

fn permutations(n: i32) -> Vec<Vec<i32>> {
    let mut out = Vec::new();
    let mut rest: Vec<i32> = (1..=n).collect();
    extend_permutations(&mut Vec::new(), &mut rest, &mut out);
    out
}

fn check_every_permutation(sort: fn(&mut Vec<i32>)) {
    for n in 0..=8 {
        let expected: Vec<i32> = (1..=n).collect();
        for input in permutations(n) {
            let mut arr = input.clone();
            sort(&mut arr);
            assert_eq!(arr, expected, "input {:?}", input);
        }
    }
}

#[test]
fn quick_sort_sorts_every_permutation() {
    check_every_permutation(quick);
}

#[test]
fn merge_sort_sorts_every_permutation() {
    check_every_permutation(merge_sort);
}

#[test]
fn heap_sort_sorts_every_permutation() {
    check_every_permutation(heap_sort);
}

#[test]
fn insertion_sort_sorts_every_permutation() {
    check_every_permutation(insertion_sort);
}

#[test]
fn selection_sort_sorts_every_permutation() {
    check_every_permutation(selection_sort);
}

#[test]
fn shell_sort_sorts_every_permutation() {
    check_every_permutation(shell_sort);
}

#[test]
fn every_sort_accepts_the_empty_sequence() {
    for (name, sort) in algorithms() {
        let mut arr: Vec<i32> = Vec::new();
        sort(&mut arr);
        assert_eq!(arr, Vec::<i32>::new(), "{}", name);
    }
}

#[test]
fn every_sort_accepts_a_single_item() {
    for (name, sort) in algorithms() {
        let mut arr = vec![42];
        sort(&mut arr);
        assert_eq!(arr, vec![42], "{}", name);
    }
}

#[test]
fn every_sort_keeps_a_sorted_sequence() {
    for (name, sort) in algorithms() {
        let mut arr = vec![1, 2, 3, 4, 5, 6, 7, 8, 9, 10];
        sort(&mut arr);
        assert_eq!(arr, vec![1, 2, 3, 4, 5, 6, 7, 8, 9, 10], "{}", name);
    }
}

#[test]
fn every_sort_turns_a_reversed_sequence() {
    for (name, sort) in algorithms() {
        let mut arr = vec![10, 9, 8, 7, 6, 5, 4, 3, 2, 1];
        sort(&mut arr);
        assert_eq!(arr, vec![1, 2, 3, 4, 5, 6, 7, 8, 9, 10], "{}", name);
    }
}

#[test]
fn every_sort_keeps_equal_items() {
    for (name, sort) in algorithms() {
        let mut arr = vec![7, 7, 7, 7, 7];
        sort(&mut arr);
        assert_eq!(arr, vec![7, 7, 7, 7, 7], "{}", name);
    }
}

#[test]
fn every_sort_handles_duplicates_and_negatives() {
    for (name, sort) in algorithms() {
        let mut arr = vec![3, -1, 3, 0, i32::MAX, -1, i32::MIN, 2, 0];
        sort(&mut arr);
        assert_eq!(arr, vec![i32::MIN, -1, -1, 0, 0, 2, 3, 3, i32::MAX], "{}", name);
    }
}

#[test]
fn every_sort_agrees_with_the_standard_sort() {
    // a fixed, scrambled input of 257 items with many repeats
    let mut input: Vec<i32> = Vec::new();
    let mut x: i64 = 12345;
    for _ in 0..257 {
        x = (x * 1103515245 + 12345) % 2147483648;
        input.push((x % 61) as i32 - 30);
    }
    let mut expected = input.clone();
    expected.sort();
    for (name, sort) in algorithms() {
        let mut arr = input.clone();
        sort(&mut arr);
        assert_eq!(arr, expected, "{}", name);
    }
}

#[test]
fn sorting_twice_is_sorting_once() {
    for (name, sort) in algorithms() {
        for input in permutations(6) {
            let mut once = input.clone();
            sort(&mut once);
            let mut twice = once.clone();
            sort(&mut twice);
            assert_eq!(twice, once, "{} on {:?}", name, input);
        }
    }
}

#[test]
fn session_quick_sort_of_reversed_five() {
    let mut session = SortingVisualizer::from_data(vec![5, 4, 3, 2, 1]);
    session.quick_sort();
    assert_eq!(session.get_data(), vec![1, 2, 3, 4, 5]);
}

#[test]
fn session_sorts_every_permutation_of_five() {
    for input in permutations(5) {
        let expected = vec![1, 2, 3, 4, 5];

        let mut session = SortingVisualizer::from_data(input.clone());
        session.quick_sort();
        assert_eq!(session.get_data(), expected);

        let mut session = SortingVisualizer::from_data(input.clone());
        session.merge_sort();
        assert_eq!(session.get_data(), expected);

        let mut session = SortingVisualizer::from_data(input.clone());
        session.heap_sort();
        assert_eq!(session.get_data(), expected);

        let mut session = SortingVisualizer::from_data(input.clone());
        session.insertion_sort();
        assert_eq!(session.get_data(), expected);

        let mut session = SortingVisualizer::from_data(input.clone());
        session.selection_sort();
        assert_eq!(session.get_data(), expected);

        let mut session = SortingVisualizer::from_data(input.clone());
        session.shell_sort();
        assert_eq!(session.get_data(), expected);
    }
}

#[test]
fn session_sorts_the_empty_sequence() {
    let mut session = SortingVisualizer::new(0);
    session.quick_sort();
    session.merge_sort();
    session.heap_sort();
    session.insertion_sort();
    session.selection_sort();
    session.shell_sort();
    assert_eq!(session.get_data(), Vec::<i32>::new());
}

#[test]
fn session_sort_twice_is_sort_once() {
    let mut session = SortingVisualizer::from_data(vec![4, 1, 3, 1, 5, 9, 2, 6]);
    session.heap_sort();
    let once = session.get_data();
    session.heap_sort();
    assert_eq!(session.get_data(), once);
    assert_eq!(once, vec![1, 1, 2, 3, 4, 5, 6, 9]);
}
