//! The sorting algorithms, one module each. Every algorithm works in place
//! on a `Vec<i32>` and is independent of the others.

pub mod bubble_sort;
pub mod heap_sort;
pub mod insertion_sort;
pub mod merge_sort;
pub mod quick_sort;
pub mod selection_sort;
pub mod shell_sort;
