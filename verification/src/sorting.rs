//! In-place comparison sorts on slices and the merge step of a merge sort.

pub mod exchange;
pub mod insertion_sort;
pub mod merge_sort;
pub mod selection_sort;
