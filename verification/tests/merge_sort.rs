use algokit::sorting::merge_sort::bottom_up_merge_sort;

#[test]
fn merge_joins_two_sorted_runs() {
    let mut arr = vec![2, 4, 5, 7, 1, 2, 3, 6];
    let res = bottom_up_merge_sort(&mut arr, 0, 3, 7);
    assert_eq!(res, vec![1, 2, 2, 3, 4, 5, 6, 7]);
}

#[test]
fn merge_leaves_the_rest_of_the_slice() {
    let mut arr = vec![9, 3, 8, 1, 5, 0, -1];
    bottom_up_merge_sort(&mut arr, 1, 2, 4);
    assert_eq!(arr, vec![9, 1, 3, 5, 8, 0, -1]);
}

#[test]
fn merge_with_empty_right_run_changes_nothing() {
    let mut arr = vec![3, 1, 2];
    bottom_up_merge_sort(&mut arr, 0, 2, 2);
    assert_eq!(arr, vec![3, 1, 2]);
}

#[test]
fn merge_of_two_single_elements() {
    let mut arr = vec![5, 4];
    bottom_up_merge_sort(&mut arr, 0, 0, 1);
    assert_eq!(arr, vec![4, 5]);
}
