use algokit::sorting::insertion_sort::insertion_sort;

#[test]
fn insertion_sort_already_sorted() {
    let mut arr = vec![1, 2, 3, 4, 5];
    let expected = vec![1, 2, 3, 4, 5];
    let res = insertion_sort(&mut arr);
    assert_eq!(res, expected);
}

#[test]
fn insertion_sort_reverse_sorted() {
    let mut arr = vec![5, 4, 3, 2, 1];
    let expected = vec![1, 2, 3, 4, 5];
    let res = insertion_sort(&mut arr);
    assert_eq!(res, expected);
}

#[test]
fn insertion_sort_random_sorted() {
    let mut arr = vec![3, 5, 1, 4, 2];
    let expected = vec![1, 2, 3, 4, 5];
    let res = insertion_sort(&mut arr);
    assert_eq!(res, expected);
}

#[test]
fn insertion_sort_duplicate_elements() {
    let mut arr = vec![3, 5, 1, 5, 4, 2];
    let expected = vec![1, 2, 3, 4, 5, 5];
    let res = insertion_sort(&mut arr);
    assert_eq!(res, expected);
}

#[test]
fn insertion_sort_edge_case_empty() {
    let mut arr: Vec<i32> = vec![];
    let expected = vec![];
    let res = insertion_sort(&mut arr);
    assert_eq!(res, expected);
}

#[test]
fn insertion_sort_edge_case_single_element() {
    let mut arr = vec![1];
    let expected = vec![1];
    let res = insertion_sort(&mut arr);
    assert_eq!(res, expected);
}

#[test]
fn insertion_sort_sorts_the_slice_it_was_given() {
    let mut arr = vec![9, -4, 0, 7, -4, 3];
    insertion_sort(&mut arr);
    assert_eq!(arr, vec![-4, -4, 0, 3, 7, 9]);
}
