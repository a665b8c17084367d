use algokit::misc::maximum_subarray::{
    brute_force_find_maximum_subarray, divide_conquer_find_maximum_subarray,
    linear_find_maximum_subarray,
};

#[test]
fn test_brute_force_max_subarray() {
    let arr = [-2, 1, -3, 4, -1, 2, 1, -5];
    let (start, end, sum) = brute_force_find_maximum_subarray(&arr);
    assert_eq!(start, 3);
    assert_eq!(end, 6);
    assert_eq!(sum, 6);
}

#[test]
fn test_linear_find_maximum_subarray() {
    let arr = [-2, 1, -3, 4, -1, 2, 1, -5];
    let (start, end, sum) = linear_find_maximum_subarray(&arr);
    assert_eq!(start, 3);
    assert_eq!(end, 6);
    assert_eq!(sum, 6);
}

#[test]
fn brute_force_takes_the_first_run_with_the_greatest_sum() {
    let arr = [3, -5, 1, 2, -9, 3];
    assert_eq!(brute_force_find_maximum_subarray(&arr), (0, 0, 3));
    let arr = [0, 0];
    assert_eq!(brute_force_find_maximum_subarray(&arr), (0, 0, 0));
}

#[test]
fn searches_on_an_empty_slice() {
    let arr: [i32; 0] = [];
    assert_eq!(brute_force_find_maximum_subarray(&arr), (0, 0, i32::MIN));
    assert_eq!(linear_find_maximum_subarray(&arr), (0, 0, i32::MIN));
}

#[test]
fn linear_search_restarts_after_a_negative_running_sum() {
    let arr = [-1, 5, -10, 2];
    assert_eq!(linear_find_maximum_subarray(&arr), (3, 1, 5));
    let arr = [5, -10];
    assert_eq!(linear_find_maximum_subarray(&arr), (2, 0, 5));
    let arr = [-3, -1, -2];
    assert_eq!(linear_find_maximum_subarray(&arr), (3, 1, -1));
}

#[test]
fn test_max_subarray_crossing_midpoint() {
    let arr = [-2, 1, -3, 4, -1, 2, 1, -5];
    let (sum, start, end) = divide_conquer_find_maximum_subarray(&arr);
    assert_eq!(end, 6);
    assert_eq!(start, 3);
    assert_eq!(sum, 6);
}

#[test]
fn test_max_subarray_left_half() {
    let arr = [1, 1, 1, 1, 0, 0, 0, 0, 0];
    let (sum, start, end) = divide_conquer_find_maximum_subarray(&arr);
    assert_eq!(end, 3);
    assert_eq!(start, 0);
    assert_eq!(sum, 4);
}

#[test]
fn test_max_subarray_right_half() {
    let arr = [0, 0, 0, 0, 0, 1, 1, 1, 1];
    let (sum, start, end) = divide_conquer_find_maximum_subarray(&arr);
    assert_eq!(start, 5);
    assert_eq!(end, 8);
    assert_eq!(sum, 4);
}

#[test]
fn test_max_subarray_with_one_element() {
    let arr = [1];
    let (sum, start, end) = divide_conquer_find_maximum_subarray(&arr);
    assert_eq!(end, 0);
    assert_eq!(start, 0);
    assert_eq!(sum, 1);
}

#[test]
fn divide_and_conquer_prefers_left_on_a_tie() {
    let arr = [2, -5, 2];
    assert_eq!(divide_conquer_find_maximum_subarray(&arr), (2, 0, 0));
    let arr = [-7, 3, -7, 3];
    assert_eq!(divide_conquer_find_maximum_subarray(&arr), (3, 1, 1));
}

#[test]
fn divide_and_conquer_on_negative_values() {
    let arr = [-3, -1, -2];
    assert_eq!(divide_conquer_find_maximum_subarray(&arr), (-1, 1, 1));
    let arr = [i32::MIN, 0];
    assert_eq!(divide_conquer_find_maximum_subarray(&arr), (0, 1, 1));
}

#[test]
fn the_three_searches_agree_on_the_sum() {
    let arr = [13, -3, -25, 20, -3, -16, -23, 18, 20, -7, 12, -5, -22, 15, -4, 7];
    assert_eq!(brute_force_find_maximum_subarray(&arr), (7, 10, 43));
    assert_eq!(linear_find_maximum_subarray(&arr), (7, 10, 43));
    assert_eq!(divide_conquer_find_maximum_subarray(&arr), (43, 7, 10));
}
