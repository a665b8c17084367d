use algokit::searching::linear_search::linear_search;

#[test]
fn test_target_exist() {
    let arr = [1, 2, 3, 4, 5];
    let target = 3;
    let index = linear_search(&arr, target);
    assert_eq!(index, Some(2));
}

#[test]
fn test_target_dont_exist() {
    let arr = [1, 2, 3, 4, 5];
    let target = 9;
    let index = linear_search(&arr, target);
    assert_eq!(index, None);
}

#[test]
fn test_edge_case_empty() {
    let arr: Vec<i32> = vec![];
    let target = 0;
    let expected = None;
    let res = linear_search(&arr, target);
    assert_eq!(res, expected);
}

#[test]
fn linear_search_finds_first_of_several() {
    let arr = [4, 7, 7, 1, 7];
    assert_eq!(linear_search(&arr, 7), Some(1));
    assert_eq!(linear_search(&arr, 4), Some(0));
    assert_eq!(linear_search(&arr, 1), Some(3));
}
