use algorithms::binary_search::binary_search;
use algorithms::binary_search::binary_search2;
use algorithms::linear_search::linear_search;

#[test]
fn binary_search_test_binary_search() {
    let arr = [1, 2, 3, 4, 5];
    assert_eq!(binary_search(&arr, &5), Some(4));
    assert_eq!(binary_search(&arr, &6), None);
}

#[test]
fn test_linear_search() {
    let arr = [1, 5, 2, 4, 3];
    assert_eq!(linear_search(&arr, &5), Some(1));
    assert_eq!(linear_search(&arr, &6), None);
}

#[test]
fn binary_search2_reports_insertion_point() {
    let arr = [1, 3, 5, 7];
    assert_eq!(binary_search2(&arr, 5), Ok(2));
    assert_eq!(binary_search2(&arr, 0), Err(0));
    assert_eq!(binary_search2(&arr, 4), Err(2));
    assert_eq!(binary_search2(&arr, 9), Err(4));
}

#[test]
fn searches_handle_empty_input() {
    let arr: [i32; 0] = [];
    assert_eq!(binary_search(&arr, &1), None);
    assert_eq!(binary_search2(&arr, 1), Err(0));
    assert_eq!(linear_search(&arr, &1), None);
}
