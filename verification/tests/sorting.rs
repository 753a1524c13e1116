use algorithms::bubble_sort::bubble_sort;
use algorithms::heap_sort::heap_sort;
use algorithms::merge_sort::merge_sort;
use algorithms::quick_sort::quick_sort;
use algorithms::selection_sort::selection_sort;

#[test]
fn bubble_sort_test_bubble_sort() {
    let mut arr = vec![1, 5, 2, 4, 3];
    bubble_sort(&mut arr);
    assert_eq!(arr, [1, 2, 3, 4, 5]);
}

#[test]
fn heap_sort_test_heap_sort() {
    let mut arr = [1, 5, 2, 4, 3];
    let sorted_arr = heap_sort(arr.to_vec());
    arr.sort();
    assert_eq!(sorted_arr, arr);
}

#[test]
fn merge_sort_test_merge_sort() {
    let mut arr = vec![1, 5, 2, 4, 3];
    merge_sort(&mut arr);
    assert_eq!(arr, [1, 2, 3, 4, 5]);
}

#[test]
fn test_quick_sort() {
    // test a larger number of elements
    let mut arr = vec![1, 5, 15, 4, 3, 9, 12, 6, 8, 7, 10, 11, 13, 2, 14, 16];
    println!("Before: {:?}", arr);
    quick_sort(&mut arr);
    println!("After: {:?}", arr);
    assert_eq!(arr, [1, 2, 3, 4, 5, 6, 7, 8, 9, 10, 11, 12, 13, 14, 15, 16]);
}

#[test]
fn test_selection_sort() {
    let mut arr = vec![1, 5, 2, 4, 3];
    selection_sort(&mut arr);
    assert_eq!(arr, [1, 2, 3, 4, 5]);
}

#[test]
fn sorts_accept_empty_and_single_element_input() {
    let mut empty: Vec<i32> = vec![];
    bubble_sort(&mut empty);
    assert_eq!(empty, [0i32; 0]);
    let mut empty: Vec<i32> = vec![];
    selection_sort(&mut empty);
    assert_eq!(empty, [0i32; 0]);
    let mut empty: Vec<i32> = vec![];
    merge_sort(&mut empty);
    assert_eq!(empty, [0i32; 0]);
    let mut empty: Vec<i32> = vec![];
    quick_sort(&mut empty);
    assert_eq!(empty, [0i32; 0]);
    assert_eq!(heap_sort(vec![]), [0i32; 0]);
    let mut one = vec![42];
    quick_sort(&mut one);
    assert_eq!(one, [42]);
}

#[test]
fn sorts_keep_duplicates() {
    let mut arr = vec![3, 1, 3, 2, 1];
    merge_sort(&mut arr);
    assert_eq!(arr, [1, 1, 2, 3, 3]);
    let mut arr = vec![3, 1, 3, 2, 1];
    quick_sort(&mut arr);
    assert_eq!(arr, [1, 1, 2, 3, 3]);
    let mut arr = vec![3, 1, 3, 2, 1];
    bubble_sort(&mut arr);
    assert_eq!(arr, [1, 1, 2, 3, 3]);
    assert_eq!(heap_sort(vec![3, 1, 3, 2, 1]), [1, 1, 2, 3, 3]);
}
