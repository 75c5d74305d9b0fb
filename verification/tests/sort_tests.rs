use algos::bubble_sort::bubble_sort;
use algos::heap_sort::heap_sort;
use algos::merge_sort::merge_sort;
use algos::quick_sort::quick_sort;
use algos::radix_sort::{get_largest_place, get_value_at_unit, radix_sort, validate_sort};

#[test]
fn bubble_sort_primeagen_class_test() {
    let mut arr = vec![9, 3, 7, 4, 69, 420, 42];
    bubble_sort(&mut arr);
    assert_eq!(arr, vec![3, 4, 7, 9, 42, 69, 420]);
}

#[test]
fn bubble_sort_already_sorted_input() {
    let mut arr = vec![1, 2, 3, 4, 5];
    bubble_sort(&mut arr);
    assert_eq!(arr, vec![1, 2, 3, 4, 5]);
}

#[test]
fn bubble_sort_reverse_sorted_input() {
    let mut arr = vec![5, 4, 3, 2, 1];
    bubble_sort(&mut arr);
    assert_eq!(arr, vec![1, 2, 3, 4, 5]);
}

#[test]
fn bubble_sort_input_w_duplicate_elems() {
    let mut arr = vec![3, 1, 4, 1, 5, 9, 2, 6, 5];
    bubble_sort(&mut arr);
    assert_eq!(arr, vec![1, 1, 2, 3, 4, 5, 5, 6, 9]);
}

#[test]
fn bubble_sort_empty_input() {
    let mut arr: Vec<usize> = vec![];
    bubble_sort(&mut arr);
    assert_eq!(arr, Vec::<usize>::new());
}

#[test]
fn bubble_sort_input_w_one_elem() {
    let mut arr = vec![42];
    bubble_sort(&mut arr);
    assert_eq!(arr, vec![42]);
}

#[test]
fn test_merge_sort_unsorted() {
    let arr = vec![3, 2, 5, 1, 4];
    assert_eq!(merge_sort(arr), vec![1, 2, 3, 4, 5]);
}

#[test]
fn test_merge_sort_sorted() {
    let arr = vec![1, 2, 3, 4, 5];
    assert_eq!(merge_sort(arr), vec![1, 2, 3, 4, 5]);
}

#[test]
fn test_merge_sort_descending() {
    let arr = vec![5, 4, 3, 2, 1];
    assert_eq!(merge_sort(arr), vec![1, 2, 3, 4, 5]);
}

#[test]
fn test_merge_sort_empty() {
    let arr: Vec<i32> = Vec::new();
    assert_eq!(merge_sort(arr), Vec::<i32>::new());
}

#[test]
fn test_merge_sort_single_element() {
    let arr = vec![42];
    assert_eq!(merge_sort(arr), vec![42]);
}

#[test]
fn test_merge_sort_repeated_elements() {
    let arr = vec![9, 5, 7, 5, 2, 9, 7];
    assert_eq!(merge_sort(arr), vec![2, 5, 5, 7, 7, 9, 9]);
}

#[test]
fn quick_sort_primeagen_class_test() {
    let mut arr = vec![9, 3, 7, 4, 69, 420, 42];
    quick_sort(&mut arr);
    assert_eq!(arr, vec![3, 4, 7, 9, 42, 69, 420]);
}

#[test]
fn quick_sort_duplicates_and_negatively_skewed() {
    let mut arr = vec![5, 5, 1, 0, 5, 2, 2];
    quick_sort(&mut arr);
    assert_eq!(arr, vec![0, 1, 2, 2, 5, 5, 5]);
}

#[test]
fn heap_sort_mixed_input() {
    let mut arr: Vec<u64> = vec![9, 3, 7, 4, 69, 420, 42];
    heap_sort(&mut arr);
    assert_eq!(arr, vec![3, 4, 7, 9, 42, 69, 420]);
}

#[test]
fn heap_sort_empty_and_single() {
    let mut empty: Vec<u64> = vec![];
    heap_sort(&mut empty);
    assert_eq!(empty, Vec::<u64>::new());
    let mut one: Vec<u64> = vec![8];
    heap_sort(&mut one);
    assert_eq!(one, vec![8]);
}

#[test]
fn radix_sort_mixed_input() {
    let arr: Vec<u64> = vec![9, 3, 7, 4, 69, 420, 42];
    assert_eq!(radix_sort(arr), vec![3, 4, 7, 9, 42, 69, 420]);
}

#[test]
fn radix_sort_large_spread() {
    let arr: Vec<u64> = vec![1000000, 0, 999, 1, 10, 100000];
    assert_eq!(radix_sort(arr), vec![0, 1, 10, 999, 100000, 1000000]);
}

#[test]
fn radix_sort_empty() {
    let arr: Vec<u64> = vec![];
    assert_eq!(radix_sort(arr), Vec::<u64>::new());
}

#[test]
fn get_value_at_unit_picks_digits() {
    assert_eq!(get_value_at_unit(9307, 0), 7);
    assert_eq!(get_value_at_unit(9307, 1), 0);
    assert_eq!(get_value_at_unit(9307, 2), 3);
    assert_eq!(get_value_at_unit(9307, 3), 9);
    assert_eq!(get_value_at_unit(9307, 4), 0);
}

#[test]
fn get_largest_place_counts_top_digit() {
    assert_eq!(get_largest_place(&vec![5, 42, 900]), 2);
    assert_eq!(get_largest_place(&vec![7]), 0);
    assert_eq!(get_largest_place(&Vec::new()), 0);
}

#[test]
fn validate_sort_accepts_sorted() {
    assert!(validate_sort(&vec![1, 2, 2, 3]).is_ok());
    assert!(validate_sort(&Vec::new()).is_ok());
}

#[test]
fn validate_sort_rejects_unsorted() {
    assert_eq!(validate_sort(&vec![2, 1]), Err("The vector is not sorted"));
}
