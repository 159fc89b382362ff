use algos::binary_search::{binary_search, binary_search_rec};
use algos::bubble_sort::bubble_sort;
use algos::heap_sort::heap_sort;
use algos::insertion_sort::{insertion_sort, insertion_sort_binary_search};
use algos::merge_sort::merge_sort;
use algos::quick_sort::quick_sort;
use algos::selection_sort::selection_sort;
use algos::shell_sort::shell_sort;
use algos::test_counter::test_is_sorted;

#[test]
fn bubble_sort_sorts_a_mixed_vector() {
    let mut v = vec![5, -2, 9, 0, 9, 3, -7];
    bubble_sort(&mut v);
    assert_eq!(v, vec![-7, -2, 0, 3, 5, 9, 9]);
}

#[test]
fn bubble_sort_handles_trivial_inputs() {
    let mut empty: Vec<i32> = vec![];
    bubble_sort(&mut empty);
    assert_eq!(empty, Vec::<i32>::new());

    let mut one = vec![42];
    bubble_sort(&mut one);
    assert_eq!(one, vec![42]);
}

#[test]
fn insertion_sort_sorts_a_mixed_vector() {
    let mut v = vec![31, 4, 1, 5, 9, 2, 6, 5, 3, 5];
    insertion_sort(&mut v);
    assert_eq!(v, vec![1, 2, 3, 4, 5, 5, 5, 6, 9, 31]);
}

#[test]
fn insertion_sort_binary_search_matches_plain_insertion() {
    let mut v = vec![8, 1, -3, 10, 1, 0];
    insertion_sort_binary_search(&mut v);
    assert_eq!(v, vec![-3, 0, 1, 1, 8, 10]);
}

#[test]
fn selection_sort_sorts_a_mixed_vector() {
    let mut v = vec![64, 25, 12, 22, 11];
    selection_sort(&mut v);
    assert_eq!(v, vec![11, 12, 22, 25, 64]);
}

#[test]
fn shell_sort_sorts_a_mixed_vector() {
    let mut v = vec![35, 33, 42, 10, 14, 19, 27, 44, 26, 31];
    shell_sort(&mut v);
    assert_eq!(v, vec![10, 14, 19, 26, 27, 31, 33, 35, 42, 44]);
}

#[test]
fn quick_sort_sorts_a_mixed_vector() {
    let mut v = vec![10, 80, 30, 90, 40, 50, 70];
    quick_sort(&mut v);
    assert_eq!(v, vec![10, 30, 40, 50, 70, 80, 90]);
}

#[test]
fn quick_sort_handles_duplicates_and_reversed_input() {
    let mut v = vec![5, 5, 5, 5];
    quick_sort(&mut v);
    assert_eq!(v, vec![5, 5, 5, 5]);

    let mut r = vec![9, 8, 7, 6, 5, 4, 3, 2, 1];
    quick_sort(&mut r);
    assert_eq!(r, vec![1, 2, 3, 4, 5, 6, 7, 8, 9]);
}

#[test]
fn heap_sort_sorts_a_mixed_vector() {
    let mut v = vec![4, 10, 3, 5, 1, 1, -8, 0];
    heap_sort(&mut v);
    assert_eq!(v, vec![-8, 0, 1, 1, 3, 4, 5, 10]);
}

#[test]
fn heap_sort_handles_trivial_inputs() {
    let mut empty: Vec<i32> = vec![];
    heap_sort(&mut empty);
    assert_eq!(empty, Vec::<i32>::new());

    let mut one = vec![3];
    heap_sort(&mut one);
    assert_eq!(one, vec![3]);
}

#[test]
fn merge_sort_sorts_a_mixed_vector() {
    let mut v = vec![38, 27, 43, 3, 9, 82, 10];
    merge_sort(&mut v);
    assert_eq!(v, vec![3, 9, 10, 27, 38, 43, 82]);
}

#[test]
fn merge_sort_handles_trivial_inputs() {
    let mut empty: Vec<i32> = vec![];
    merge_sort(&mut empty);
    assert_eq!(empty, Vec::<i32>::new());

    let mut two = vec![2, 1];
    merge_sort(&mut two);
    assert_eq!(two, vec![1, 2]);
}

#[test]
fn test_is_sorted_answers_both_ways() {
    assert!(test_is_sorted(&vec![]));
    assert!(test_is_sorted(&vec![7]));
    assert!(test_is_sorted(&vec![1, 2, 2, 3]));
    assert!(!test_is_sorted(&vec![1, 3, 2]));
    assert!(!test_is_sorted(&vec![2, 1]));
}

#[test]
fn binary_search_finds_present_and_rejects_absent() {
    let arr = vec![1, 3, 5, 7, 9, 11];
    assert_eq!(binary_search(&7, &arr), Some(3));
    assert_eq!(binary_search(&1, &arr), Some(0));
    assert_eq!(binary_search(&11, &arr), Some(5));
    assert_eq!(binary_search(&4, &arr), None);
    assert_eq!(binary_search(&0, &arr), None);
    assert_eq!(binary_search(&12, &arr), None);
    let empty: Vec<i32> = vec![];
    assert_eq!(binary_search(&5, &empty), None);
}

#[test]
fn binary_search_rec_respects_the_window() {
    let arr = vec![2, 4, 6, 8, 10];
    assert_eq!(binary_search_rec(&arr, &6, &0, &5), Some(2));
    assert_eq!(binary_search_rec(&arr, &2, &1, &5), None);
    assert_eq!(binary_search_rec(&arr, &10, &0, &4), None);
    assert_eq!(binary_search_rec(&arr, &7, &0, &5), None);
    assert_eq!(binary_search_rec(&arr, &4, &0, &0), None);
}
