use algos::quick_select::quick_select;

#[test]
fn test_quickselect_basic() {
    let mut arr = vec![3, 6, 8, 2, 10, 1, 4];
    assert_eq!(quick_select(&mut arr, 2), Some(3));
}

#[test]
fn test_quickselect_single_element() {
    let mut arr = vec![7];
    assert_eq!(quick_select(&mut arr, 0), Some(7));
}

#[test]
fn test_quickselect_large_k() {
    let mut arr = vec![12, 3, 5, 7, 19, 1];
    assert_eq!(quick_select(&mut arr, 5), Some(19));
}

#[test]
fn test_quickselect_first_element() {
    let mut arr = vec![8, 3, 7, 6, 10, 9, 2];
    assert_eq!(quick_select(&mut arr, 0), Some(2));
}

#[test]
fn test_quickselect_last_element() {
    let mut arr = vec![15, 6, 2, 9, 11, 7];
    assert_eq!(quick_select(&mut arr, 5), Some(15));
}

#[test]
fn test_quickselect_duplicate_elements() {
    let mut arr = vec![5, 1, 5, 3, 7, 3, 5];
    assert_eq!(quick_select(&mut arr, 3), Some(5));
}

#[test]
fn quickselect_empty_input_yields_nothing() {
    let mut arr: Vec<i32> = vec![];
    assert_eq!(quick_select(&mut arr, 0), None);
}

#[test]
fn quickselect_keeps_the_elements() {
    let mut arr = vec![9, -1, 4, 4, 0];
    let r = quick_select(&mut arr, 1);
    assert_eq!(r, Some(0));
    let mut sorted_after = arr.clone();
    sorted_after.sort();
    assert_eq!(sorted_after, vec![-1, 0, 4, 4, 9]);
}
