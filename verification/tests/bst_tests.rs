use algos::binary_search_tree::{BinarySearchTree, BinarySearchTreeIter};

#[test]
fn bst_search_finds_inserted_values() {
    let mut tree = BinarySearchTree::new();
    assert!(!tree.search(&5));
    tree.insert(5);
    tree.insert(3);
    tree.insert(8);
    tree.insert(3);
    assert!(tree.search(&5));
    assert!(tree.search(&3));
    assert!(tree.search(&8));
    assert!(!tree.search(&4));
    assert!(!tree.search(&9));
}

#[test]
fn bst_iter_reads_out_in_order_with_duplicates() {
    let mut tree = BinarySearchTree::new();
    for x in [7, 2, 9, 2, 5, 7, 1] {
        tree.insert(x);
    }
    assert_eq!(tree.iter(), vec![1, 2, 2, 5, 7, 7, 9]);
}

#[test]
fn bst_minimum_and_maximum() {
    let mut tree = BinarySearchTree::new();
    assert_eq!(tree.minimum(), None);
    assert_eq!(tree.maximum(), None);
    tree.insert(4);
    tree.insert(-2);
    tree.insert(11);
    tree.insert(0);
    assert_eq!(tree.minimum(), Some(-2));
    assert_eq!(tree.maximum(), Some(11));
}

#[test]
fn bst_floor_and_ceil() {
    let mut tree = BinarySearchTree::new();
    for x in [10, 4, 16, 2, 7, 13, 20] {
        tree.insert(x);
    }
    assert_eq!(tree.floor(&8), Some(7));
    assert_eq!(tree.floor(&7), Some(7));
    assert_eq!(tree.floor(&1), None);
    assert_eq!(tree.floor(&100), Some(20));
    assert_eq!(tree.ceil(&8), Some(10));
    assert_eq!(tree.ceil(&13), Some(13));
    assert_eq!(tree.ceil(&21), None);
    assert_eq!(tree.ceil(&-5), Some(2));
}

#[test]
fn bst_iterator_steps_through_in_order() {
    let mut tree = BinarySearchTree::new();
    for x in [3, 1, 4, 1, 5] {
        tree.insert(x);
    }
    let mut it = BinarySearchTreeIter::new(&tree);
    let mut collected = Vec::new();
    while let Some(v) = it.next() {
        collected.push(v);
    }
    assert_eq!(collected, vec![1, 1, 3, 4, 5]);
    assert_eq!(it.next(), None);
}

#[test]
fn bst_default_is_empty() {
    let tree = BinarySearchTree::default();
    assert!(!tree.search(&0));
    assert_eq!(tree.iter(), Vec::<i32>::new());
}
