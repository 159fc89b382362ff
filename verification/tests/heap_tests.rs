use algos::heap::{MaxHeap, MinHeap};

#[test]
fn test_empty_heap() {
    let mut heap = MaxHeap::new::<i32>();
    assert_eq!(heap.pop(), None);
}

#[test]
fn test_min_heap() {
    let mut heap = MinHeap::new();
    heap.add(4);
    heap.add(2);
    heap.add(9);
    heap.add(11);
    assert_eq!(heap.len(), 4);
    assert_eq!(heap.pop(), Some(2));
    assert_eq!(heap.pop(), Some(4));
    assert_eq!(heap.pop(), Some(9));
    heap.add(1);
    assert_eq!(heap.pop(), Some(1));
}

#[test]
fn test_max_heap() {
    let mut heap = MaxHeap::new();
    heap.add(4);
    heap.add(2);
    heap.add(9);
    heap.add(11);
    assert_eq!(heap.len(), 4);
    assert_eq!(heap.pop(), Some(11));
    assert_eq!(heap.pop(), Some(9));
    assert_eq!(heap.pop(), Some(4));
    heap.add(1);
    assert_eq!(heap.pop(), Some(2));
}

#[test]
fn min_heap_drains_in_non_decreasing_order() {
    let mut heap = MinHeap::new();
    for x in [31i32, -4, 17, 0, 17, -4, 92, 8, 55, 1] {
        heap.add(x);
    }
    let mut drained = Vec::new();
    while !heap.is_empty() {
        drained.push(heap.pop().unwrap());
    }
    assert_eq!(drained, vec![-4, -4, 0, 1, 8, 17, 17, 31, 55, 92]);
}

#[test]
fn max_heap_drains_in_non_increasing_order() {
    let mut heap = MaxHeap::new();
    for x in [5i32, 3, 8, 3, 7] {
        heap.add(x);
    }
    let mut drained = Vec::new();
    while !heap.is_empty() {
        drained.push(heap.pop().unwrap());
    }
    assert_eq!(drained, vec![8, 7, 5, 3, 3]);
}

#[test]
fn heap_len_tracks_adds_and_pops() {
    let mut heap = MinHeap::new();
    assert!(heap.is_empty());
    heap.add(10u64);
    heap.add(20u64);
    assert_eq!(heap.len(), 2);
    assert!(!heap.is_empty());
    heap.pop();
    assert_eq!(heap.len(), 1);
    heap.pop();
    assert!(heap.is_empty());
    assert_eq!(heap.pop(), None);
}
