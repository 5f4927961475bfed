use algos::heap::{Heap, MaxComparator, MaxHeap, MinComparator, MinHeap};

#[test]
fn test_empty_heap() {
    let mut heap = MaxHeap::new::<i32>();
    assert_eq!(heap.next(), None);
}

#[test]
fn test_min_heap() {
    let mut heap = MinHeap::new();
    heap.add(4);
    heap.add(2);
    heap.add(9);
    heap.add(11);
    assert_eq!(heap.len(), 4);
    assert_eq!(heap.next(), Some(2));
    assert_eq!(heap.next(), Some(4));
    assert_eq!(heap.next(), Some(9));
    heap.add(1);
    assert_eq!(heap.next(), Some(1));
}

#[test]
fn test_max_heap() {
    let mut heap = MaxHeap::new();
    heap.add(4);
    heap.add(2);
    heap.add(9);
    heap.add(11);
    assert_eq!(heap.len(), 4);
    assert_eq!(heap.next(), Some(11));
    assert_eq!(heap.next(), Some(9));
    assert_eq!(heap.next(), Some(4));
    heap.add(1);
    assert_eq!(heap.next(), Some(2));
}

#[test]
fn min_heap_drains_in_non_decreasing_order() {
    let mut heap: Heap<u64, MinComparator> = Heap::new_min();
    for v in [5u64, 3, 8, 1, 9, 2, 7, 4, 6, 0, 5, 3] {
        heap.add(v);
    }
    let mut drained = Vec::new();
    while let Some(v) = heap.next() {
        drained.push(v);
    }
    assert_eq!(drained, vec![0, 1, 2, 3, 3, 4, 5, 5, 6, 7, 8, 9]);
}

#[test]
fn max_heap_drains_in_non_increasing_order() {
    let mut heap: Heap<u64, MaxComparator> = Heap::new_max();
    for v in [5u64, 3, 8, 1, 9, 2, 7, 4, 6, 0] {
        heap.add(v);
    }
    let mut drained = Vec::new();
    while let Some(v) = heap.next() {
        drained.push(v);
    }
    assert_eq!(drained, vec![9, 8, 7, 6, 5, 4, 3, 2, 1, 0]);
}

#[test]
fn size_tracks_inserts_and_successful_extractions() {
    let mut heap = MinHeap::new::<i32>();
    assert_eq!(heap.len(), 0);
    assert!(heap.is_empty());
    heap.add(10);
    heap.add(20);
    heap.add(10);
    assert_eq!(heap.len(), 3);
    assert!(!heap.is_empty());
    assert_eq!(heap.next(), Some(10));
    assert_eq!(heap.len(), 2);
    assert_eq!(heap.next(), Some(10));
    assert_eq!(heap.next(), Some(20));
    assert_eq!(heap.len(), 0);
    assert!(heap.is_empty());
    // A failed extraction does not change the size.
    assert_eq!(heap.next(), None);
    assert_eq!(heap.len(), 0);
}

#[test]
fn exhausted_heap_keeps_signalling_empty() {
    let mut heap = MinHeap::new::<i32>();
    heap.add(7);
    assert_eq!(heap.next(), Some(7));
    assert_eq!(heap.next(), None);
    assert_eq!(heap.next(), None);
    assert_eq!(heap.next(), None);
    assert!(heap.is_empty());
    // The heap is still usable after exhaustion.
    heap.add(3);
    assert_eq!(heap.len(), 1);
    assert_eq!(heap.next(), Some(3));
}

#[test]
fn equal_priority_elements_all_come_out() {
    let mut heap = MaxHeap::new::<i32>();
    for _ in 0..5 {
        heap.add(42);
    }
    for _ in 0..5 {
        assert_eq!(heap.next(), Some(42));
    }
    assert_eq!(heap.next(), None);
}
