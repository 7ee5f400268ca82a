use my_algo::priority_queue::complete_heap::CompleteMaxHeap;
use my_algo::priority_queue::left_heap::LeftHeap;
use my_algo::vec::MyVec;

#[test]
fn left_heap_delete_max_in_order() {
    let mut heap = LeftHeap::from(MyVec::from_vec(vec![5i64, -3, 9, 0, 9, 2]));
    assert_eq!(heap.len(), 6);
    assert_eq!(heap.get_max(), Some(&9));
    let mut out = Vec::new();
    while let Some(x) = heap.delete_max() {
        out.push(x);
    }
    assert_eq!(out, vec![9, 9, 5, 2, 0, -3]);
    assert!(heap.is_empty());
    assert_eq!(heap.get_max(), None);
}

#[test]
fn left_heap_merge() {
    let mut a = LeftHeap::from(MyVec::from_vec(vec![1u64, 7, 3]));
    let b = LeftHeap::from(MyVec::from_vec(vec![8u64, 2]));
    a.merge(b);
    assert_eq!(a.len(), 5);
    a.insert(4);
    let mut out = Vec::new();
    while let Some(x) = a.delete_max() {
        out.push(x);
    }
    assert_eq!(out, vec![8, 7, 4, 3, 2, 1]);
}

#[test]
fn complete_heap_sort_and_max() {
    let sorted = CompleteMaxHeap::sort(MyVec::from_vec(vec![4i64, 1, 3, 9, 7]));
    assert_eq!(sorted.into_vec(), vec![1, 3, 4, 7, 9]);
    let mut heap = CompleteMaxHeap::from(MyVec::from_vec(vec![2u64, 8, 5]));
    assert_eq!(heap.get_max(), Some(&8));
    heap.insert(10);
    assert_eq!(heap.delete_max(), Some(10));
    assert_eq!(heap.delete_max(), Some(8));
    assert_eq!(heap.len(), 2);
}
