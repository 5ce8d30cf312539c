use std::time::SystemTime;

use graph_algorithms::binary_heap::{heapsort, BinaryHeap};

#[test]
fn basics() {
    let mut heap = BinaryHeap::new();

    assert_eq!(heap.len(), 0);
    heap.insert(5);
    assert_eq!(heap.len(), 1);
    heap.insert(3);
    assert_eq!(heap.len(), 2);
    heap.insert(7);
    assert_eq!(heap.len(), 3);
    heap.insert(6);
    assert_eq!(heap.len(), 4);
    heap.insert(0);
    assert_eq!(heap.len(), 5);
    assert_eq!(heap.extract_min(), 0);
    assert_eq!(heap.len(), 4);
    assert_eq!(heap.extract_min(), 3);
    assert_eq!(heap.len(), 3);
    assert_eq!(heap.extract_min(), 5);
    assert_eq!(heap.len(), 2);
    assert_eq!(heap.extract_min(), 6);
    assert_eq!(heap.len(), 1);
    assert_eq!(heap.extract_min(), 7);
    assert_eq!(heap.len(), 0);
    heap.insert(-15);
    assert_eq!(heap.len(), 1);
    heap.insert(3);
    assert_eq!(heap.len(), 2);
    heap.insert(3);
    assert_eq!(heap.len(), 3);
    heap.insert(8);
    assert_eq!(heap.len(), 4);
    heap.insert(-10);
    assert_eq!(heap.len(), 5);
    assert_eq!(heap.extract_min(), -15);
    assert_eq!(heap.len(), 4);
    assert_eq!(heap.extract_min(), -10);
    assert_eq!(heap.len(), 3);
    assert_eq!(heap.extract_min(), 3);
    assert_eq!(heap.len(), 2);
    assert_eq!(heap.extract_min(), 3);
    assert_eq!(heap.len(), 1);
    assert_eq!(heap.extract_min(), 8);
    assert_eq!(heap.len(), 0);
}

fn general_case(mut list: Vec<usize>, i: usize) {
    println!("> Test {}", i);
    println!("> ---- {:?}", list);

    let mut heap = BinaryHeap::from_slice(&list);

    list.sort();

    for j in 0..i {
        assert_eq!(heap.len(), i - j);
        assert_eq!(heap.min(), Some(&list[j]));
        assert_eq!(heap.extract_min(), list[j]);
    }

    let mut heap = BinaryHeap::from_slice(&list);

    for j in 0..i {
        assert_eq!(heap.len(), i - j);
        assert_eq!(heap.min(), Some(&list[j]));
        heap.remove(&list[j]);
    }

    let mut heap = BinaryHeap::from_slice(&list);

    for j in 0..i {
        assert_eq!(heap.len(), i - j);
        assert_eq!(heap.min(), Some(&list[0]));
        heap.remove(&list[i - 1 - j]);
    }

    assert_eq!(BinaryHeap::from_slice(&list).into_sorted_vec(), list);
}

#[test]
fn general() {
    for i in 0..250 {
        let list: Vec<usize> = (0..i).rev().collect();
        general_case(list, i);
        let list: Vec<usize> = (0..i).collect();
        general_case(list, i);
    }
}

#[test]
fn sorting() {
    for i in 0..1000 {
        let mut arr = Vec::with_capacity(i as usize);
        for _ in 0..i {
            arr.push(
                SystemTime::now()
                    .duration_since(SystemTime::UNIX_EPOCH)
                    .unwrap()
                    .as_nanos()
                    % 300,
            );
        }

        let mut real = arr.clone();
        let mut expected = arr;

        heapsort(&mut real);
        expected.sort();

        assert_eq!(real, expected);
    }
}

#[test]
fn empty_heap_has_no_min() {
    let heap: BinaryHeap<i32> = BinaryHeap::new();
    assert_eq!(heap.min(), None);
    assert_eq!(heap.len(), 0);
    assert_eq!(heap.into_sorted_vec(), Vec::<i32>::new());
}

#[test]
fn mixed_operations_keep_heap_order() {
    let mut heap = BinaryHeap::from_slice(&[9i64, -4, 7, 7, 0, 12, -4, 3]);
    heap.insert(5);
    heap.remove(&7);
    heap.remove(&100);
    assert_eq!(heap.extract_min(), -4);
    heap.insert(-8);
    heap.remove(&12);
    assert_eq!(heap.min(), Some(&-8));
    assert_eq!(heap.len(), 7);
    assert_eq!(heap.into_sorted_vec(), vec![-8, -4, 0, 3, 5, 7, 9]);
}

#[test]
fn removing_an_inner_item_that_must_move_up() {
    // removing 30 moves the last leaf (2) into a subtree whose parent is 10
    let mut heap = BinaryHeap::from_slice(&[1u32, 10, 30, 11, 12, 31, 32, 13, 14, 15, 16, 33, 2]);
    heap.remove(&30);
    assert_eq!(heap.extract_min(), 1);
    assert_eq!(heap.extract_min(), 2);
    assert_eq!(
        heap.into_sorted_vec(),
        vec![10, 11, 12, 13, 14, 15, 16, 31, 32, 33]
    );
}

#[test]
fn heapsort_sorts_with_duplicates() {
    let mut v = vec![3u64, 1, 2, 3, 1, 0, 5];
    heapsort(&mut v);
    assert_eq!(v, vec![0, 1, 1, 2, 3, 3, 5]);
    let mut empty: Vec<u64> = vec![];
    heapsort(&mut empty);
    assert_eq!(empty, Vec::<u64>::new());
}
