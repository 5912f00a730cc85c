use flight_cone::map_like::FakeHashMapForGrid;
use flight_cone::pqueue::{HeapNode, PriorityQueue};

type TestPQueue = PriorityQueue<usize>;

fn drain_items(pqueue: TestPQueue) -> Vec<usize> {
    let mut it = pqueue.into_iter();
    let mut ordered = Vec::new();
    while let Some(x) = it.next() {
        ordered.push(x.item);
    }
    ordered
}

#[test]
fn test_pqueue_starts_empty() {
    let pqueue: TestPQueue = PriorityQueue::new();
    assert_eq!(pqueue.len(), 0);
}

#[test]
fn test_pqueue_with_capacity() {
    let pqueue: TestPQueue = PriorityQueue::new_with_capacity(5);
    assert_eq!(pqueue.len(), 0);
    assert_eq!(pqueue.capacity(), 5);
}

#[test]
fn test_pqueue_only_inserts_in_order() {
    let mut pqueue: TestPQueue = PriorityQueue::new();

    pqueue.push(0, 0);
    pqueue.push(1, 1);
    pqueue.push(2, 2);
    pqueue.push(3, 3);
    pqueue.push(4, 4);

    assert_eq!(drain_items(pqueue), vec![0, 1, 2, 3, 4])
}

#[test]
fn test_pqueue_inserts_out_of_order() {
    let mut pqueue: TestPQueue = PriorityQueue::new();

    pqueue.push(1, 1);
    pqueue.push(2, 2);
    pqueue.push(5, 5);
    pqueue.push(3, 3);
    pqueue.push(6, 6);
    pqueue.push(7, 7);
    pqueue.push(4, 4);
    pqueue.push(8, 8);
    pqueue.push(9, 9);
    pqueue.push(10, 10);
    pqueue.push(11, 11);

    assert_eq!(drain_items(pqueue), vec![1, 2, 3, 4, 5, 6, 7, 8, 9, 10, 11])
}

#[test]
fn test_pqueue_inserts_out_of_order_2() {
    let mut pqueue: TestPQueue = PriorityQueue::new();

    pqueue.push(0, 0);
    pqueue.push(1, 1);
    pqueue.push(2, 2);
    pqueue.push(3, 3);
    pqueue.push(4, 4);
    pqueue.push(8, 8);

    assert_eq!(drain_items(pqueue), vec![0, 1, 2, 3, 4, 8])
}

#[test]
fn test_pqueue_inserts_and_pops() {
    let mut pqueue: TestPQueue = PriorityQueue::new();

    pqueue.push(0, 0);
    pqueue.push(3, 3);
    pqueue.push(5, 5);
    pqueue.pop();
    pqueue.push(4, 4);
    pqueue.push(2, 2);
    pqueue.pop();
    pqueue.push(9, 9);
    pqueue.push(22, 22);
    pqueue.push(6, 6);
    pqueue.pop();
    pqueue.push(7, 7);
    pqueue.push(1, 1);

    assert_eq!(drain_items(pqueue), vec![1, 4, 5, 6, 7, 9, 22])
}

#[test]
fn test_pqueue_update_priority() {
    let mut pqueue: TestPQueue = PriorityQueue::new();

    pqueue.push(0, 0);
    pqueue.push(3, 3);
    pqueue.push(5, 5);
    pqueue.pop();
    pqueue.push(4, 4);
    pqueue.push(2, 2);
    pqueue.update_priority(2, 8);
    pqueue.pop();
    pqueue.push(9, 9);
    pqueue.push(22, 22);
    pqueue.push(6, 6);
    pqueue.update_priority(4, 7);
    pqueue.pop();
    pqueue.push(3, 3);
    pqueue.push(1, 1);
    pqueue.update_priority(22, 2);

    assert_eq!(drain_items(pqueue), vec![1, 2, 3, 6, 7, 8, 9])
}

#[test]
fn test_pqueue_update_priority_if_less() {
    let mut pqueue: TestPQueue = PriorityQueue::new();

    pqueue.push(0, 0);
    pqueue.push(3, 3);
    pqueue.push(5, 5);
    pqueue.pop();
    pqueue.push(4, 4);
    pqueue.push(2, 2);
    assert!(pqueue.update_priority_if_less(3, 0).is_some());
    pqueue.pop();
    pqueue.push(9, 9);
    pqueue.push(22, 22);
    pqueue.push(6, 6);
    assert!(pqueue.update_priority_if_less(4, 7).is_none());
    pqueue.pop();
    pqueue.push(3, 3);
    pqueue.push(0, 0);
    assert!(pqueue.update_priority_if_less(22, 1).is_some());

    assert_eq!(drain_items(pqueue), vec![0, 1, 3, 4, 5, 6, 9]);
}

#[test]
fn pqueue_stress_shuffled_keys_pop_in_order() {
    let n: usize = 1000;
    let mut pqueue: TestPQueue = PriorityQueue::new();
    // A fixed permutation of 0..n: multiplication by a unit modulo n.
    for i in 0..n {
        let key = (i * 7919) % n;
        pqueue.push(key, key);
    }
    assert_eq!(pqueue.len(), n);
    assert_eq!(drain_items(pqueue), (0..n).collect::<Vec<usize>>());
}

#[test]
fn pqueue_pop_order_is_non_decreasing() {
    let mut pqueue: TestPQueue = PriorityQueue::new();
    let priorities = [50usize, 3, 3, 17, 0, 99, 42, 3, 8];
    for (key, p) in priorities.iter().enumerate() {
        pqueue.push(key, *p);
    }
    let mut last = 0;
    while let Some(HeapNode { item, .. }) = pqueue.pop() {
        assert!(item >= last);
        last = item;
    }
    assert!(pqueue.is_empty());
}

#[test]
fn pqueue_on_dense_grid_map() {
    let mut pqueue: PriorityQueue<usize, FakeHashMapForGrid> =
        PriorityQueue::new_with_map(FakeHashMapForGrid::new((3, 4)));
    pqueue.push(11, 5);
    pqueue.push(0, 9);
    pqueue.push(6, 1);
    assert!(pqueue.contains_key(&11));
    assert!(!pqueue.contains_key(&7));
    assert_eq!(pqueue.get(&0).map(|n| n.item), Some(9));
    assert!(pqueue.update_priority_if_less(0, 2).is_some());
    assert!(pqueue.update_priority_if_less(11, 6).is_none());
    let first = pqueue.pop().unwrap();
    assert_eq!((first.key, first.item), (6, 1));
    let second = pqueue.pop().unwrap();
    assert_eq!((second.key, second.item), (0, 2));
    assert!(!pqueue.contains_key(&6));
    assert_eq!(pqueue.len(), 1);
}

#[test]
fn pqueue_test_test_pqueue_starts_empty() {
    let pqueue: TestPQueue = PriorityQueue::new();
    assert_eq!(pqueue.len(), 0);
}

#[test]
fn pqueue_test_test_pqueue_only_inserts_in_order() {
    let mut pqueue: TestPQueue = PriorityQueue::new();

    pqueue.push(0, 0);
    pqueue.push(1, 1);
    pqueue.push(2, 2);
    pqueue.push(3, 3);
    pqueue.push(4, 4);

    assert_eq!(drain_items(pqueue), vec![0, 1, 2, 3, 4])
}

#[test]
fn pqueue_test_test_pqueue_inserts_out_of_order() {
    let mut pqueue: TestPQueue = PriorityQueue::new();

    pqueue.push(0, 0);
    pqueue.push(3, 3);
    pqueue.push(1, 1);
    pqueue.push(4, 4);
    pqueue.push(2, 2);

    assert_eq!(drain_items(pqueue), vec![0, 1, 2, 3, 4])
}

#[test]
fn pqueue_test_test_pqueue_inserts_and_pops() {
    let mut pqueue: TestPQueue = PriorityQueue::new();

    pqueue.push(0, 0);
    pqueue.push(3, 3);
    pqueue.push(5, 5);
    pqueue.pop();
    pqueue.push(4, 4);
    pqueue.push(2, 2);
    pqueue.pop();
    pqueue.push(9, 9);
    pqueue.push(22, 22);
    pqueue.push(6, 6);
    pqueue.pop();
    pqueue.push(7, 7);
    pqueue.push(1, 1);

    assert_eq!(drain_items(pqueue), vec![1, 4, 5, 6, 7, 9, 22])
}
