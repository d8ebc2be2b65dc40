use huffman::priority_queue::{PriorityQueue, PriorityType};

#[test]
fn new_creates_empty_max_priority_queue() {
    let q = PriorityQueue::<i32>::new(PriorityType::Max);
    assert_eq!(q.empty(), true);
}

#[test]
fn adds_new_items_to_the_queue() {
    let mut q = PriorityQueue::<i32>::new(PriorityType::Max);
    q.insert(10);
    q.insert(100);
    q.insert(1);
    assert_eq!(q.len(), 3);
}

#[test]
fn removes_max_element() {
    let mut q = PriorityQueue::<i32>::new(PriorityType::Max);
    q.insert(10);
    q.insert(100);
    q.insert(1);
    assert_eq!(q.remove().unwrap(), 100);
    assert_eq!(q.len(), 2);

    assert_eq!(q.remove().unwrap(), 10);
}

#[test]
fn creates_queue_from_vec() {
    let src = vec![1, 2, 3, 4];
    let mut q = PriorityQueue::from_vec(src, PriorityType::Max);
    assert_eq!(q.remove().unwrap(), 4);
    assert_eq!(q.remove().unwrap(), 3);
}

#[test]
fn min_queue_removes_min_element() {
    let mut q = PriorityQueue::<i32>::new(PriorityType::Min);
    q.insert(10);
    q.insert(100);
    q.insert(1);
    assert_eq!(q.remove().unwrap(), 1);
    assert_eq!(q.remove().unwrap(), 10);
    assert_eq!(q.remove().unwrap(), 100);
}

#[test]
fn max_queue_drains_in_descending_order() {
    let mut q = PriorityQueue::<i32>::new(PriorityType::Max);
    q.insert(10);
    q.insert(100);
    q.insert(1);
    assert_eq!(q.remove(), Some(100));
    assert_eq!(q.remove(), Some(10));
    assert_eq!(q.remove(), Some(1));
    assert_eq!(q.remove(), None);
    assert!(q.empty());
}

#[test]
fn remove_from_empty_queue_gives_none() {
    let mut q = PriorityQueue::<i32>::new(PriorityType::Min);
    assert_eq!(q.remove(), None);
    assert_eq!(q.len(), 0);
}

#[test]
fn from_empty_vec_gives_empty_queue() {
    let mut q = PriorityQueue::<i32>::from_vec(Vec::new(), PriorityType::Min);
    assert!(q.empty());
    assert_eq!(q.remove(), None);
}

#[test]
fn from_vec_min_drains_sorted_with_duplicates() {
    let src = vec![5, 3, 9, 3, -2, 7, 0, 9, 1];
    let mut q = PriorityQueue::from_vec(src.clone(), PriorityType::Min);
    let mut out = Vec::new();
    while let Some(x) = q.remove() {
        out.push(x);
    }
    let mut sorted = src;
    sorted.sort();
    assert_eq!(out, sorted);
}

#[test]
fn interleaved_inserts_and_removes_keep_order() {
    let mut q = PriorityQueue::<i32>::new(PriorityType::Max);
    for x in [4, 8, 1, 8, 3] {
        q.insert(x);
    }
    assert_eq!(q.remove(), Some(8));
    q.insert(6);
    q.insert(-1);
    let mut out = Vec::new();
    while let Some(x) = q.remove() {
        out.push(x);
    }
    assert_eq!(out, vec![8, 6, 4, 3, 1, -1]);
}
