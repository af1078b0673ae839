use search_trees::priority_queue::PriorityQueue;

#[test]
fn test_create_empty() {
    let mut new_tree = PriorityQueue::new_empty();
    new_tree.add_item(9);
    new_tree.add_item(10);
    new_tree.add_item(15);
    new_tree.add_item(7);
    assert_eq!(new_tree.extract_max().unwrap(), 15);
    assert_eq!(new_tree.find_max().unwrap(), 10);
    assert_eq!(new_tree.extract_max().unwrap(), 10);
    assert_eq!(new_tree.extract_max().unwrap(), 9);
    assert_eq!(new_tree.extract_max().unwrap(), 7);
    assert_eq!(new_tree.extract_max(), None)
}

#[test]
fn test_new_from_vec() {
    let vec = vec![9, 10, 15, 7];
    let mut new_tree = PriorityQueue::new_from_vec(vec);
    assert_eq!(new_tree.extract_max().unwrap(), 15);
    assert_eq!(new_tree.find_max().unwrap(), 10);
    assert_eq!(new_tree.extract_max().unwrap(), 10);
    assert_eq!(new_tree.extract_max().unwrap(), 9);
    assert_eq!(new_tree.extract_max().unwrap(), 7);
    assert_eq!(new_tree.extract_max(), None);
}

#[test]
fn test_sorted() {
    let vec = vec![9, 10, 15, 7];
    let new_tree = PriorityQueue::new_from_vec(vec);
    assert_eq!(new_tree.sorted(), vec![15, 10, 9, 7])
}

#[test]
fn test_empty_queue() {
    let mut q = PriorityQueue::new_empty();
    assert_eq!(q.len(), 0);
    assert_eq!(q.find_max(), None);
    assert_eq!(q.extract_max(), None);
}

#[test]
fn test_duplicates_and_negatives() {
    let q = PriorityQueue::new_from_vec(vec![3, -1, 3, 0, -7, 3]);
    assert_eq!(q.sorted(), vec![3, 3, 3, 0, -1, -7]);
}

#[test]
fn test_len_tracks_operations() {
    let mut q = PriorityQueue::new_empty();
    q.add_item(1);
    q.add_item(2);
    assert_eq!(q.len(), 2);
    q.extract_max();
    assert_eq!(q.len(), 1);
}

#[test]
fn test_heapify_large() {
    let items: Vec<i64> = (0..50).rev().collect();
    let q = PriorityQueue::new_from_vec(items);
    let sorted = q.sorted();
    let expected: Vec<i64> = (0..50).rev().collect();
    assert_eq!(sorted, expected);
}
