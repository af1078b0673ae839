use search_trees::avl_tree::AvlSearchTree;
use search_trees::avl_tree::AvlTree;
use search_trees::binary_tree::BinarySearchTree;

#[test]
fn test_avl_ascending_inserts_rebalance() {
    let mut tree = AvlTree::new();
    for k in 1..=7 {
        tree.insert_item(k);
    }
    assert_eq!(tree.pre_order(), vec![4, 2, 1, 3, 6, 5, 7]);
    assert_eq!(tree.in_order(), vec![1, 2, 3, 4, 5, 6, 7]);
    assert_eq!(tree.height(), 3);
}

#[test]
fn test_avl_two_child_delete() {
    let mut tree = AvlTree::new();
    for k in [5, 10, 6, 8, 7, 9, 4, 3, 2, 1] {
        tree.insert_item(k);
    }
    tree.delete(5);
    assert_eq!(tree.in_order(), vec![1, 2, 3, 4, 6, 7, 8, 9, 10]);
    for k in [1, 2, 3, 4, 6, 7, 8, 9, 10] {
        assert!(tree.contained(k));
    }
    assert!(!tree.contained(5));
}

#[test]
fn test_avl_rotation_round_trip() {
    let mut tree = AvlTree::new();
    for k in [4, 2, 6, 1, 3, 5, 7] {
        tree.insert_item(k);
    }
    let before = tree.in_order();
    let rotated = tree.rotate_left();
    let back = rotated.rotate_right();
    assert_eq!(back.in_order(), before);
}

#[test]
fn test_avl_rotation_round_trip_other_way() {
    let mut tree = AvlTree::new();
    for k in [4, 2, 6, 1, 3, 5, 7] {
        tree.insert_item(k);
    }
    let before = tree.in_order();
    let rotated = tree.rotate_right();
    let back = rotated.rotate_left();
    assert_eq!(back.in_order(), before);
}

#[test]
fn test_avl_delete_min() {
    let mut tree = AvlTree::new();
    for k in [5, 10, 3, 4, 2, 1, 0, 100] {
        tree.insert_item(k);
    }
    let (min, rest) = tree.unwrap().delete_min();
    assert_eq!(min, 0);
    assert_eq!(rest.in_order(), vec![1, 2, 3, 4, 5, 10, 100]);
}

#[test]
fn test_avl_delete_max() {
    let mut tree = AvlTree::new();
    for k in [5, 10, 3, 4, 2, 1, 0, 100] {
        tree.insert_item(k);
    }
    let (max, rest) = tree.unwrap().delete_max();
    assert_eq!(max, 100);
    assert_eq!(rest.in_order(), vec![0, 1, 2, 3, 4, 5, 10]);
}

#[test]
fn test_avl_duplicate_insert_is_noop() {
    let mut tree = AvlTree::new();
    tree.insert_item(5);
    tree.insert_item(5);
    tree.insert_item(7);
    tree.insert_item(7);
    assert_eq!(tree.in_order(), vec![5, 7]);
}

#[test]
fn test_avl_delete_absent_keeps_in_order() {
    let mut tree = AvlTree::new();
    for k in [5, 2, 8] {
        tree.insert_item(k);
    }
    tree.delete(42);
    assert_eq!(tree.in_order(), vec![2, 5, 8]);
}

#[test]
fn test_avl_balance_factor_small() {
    let mut tree = AvlTree::new();
    tree.insert_item(2);
    tree.insert_item(1);
    assert_eq!(tree.balance_factor(), 1);
    tree.insert_item(3);
    assert_eq!(tree.balance_factor(), 0);
    assert_eq!(tree.height(), 2);
}

#[test]
fn test_avl_descending_inserts_rebalance() {
    let mut tree = AvlTree::new();
    for k in [7, 6, 5, 4, 3, 2, 1] {
        tree.insert_item(k);
    }
    assert_eq!(tree.pre_order(), vec![4, 2, 1, 3, 6, 5, 7]);
    assert_eq!(tree.height(), 3);
}

#[test]
fn test_avl_many_deletes_keep_order() {
    let mut tree = AvlTree::new();
    for k in 0i64..32 {
        tree.insert_item(k);
    }
    for k in [0, 31, 16, 8, 24, 4] {
        tree.delete(k);
    }
    let expected: Vec<i64> =
        (0i64..32).filter(|k| ![0, 31, 16, 8, 24, 4].contains(k)).collect();
    assert_eq!(tree.in_order(), expected);
    assert!(tree.height() <= 6);
    for k in &expected {
        assert!(tree.contained(*k));
    }
}
