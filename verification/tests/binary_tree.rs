use search_trees::binary_tree::BinarySearchTree;
use search_trees::binary_tree::BinaryTree;

#[test]
fn test_insert_delete_simple() {
    let mut tree = BinaryTree::new_from_item(5);
    tree.insert_item(10);
    assert!(tree.contained(10));
    assert!(tree.contained(5));
    assert!(!tree.contained(6));
    assert!(!tree.contained(8));
}

#[test]
fn test_delete_min() {
    let mut tree = BinaryTree::new_from_item(5);
    tree.insert_item(10);
    tree.insert_item(3);
    tree.insert_item(4);
    tree.insert_item(2);
    tree.insert_item(1);
    tree.insert_item(0);
    tree.insert_item(100);
    let (min, tree) = tree.unwrap().delete_min();
    assert_eq!(tree.in_order(), vec![1, 2, 3, 4, 5, 10, 100]);
    assert_eq!(min, 0);
}

#[test]
fn test_delete() {
    let mut tree = BinaryTree::new_from_item(5);
    tree.insert_item(10);
    tree.insert_item(6);
    tree.insert_item(8);
    tree.insert_item(7);
    tree.insert_item(9);
    tree.insert_item(4);
    tree.insert_item(3);
    tree.insert_item(2);
    tree.insert_item(1);
    tree.delete(5);
    assert!(!tree.contained(5));
    assert!(tree.contained(10));
    assert!(tree.contained(6));
    assert!(tree.contained(8));
    assert!(tree.contained(7));
    assert!(tree.contained(9));
    assert!(tree.contained(4));
    assert!(tree.contained(3));
    assert!(tree.contained(2));
    assert!(tree.contained(1));
}

#[test]
fn test_delete3() {
    let mut tree = BinaryTree::new_from_item(5);
    tree.insert_item(10);
    tree.insert_item(6);
    tree.insert_item(8);
    tree.insert_item(7);
    tree.insert_item(9);
    tree.insert_item(4);
    tree.insert_item(3);
    tree.insert_item(2);
    tree.insert_item(1);
    tree.delete(10);
    tree.delete(6);
    tree.delete(100);
    tree.delete(8);
    assert_eq!(tree.in_order(), vec![1, 2, 3, 4, 5, 7, 9]);
}

#[test]
fn test_insert_duplicate_is_noop() {
    let mut tree = BinaryTree::new_from_item(5);
    tree.insert_item(5);
    tree.insert_item(3);
    tree.insert_item(3);
    assert_eq!(tree.in_order(), vec![3, 5]);
}

#[test]
fn test_delete_absent_keeps_in_order() {
    let mut tree = BinaryTree::new_from_item(5);
    tree.insert_item(2);
    tree.insert_item(8);
    tree.delete(42);
    assert_eq!(tree.in_order(), vec![2, 5, 8]);
}

#[test]
fn test_contains_iff_in_order() {
    let mut tree = BinaryTree::new();
    for k in [13, -4, 7, 0, 99] {
        tree.insert_item(k);
    }
    let listing = tree.in_order();
    for k in -10..110 {
        assert_eq!(tree.contained(k), listing.contains(&k));
    }
}

#[test]
fn test_pre_order_plain_chain() {
    let mut tree = BinaryTree::new();
    for k in [1, 2, 3, 4] {
        tree.insert_item(k);
    }
    assert_eq!(tree.pre_order(), vec![1, 2, 3, 4]);
    assert_eq!(tree.in_order(), vec![1, 2, 3, 4]);
}

#[test]
fn test_empty_tree() {
    let tree = BinaryTree::new();
    assert!(!tree.contained(0));
    assert_eq!(tree.in_order(), Vec::<i64>::new());
    assert_eq!(tree.pre_order(), Vec::<i64>::new());
}
