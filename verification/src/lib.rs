//! In-memory ordered-key containers: a plain binary search tree and a
//! height-balanced (AVL) binary search tree sharing one conformance
//! contract, plus an array-backed binary max-heap priority queue.

pub mod avl_tree;
pub mod binary_tree;
pub mod priority_queue;
