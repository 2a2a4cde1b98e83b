//! Ordered collections: an arena-backed AVL tree and a binary max-heap.
pub mod avl_vec;
pub mod heapq;
pub mod order;
pub mod tree;
