//! Two small ordered containers with machine-checked contracts: an unbalanced
//! binary search tree and an array-backed binary heap.

pub mod heap;
pub mod order;
pub mod tree;
