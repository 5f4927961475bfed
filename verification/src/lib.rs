//! Classic data structures, verified: an array-backed priority queue driven
//! by a pluggable comparison rule, a binary search tree, and a breadth-first
//! graph traversal.

pub mod bst;
pub mod graph;
pub mod heap;
