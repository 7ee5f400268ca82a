//! Data structures and algorithms: vectors, heaps, binary trees, search trees,
//! Huffman coding and graph searches, each with a verified contract.

pub mod vec;
pub mod priority_queue;
pub mod binary_tree;
pub mod graph;
pub mod binary_search_tree;
