//! Verified data structures and algorithms for an IoT device platform.
//!
//! The centre of the crate is [`red_black_tree`], a self-balancing ordered
//! index of devices; the other modules hold the simpler containers, sorts and
//! searches that live beside it.

pub mod arith;
pub mod binary_search_tree;
pub mod btree;
pub mod btree_order;
pub mod btree_shape;
pub mod devices;
pub mod door;
pub mod doubly_linked_list;
pub mod dynamic_array;
pub mod graph;
pub mod hashing;
pub mod heap;
pub mod knapsack;
pub mod layout;
pub mod map;
pub mod nqueens;
pub mod red_black_tree;
pub mod searching;
pub mod skip_list;
pub mod sorting;
pub mod trie;
pub mod trie_set;
