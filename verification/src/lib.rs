//! Building blocks for algorithmic problem solving, each with a verified contract.

pub mod binary_indexed_tree;
pub mod disjoint_set;
pub mod doubling;
pub mod input;
pub mod linked_list;
pub mod math;
pub mod matrix;
pub mod modulus;
pub mod persistent_array;
pub mod persistent_stack;
pub mod prime;
pub mod run_length_encoding;
pub mod segtree_helper;
mod shared;
pub mod union_find;
