//! A binary search tree whose deletion rebuilds the tree from its sorted
//! contents, together with the mathematical model its contracts speak of.

pub mod binary_tree;
pub mod copies;
pub mod middle_out;
pub mod order;
pub mod rebuild;
pub mod sorted;
pub mod tree;

pub use crate::binary_tree::{Node, Traversal};
