//! An unbalanced binary search tree with iterative traversals.
//!
//! Entries are hung as leaves where a walk from the root ends, equal keys to the right.
//! The walks over a tree are lazy: each hands out one entry per call.

pub mod inorder;
pub mod into_iter;
pub mod laws;
pub mod levels;
pub mod order;
pub mod postorder;
pub mod preorder;
pub mod query;
pub mod rewrite;
pub mod shape;
pub mod tree;
pub mod values_mut;
pub mod walks;

pub use crate::inorder::InOrderIter;
pub use crate::into_iter::IntoIter;
pub use crate::postorder::PostOrderIter;
pub use crate::preorder::PreOrderIter;
pub use crate::tree::{Node, BST};
pub use crate::values_mut::ValuesMut;
