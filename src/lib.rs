//! An unbalanced binary search tree that supports ordered insertion and
//! membership lookup; values equal to a node's value go to its right.
pub mod key_order;
pub mod tree;

pub use key_order::KeyOrder;
pub use tree::{search_value_on_node, TreeNode};
