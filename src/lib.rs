//! Ordered key trees with two self-balancing disciplines over one node and
//! rotation substrate: a red-black tree and an AVL tree.
//!
//! Every node exclusively owns its children. Upward navigation (parent,
//! grandparent, sibling, uncle) is performed by the recursion that walks down
//! from the root: each fixup runs at an ancestor while the call stack unwinds,
//! so there is no back-reference that could go stale.
use vstd::prelude::*;

pub mod node;
pub mod rbtree;
pub mod avltree;

pub use avltree::AVLTree;
pub use node::{ChildPosition, DeleteOutcome, NodeColor, TreeNode};
pub use rbtree::RBTree;
