//! A binary tree whose nodes hold parent and child links, with an in-order
//! cursor that walks the tree using only a small amount of state.
//!
//! Nodes live in an arena owned by the [`tree::Tree`]; handles
//! ([`tree::TreeNodePtr`]) are stable indices into that arena, so the
//! parent link is a non-owning back-reference and the cyclic
//! parent/child navigability never forms an ownership cycle.

pub mod cursor;
pub mod order;
pub mod tree;

pub use cursor::Movement;
pub use cursor::TreeIter;
pub use tree::Tree;
pub use tree::TreeNode;
pub use tree::TreeNodeLink;
pub use tree::TreeNodePtr;
