//! A flattened tree container: an arbitrarily nested forest stored as one
//! ordered sequence of nodes, supporting collapse/expand of subtrees,
//! insertion at five relative placements, and partial or full subtree
//! removal, with incremental bookkeeping of descendant counts and visible
//! heights.

pub mod list;
pub mod shape;

pub use list::Placement;
pub use list::TreeList;
pub use list::TreeNode;
pub use shape::NodeShape;
