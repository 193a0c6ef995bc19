//! A flat tree: a hierarchy kept as one pre-order sequence of nodes, where
//! every node records its nesting level and the index of the last node of its
//! own subtree, so that tree-shaped queries never have to walk parent or
//! child links.

pub mod flat_tree;
pub mod flat_tree_error;
pub mod helpers;
pub mod preorder;
pub mod traits;
pub mod tree_nodes;

pub use flat_tree::FlatTree;
pub use flat_tree_error::FlatTreeError;
