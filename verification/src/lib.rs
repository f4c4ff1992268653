//! A left-leaning red-black tree: ordered key-value storage whose `insert`
//! keeps the tree height logarithmic in the number of keys.

pub mod laws;
pub mod tree;

pub use tree::Color;
pub use tree::Node;
pub use tree::RedBlackTree;
