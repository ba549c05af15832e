//! A binary search tree, as a plain value and as a structure that several
//! threads can fill and read at once.
//!
//! `BinarySearchTree` owns its nodes: what it holds is a value that the
//! contracts speak of exactly. `SharedTree` is the same tree with each
//! node's child slots behind a lock of that node's own; no lock covers the
//! tree as a whole, and no operation holds two locks at a time. Both are
//! ruled by the same two functions, `order::route` and `order::seek`.

pub mod node;
pub mod order;
pub mod place;
pub mod shared_node;
pub mod shared_tree;
pub mod tree;

pub use node::Node;
pub use order::Side;
pub use shared_node::SharedNode;
pub use shared_tree::SharedTree;
pub use shared_tree::TooDeep;
pub use tree::BinarySearchTree;
