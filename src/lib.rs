//! An in-memory B-tree index over `i32` keys, stored in an append-only arena.
pub mod btree;
pub mod model;
pub mod node;
pub mod sorted;

pub use btree::Btree;
pub use node::{Node, NodeIndex, NodeType};
