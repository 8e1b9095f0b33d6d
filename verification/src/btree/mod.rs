//! A balanced ordered key-value index: a B-tree of fixed minimum degree with
//! ordered insert, point lookup and delete.

pub mod delete;
pub mod entries;
pub mod grow;
pub mod invariants;
pub mod laws;
pub mod listing;
pub mod node;
pub mod order;
pub mod pieces;
pub mod search;
pub mod shrink;
pub mod tree;

pub use entries::Entry;
pub use tree::NaiveBTree;
