//! An in-memory ordered key-value index built on a B+ tree, with the
//! tokens and the syntax tree of the query language in front of it.

pub mod bplus_tree;
pub mod query;
