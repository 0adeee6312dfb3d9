//! The B+ tree engine: node layout, lookup, insertion with split
//! propagation, deletion with rebalancing, and ordered traversal.

pub mod bplus_tree;
pub mod delete;
pub mod entries;
pub mod get;
pub mod insert;
pub mod laws;
pub mod order;
pub mod siblings;
pub mod traverse;
