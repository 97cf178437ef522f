//! Database cracking: adaptive in-place partitioning of a column as a side effect of
//! range queries, with the indexes, tables and compressed variants built on it.

pub mod cracker_index;
pub mod avl;
pub mod crack;
pub mod db;
pub mod graph;
pub mod laws;
