//! Graph storage built on decomposed cracking: adjacency lists held as tables whose
//! cracker column is partitioned by the vertex looked up, with several compression schemes.

pub mod cracker_index;
pub mod column;
pub mod bfs;
pub mod datagen;
pub mod decomposed_cracking;
pub mod recognitive_compression;
pub mod compactive_compression;
pub mod overswap_rle_compression;
pub mod load_person_csv;
pub mod personrank;
pub mod table_graphs;
pub mod compaction;
