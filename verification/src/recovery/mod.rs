//! What is rebuilt from the records when the storage starts: the index, the
//! statistics and the adjacency of each tenant.
pub mod index_rebuild;
pub mod rebuild_laws;
pub mod stats_rebuild;
pub mod tel_rebuild;
pub mod visible;
