//! What is read from storage along with an index graph.
pub mod disk_index_reader;
