//! A log-structured merge tree: records, their binary codes, bloom filters,
//! sorted tables, the write-ahead log and the tree itself.
pub mod bloom;
pub mod codec;
pub mod files;
pub mod machine_laws;
pub mod record;
pub mod reopen_laws;
pub mod store;
pub mod store_laws;
pub mod table;
pub mod table_laws;
pub mod tree;
pub mod tree_laws;
pub mod wal;
