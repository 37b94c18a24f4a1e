//! Agreement between the nodes of a cluster.
pub mod elections;
pub mod history;
pub mod laws;
pub mod moves;
pub mod replication;
