//! What the operations are for, stated of their inputs and results.
pub mod arguments;
pub mod documents;
pub mod elections;
pub mod machines;
pub mod metrics;
pub mod pictures;
pub mod replication;
pub mod restarts;
pub mod runs;
pub mod service;
pub mod simulation;
pub mod trees;
