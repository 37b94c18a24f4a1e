//! A replicated key-value store: Raft over a log-structured merge tree.
//!
//! [`Node`] is the consensus state machine, [`Cluster`] a simulated cluster of
//! nodes, [`lsm`] the storage engine, [`server`] the exchanges of a node with its
//! peers and clients, and [`safety`] the proof that nodes agree.
pub mod bytes;
pub mod charts;
pub mod client;
pub mod cluster;
pub mod cluster_state;
pub mod conduct;
pub mod config;
pub mod demo;
pub mod lsm;
pub mod net;
pub mod node;
pub mod node_laws;
pub mod node_state;
pub mod numbers;
pub mod observability;
pub mod picture;
pub mod posters;
pub mod safety;
pub mod sections;
pub mod server;
pub mod state_machine;
pub mod storage;
pub mod text;
pub mod traffic;
pub mod types;

pub use cluster::Cluster;
pub use node::{Node, PendingWrite};
pub use state_machine::{MemoryStateMachine, StateMachine, StateMachineError};
pub use types::{
    AppendEntries, AppendEntriesReply, ClientReply, ClientRequest, Command, LogEntry, LogIndex,
    Message, NodeId, RequestVote, RequestVoteReply, Role, Rpc, Term,
};
