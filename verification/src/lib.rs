//! A Raft consensus engine with no I/O of its own, the log and storage
//! formats it persists to, and a seeded simulation harness that checks the
//! safety properties of a cluster after every step.
use vstd::prelude::*;

pub mod types;
pub mod message;
pub mod log;
pub mod rng;
pub mod node;
pub mod node_model;
pub mod node_laws;
pub mod hard_state_laws;
pub mod election_laws;
pub mod log_matching_laws;
pub mod leader_laws;
pub mod cluster;
pub mod cluster_log_laws;
pub mod cluster_prefix_laws;
pub mod sim_storage;
pub mod invariants;
pub mod wal;
pub mod codec;
pub mod text;
pub mod network;
pub mod simulator;

pub use types::{LogIndex, NodeId, Term};
pub use message::{LogEntry, Message, MessageKind, SnapshotMeta};
pub use log::RaftLog;
pub use node::{Action, Config, RaftNode, Role};

verus! {

} // verus!
