//! A replicated SQLite layer: a Raft consensus engine whose durable state is
//! written through to a store, a deterministic apply loop, parsers for
//! SQLite write-ahead-log data, and the rules of the node's service layer.
pub mod clock;
pub mod cluster;
pub mod health;
pub mod laws;
pub mod metrics;
pub mod node;
pub mod protocol;
pub mod reply;
pub mod rpc;
pub mod service;
pub mod snapshot;
pub mod store;
pub mod text;
pub mod types;
pub mod wal;

pub use node::{DeterministicApplyLoop, RaftNode};
pub use types::{LogEntry, RaftNodeId, Role};
