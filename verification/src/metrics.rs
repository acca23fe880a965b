//! Counters of what a node has done, shared between threads.
use vstd::prelude::*;
use std::sync::atomic::AtomicU64;
use std::sync::atomic::Ordering;

verus! {

/// Counters that any thread may bump. Their values live in atomics, which
/// Verus does not look into.
pub struct Metrics {
    pub ops_applied: AtomicU64,
    pub leader_changes: AtomicU64,
    pub snapshot_installs: AtomicU64,
}

impl Metrics {
    pub fn new() -> Self {
        Metrics {
            ops_applied: AtomicU64::new(0),
            leader_changes: AtomicU64::new(0),
            snapshot_installs: AtomicU64::new(0),
        }
    }

    pub fn inc_ops(&self) {
        self.ops_applied.fetch_add(1, Ordering::Relaxed);
    }

    pub fn inc_leader_changes(&self) {
        self.leader_changes.fetch_add(1, Ordering::Relaxed);
    }

    pub fn inc_snapshot_installs(&self) {
        self.snapshot_installs.fetch_add(1, Ordering::Relaxed);
    }

    /// The three counters as they read now: operations applied, leader
    /// changes, snapshot installs.
    pub fn counts(&self) -> (u64, u64, u64) {
        (
            self.ops_applied.load(Ordering::Relaxed),
            self.leader_changes.load(Ordering::Relaxed),
            self.snapshot_installs.load(Ordering::Relaxed),
        )
    }
}

} // verus!
