//! The health summary a node reports.
use vstd::prelude::*;
use std::sync::atomic::Ordering;
use crate::metrics::Metrics;
use crate::node::RaftNode;
use crate::store::RaftStateStore;
use crate::types::Role;

verus! {

/// What a health check answers.
pub struct HealthResponse {
    pub status: String,
    pub role: String,
    pub term: u64,
    pub commit_index: u64,
    pub ops_applied: u64,
}

/// The name of a role.
pub open spec fn role_text(role: Role) -> Seq<char> {
    match role {
        Role::Leader => "Leader"@,
        Role::Follower => "Follower"@,
        Role::Candidate => "Candidate"@,
    }
}

pub fn role_name(role: Role) -> (r: &'static str)
    ensures
        r@ == role_text(role),
{
    match role {
        Role::Leader => "Leader",
        Role::Follower => "Follower",
        Role::Candidate => "Candidate",
    }
}

impl HealthResponse {
    /// The health of `node`: status `OK`, its role, term and commit index,
    /// and the operations `metrics` counts as applied.
    pub fn from_node<S: RaftStateStore>(node: &RaftNode<S>, metrics: &Metrics) -> (r: Self)
        ensures
            r.status@ == "OK"@,
            r.role@ == role_text(node@.role),
            r.term == node@.current_term,
            r.commit_index == node@.commit_index,
    {
        HealthResponse {
            status: "OK".to_string(),
            role: role_name(node.role()).to_string(),
            term: node.term(),
            commit_index: node.committed(),
            ops_applied: metrics.ops_applied.load(Ordering::Relaxed),
        }
    }
}

} // verus!
