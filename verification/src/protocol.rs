//! The consensus protocol as mathematics: the state a node holds and how
//! each operation transforms it.
use vstd::prelude::*;
use crate::rpc::{
    AppendEntriesReply, AppendEntriesView, MessageView, PayloadView, RequestVoteArgs,
    RequestVoteReply, payload_term,
};
use crate::store::{entries_before, StoreModel};
use crate::types::{last_index_of, last_term_of, EntryView, RaftNodeId, Role};

verus! {

/// Everything a node holds, its durable store included.
#[verifier::ext_equal]
pub struct NodeView {
    pub node_id: RaftNodeId,
    pub peers: Seq<RaftNodeId>,
    pub current_term: u64,
    pub voted_for: Option<RaftNodeId>,
    pub commit_index: u64,
    pub last_applied: u64,
    pub role: Role,
    pub log: Seq<EntryView>,
    pub next_index: Map<u64, u64>,
    pub match_index: Map<u64, u64>,
    pub votes_received: usize,
    /// The peers whose votes a candidate has counted in its term.
    pub voters: Seq<u64>,
    pub outbox: Seq<MessageView>,
    pub store: Option<StoreModel>,
}

/// Whether `vals` lists the values of `m`, one for each key.
pub open spec fn enumerates(vals: Seq<u64>, m: Map<u64, u64>) -> bool {
    exists|keys: Seq<u64>|
        {
            &&& keys.len() == vals.len()
            &&& keys.no_duplicates()
            &&& keys.to_set() == m.dom()
            &&& forall|i: int| 0 <= i < keys.len() ==> vals[i] == m[#[trigger] keys[i]]
        }
}

/// Whether a sequence is in ascending order.
pub open spec fn ascending(s: Seq<u64>) -> bool {
    forall|i: int, j: int| 0 <= i <= j < s.len() ==> s[i] <= s[j]
}

/// The match index a leader holds for each of `peers`, in their order; 0
/// for a peer it has no record of.
pub open spec fn peer_matches(m: Map<u64, u64>, peers: Seq<RaftNodeId>) -> Seq<u64> {
    Seq::new(
        peers.len(),
        |i: int|
            if m.contains_key(peers[i].0) {
                m[peers[i].0]
            } else {
                0
            },
    )
}

/// Whether `v` is the entry at position `len - q` of `vals` in ascending
/// order.
pub open spec fn is_commit_candidate(vals: Seq<u64>, q: int, v: u64) -> bool {
    exists|sorted: Seq<u64>|
        {
            &&& ascending(sorted)
            &&& sorted.to_multiset() == vals.to_multiset()
            &&& 1 <= q <= sorted.len()
            &&& v == sorted[sorted.len() - q]
        }
}

/// The node ids among a list of peers.
pub open spec fn peer_ids(peers: Seq<RaftNodeId>) -> Set<u64> {
    Set::new(|k: u64| exists|i: int| 0 <= i < peers.len() && (#[trigger] peers[i]).0 == k)
}

/// A map that gives `v` to every peer.
pub open spec fn for_peers(peers: Seq<RaftNodeId>, v: u64) -> Map<u64, u64> {
    Map::new(|k: u64| peer_ids(peers).contains(k), |k: u64| v)
}

/// A majority of the cluster made of this node and its peers: the number of
/// votes that wins an election, and of copies that commit an entry.
pub open spec fn quorum(peers: Seq<RaftNodeId>) -> int {
    ((peers.len() + 1) / 2 + 1) as int
}

pub open spec fn min_u64(a: u64, b: u64) -> u64 {
    if a <= b {
        a
    } else {
        b
    }
}

impl NodeView {
    /// A fresh node: follower at term 0 with an empty log and no store.
    pub open spec fn initial(node_id: RaftNodeId, peers: Seq<RaftNodeId>) -> NodeView {
        NodeView {
            node_id,
            peers,
            current_term: 0,
            voted_for: None,
            commit_index: 0,
            last_applied: 0,
            role: Role::Follower,
            log: Seq::empty(),
            next_index: Map::empty(),
            match_index: Map::empty(),
            votes_received: 0,
            voters: Seq::empty(),
            outbox: Seq::empty(),
            store: None,
        }
    }

    /// A node restarted from store state `m`: a follower holding the
    /// persisted term, vote, log and commit index, with entries counted as
    /// applied up to the persisted applied index.
    pub open spec fn recovered(node_id: RaftNodeId, peers: Seq<RaftNodeId>, m: StoreModel) -> NodeView {
        NodeView {
            node_id,
            peers,
            current_term: m.term,
            voted_for: m.voted_for,
            commit_index: m.commit_index,
            last_applied: m.applied,
            role: Role::Follower,
            log: m.log,
            next_index: Map::empty(),
            match_index: Map::empty(),
            votes_received: 0,
            voters: Seq::empty(),
            outbox: Seq::empty(),
            store: Some(m),
        }
    }

    /// Whether the persisted state equals the in-memory one.
    pub open spec fn synced(self) -> bool {
        match self.store {
            Some(m) => {
                &&& m.term == self.current_term
                &&& m.voted_for == self.voted_for
                &&& m.log == self.log
                &&& m.commit_index == self.commit_index
            },
            None => true,
        }
    }

    /// The invariant every operation keeps: each known next index is at
    /// least one.
    pub open spec fn wf(self) -> bool {
        forall|k: u64| #[trigger] self.next_index.contains_key(k) ==> self.next_index[k] >= 1
    }

    pub open spec fn persist_term(self) -> NodeView {
        NodeView {
            store: match self.store {
                Some(m) => Some(StoreModel { term: self.current_term, ..m }),
                None => None,
            },
            ..self
        }
    }

    pub open spec fn persist_voted_for(self) -> NodeView {
        NodeView {
            store: match self.store {
                Some(m) => Some(StoreModel { voted_for: self.voted_for, ..m }),
                None => None,
            },
            ..self
        }
    }

    pub open spec fn persist_append(self, e: EntryView) -> NodeView {
        NodeView {
            store: match self.store {
                Some(m) => Some(StoreModel { log: m.log.push(e), ..m }),
                None => None,
            },
            ..self
        }
    }

    pub open spec fn persist_truncate(self, from: u64) -> NodeView {
        NodeView {
            store: match self.store {
                Some(m) => Some(StoreModel { log: entries_before(m.log, from), ..m }),
                None => None,
            },
            ..self
        }
    }

    pub open spec fn persist_applied(self) -> NodeView {
        NodeView {
            store: match self.store {
                Some(m) => Some(StoreModel { applied: self.last_applied, ..m }),
                None => None,
            },
            ..self
        }
    }

    pub open spec fn persist_commit(self) -> NodeView {
        NodeView {
            store: match self.store {
                Some(m) => Some(StoreModel { commit_index: self.commit_index, ..m }),
                None => None,
            },
            ..self
        }
    }

    /// Queue a message from this node.
    pub open spec fn send(self, to: RaftNodeId, p: PayloadView) -> NodeView {
        NodeView {
            outbox: self.outbox.push(MessageView { from: self.node_id, to, payload: p }),
            ..self
        }
    }

    pub open spec fn become_follower(self, term: u64) -> NodeView {
        NodeView {
            role: Role::Follower,
            current_term: term,
            voted_for: None,
            ..self
        }.persist_term().persist_voted_for()
    }

    pub open spec fn vote_request(self) -> PayloadView {
        PayloadView::RequestVote(
            RequestVoteArgs {
                term: self.current_term,
                candidate_id: self.node_id,
                last_log_index: last_index_of(self.log),
                last_log_term: last_term_of(self.log),
            },
        )
    }

    pub open spec fn become_candidate(self) -> NodeView {
        NodeView {
            current_term: (self.current_term + 1) as u64,
            role: Role::Candidate,
            voted_for: Some(self.node_id),
            votes_received: 1,
            voters: Seq::empty(),
            ..self
        }.persist_term().persist_voted_for().request_votes()
    }

    /// Queue a vote request to every peer.
    pub open spec fn request_votes(self) -> NodeView {
        NodeView {
            outbox: self.outbox + Seq::new(
                self.peers.len(),
                |i: int| MessageView { from: self.node_id, to: self.peers[i], payload: self.vote_request() },
            ),
            ..self
        }
    }

    pub open spec fn next_index_for(self, peer: RaftNodeId) -> u64 {
        if self.next_index.contains_key(peer.0) {
            self.next_index[peer.0]
        } else {
            1
        }
    }

    /// The replication request this node would send to `peer`: the entries
    /// from the peer's next index on, and the entry just before them.
    pub open spec fn append_entries_to(self, peer: RaftNodeId) -> PayloadView {
        let nidx = self.next_index_for(peer);
        let prev = if nidx > 0 { (nidx - 1) as u64 } else { 0u64 };
        let prev_term = if prev > 0 && prev <= self.log.len() { self.log[prev - 1].term } else { 0 };
        let entries = if nidx <= self.log.len() {
            self.log.subrange(nidx - 1, self.log.len() as int)
        } else {
            Seq::empty()
        };
        PayloadView::AppendEntries(
            AppendEntriesView {
                term: self.current_term,
                leader_id: self.node_id,
                prev_log_index: prev,
                prev_log_term: prev_term,
                entries,
                leader_commit: self.commit_index,
            },
        )
    }

    pub open spec fn send_append_entries(self, peer: RaftNodeId) -> NodeView {
        self.send(peer, self.append_entries_to(peer))
    }

    /// The replication requests to all peers, in the order of the peer list.
    pub open spec fn heartbeats(self) -> Seq<MessageView> {
        Seq::new(
            self.peers.len(),
            |i: int|
                MessageView {
                    from: self.node_id,
                    to: self.peers[i],
                    payload: self.append_entries_to(self.peers[i]),
                },
        )
    }

    pub open spec fn broadcast_append_entries(self) -> NodeView {
        NodeView { outbox: self.outbox + self.heartbeats(), ..self }
    }

    pub open spec fn become_leader(self) -> NodeView {
        let nidx = (last_index_of(self.log) + 1) as u64;
        NodeView {
            role: Role::Leader,
            next_index: self.next_index.union_prefer_right(for_peers(self.peers, nidx)),
            match_index: self.match_index.union_prefer_right(for_peers(self.peers, 0)),
            ..self
        }.broadcast_append_entries()
    }

    /// A timer tick, given whether the election deadline has passed.
    pub open spec fn on_tick(self, timed_out: bool) -> NodeView {
        if self.role != Role::Leader && timed_out {
            self.become_candidate()
        } else if self.role == Role::Leader {
            self.broadcast_append_entries()
        } else {
            self
        }
    }

    /// The entry a leader appends for a client command.
    pub open spec fn next_entry(self, payload: Seq<u8>) -> EntryView {
        EntryView {
            index: (last_index_of(self.log) + 1) as u64,
            term: self.current_term,
            payload,
        }
    }

    pub open spec fn append_local_entry(self, payload: Seq<u8>) -> NodeView {
        if self.role != Role::Leader {
            self
        } else {
            let e = self.next_entry(payload);
            NodeView { log: self.log.push(e), ..self.persist_append(e) }.broadcast_append_entries()
        }
    }

    /// The term this node holds once it has seen a message of term `t`.
    pub open spec fn observe_term(self, t: u64) -> NodeView {
        if t > self.current_term {
            self.become_follower(t)
        } else {
            self
        }
    }

    pub open spec fn log_up_to_date(self, a: RequestVoteArgs) -> bool {
        a.last_log_term > last_term_of(self.log) || (a.last_log_term == last_term_of(self.log)
            && a.last_log_index >= last_index_of(self.log))
    }

    pub open spec fn grants_vote(self, a: RequestVoteArgs) -> bool {
        &&& a.term == self.current_term
        &&& (self.voted_for is None || self.voted_for == Some(a.candidate_id))
        &&& self.log_up_to_date(a)
    }

    pub open spec fn on_request_vote(self, from: RaftNodeId, a: RequestVoteArgs) -> NodeView {
        let granted = self.grants_vote(a);
        let s = if granted {
            NodeView { voted_for: Some(a.candidate_id), ..self }.persist_voted_for()
        } else {
            self
        };
        s.send(
            from,
            PayloadView::RequestVoteReply(
                RequestVoteReply { term: self.current_term, vote_granted: granted },
            ),
        )
    }

    /// Whether a candidate counts the vote in reply `r` from `from`: a vote
    /// granted in its term by one of its peers that it has not counted yet.
    pub open spec fn counts_vote(self, from: RaftNodeId, r: RequestVoteReply) -> bool {
        &&& self.role == Role::Candidate
        &&& r.term == self.current_term
        &&& r.vote_granted
        &&& peer_ids(self.peers).contains(from.0)
        &&& !self.voters.contains(from.0)
    }

    pub open spec fn on_vote_reply(self, from: RaftNodeId, r: RequestVoteReply) -> NodeView {
        if self.counts_vote(from, r) {
            let s = NodeView {
                votes_received: (self.votes_received + 1) as usize,
                voters: self.voters.push(from.0),
                ..self
            };
            if s.votes_received >= quorum(s.peers) {
                s.become_leader()
            } else {
                s
            }
        } else {
            self
        }
    }

    /// Replicated entries taken in one by one at position `at` and after:
    /// an entry that conflicts in term cuts the log (and the store) at its
    /// position; an entry past the end is appended.
    pub open spec fn merge_entries(self, at: int, entries: Seq<EntryView>) -> NodeView
        decreases entries.len(),
    {
        if entries.len() == 0 {
            self
        } else {
            let e = entries[0];
            let s = if at < self.log.len() {
                if self.log[at].term != e.term {
                    NodeView {
                        log: self.log.take(at).push(e),
                        ..self.persist_truncate(self.log[at].index).persist_append(e)
                    }
                } else {
                    self
                }
            } else {
                NodeView { log: self.log.push(e), ..self.persist_append(e) }
            };
            s.merge_entries(at + 1, entries.drop_first())
        }
    }

    pub open spec fn prev_matches(self, a: AppendEntriesView) -> bool {
        a.prev_log_index == 0 || (a.prev_log_index <= self.log.len() && self.log[a.prev_log_index
            - 1].term == a.prev_log_term)
    }

    pub open spec fn on_append_entries(self, from: RaftNodeId, a: AppendEntriesView) -> NodeView {
        if a.term == self.current_term {
            let s = NodeView { role: Role::Follower, ..self };
            if s.prev_matches(a) {
                let s2 = s.merge_entries(a.prev_log_index as int, a.entries);
                let s3 = if a.leader_commit > s2.commit_index {
                    NodeView {
                        commit_index: min_u64(a.leader_commit, last_index_of(s2.log)),
                        ..s2
                    }.persist_commit()
                } else {
                    s2
                };
                s3.send(
                    from,
                    PayloadView::AppendEntriesReply(
                        AppendEntriesReply {
                            term: s3.current_term,
                            success: true,
                            match_index: (a.prev_log_index + a.entries.len()) as u64,
                        },
                    ),
                )
            } else {
                s.send(
                    from,
                    PayloadView::AppendEntriesReply(
                        AppendEntriesReply { term: s.current_term, success: false, match_index: 0 },
                    ),
                )
            }
        } else {
            self.send(
                from,
                PayloadView::AppendEntriesReply(
                    AppendEntriesReply { term: self.current_term, success: false, match_index: 0 },
                ),
            )
        }
    }

    /// The leader's state after recording a successful reply from `from`.
    pub open spec fn record_match(self, from: RaftNodeId, r: AppendEntriesReply) -> NodeView {
        NodeView {
            match_index: self.match_index.insert(from.0, r.match_index),
            next_index: self.next_index.insert(from.0, (r.match_index + 1) as u64),
            ..self
        }
    }

    /// Commit up to `nci` when it lies past the commit index, within the
    /// log, at an entry of the current term.
    pub open spec fn commit_to(self, nci: u64) -> NodeView {
        if nci > self.commit_index && nci <= self.log.len() && self.log[nci - 1].term
            == self.current_term {
            NodeView { commit_index: nci, ..self }.persist_commit()
        } else {
            self
        }
    }

    /// Whether `nci` is the commit candidate of this leader state.
    /// The members' copies a commit counts: each peer's match index, then
    /// the leader's own last index.
    pub open spec fn member_matches(self) -> Seq<u64> {
        peer_matches(self.match_index, self.peers).push(last_index_of(self.log))
    }

    pub open spec fn commit_candidate(self, nci: u64) -> bool {
        is_commit_candidate(self.member_matches(), quorum(self.peers), nci)
    }

    pub open spec fn on_append_entries_reply(
        self,
        from: RaftNodeId,
        r: AppendEntriesReply,
        nci: u64,
    ) -> NodeView {
        if self.role == Role::Leader && r.term == self.current_term {
            if r.success {
                self.record_match(from, r).commit_to(nci)
            } else {
                let nidx = self.next_index[from.0];
                if nidx > 1 {
                    NodeView {
                        next_index: self.next_index.insert(from.0, (nidx - 1) as u64),
                        ..self
                    }.send_append_entries(from)
                } else {
                    self
                }
            }
        } else {
            self
        }
    }

    /// The state after handling message `m`; `nci` stands for the commit
    /// candidate, which only a successful replication reply to a leader uses.
    pub open spec fn step(self, m: MessageView, nci: u64) -> NodeView {
        let s = self.observe_term(payload_term(m.payload));
        match m.payload {
            PayloadView::RequestVote(a) => s.on_request_vote(m.from, a),
            PayloadView::RequestVoteReply(r) => s.on_vote_reply(m.from, r),
            PayloadView::AppendEntries(a) => s.on_append_entries(m.from, a),
            PayloadView::AppendEntriesReply(r) => s.on_append_entries_reply(m.from, r, nci),
            PayloadView::InstallSnapshot(_) => s,
            PayloadView::InstallSnapshotReply(_) => s,
        }
    }

    /// Whether handling `m` restarts the election timer: it carries a newer
    /// term, or it asks for a vote that is granted, or it replicates from a
    /// leader of the node's current term.
    pub open spec fn step_restarts_timer(self, m: MessageView) -> bool {
        let s = self.observe_term(payload_term(m.payload));
        ||| payload_term(m.payload) > self.current_term
        ||| (m.payload matches PayloadView::RequestVote(a) && s.grants_vote(a))
        ||| (m.payload matches PayloadView::AppendEntries(a) && a.term == s.current_term)
    }

    /// Whether `nci` may stand for the commit candidate when handling `m`:
    /// when `m` is a successful replication reply to a leader of the same
    /// term, it must be the candidate of the state that records the reply.
    pub open spec fn step_candidate(self, m: MessageView, nci: u64) -> bool {
        let s = self.observe_term(payload_term(m.payload));
        match m.payload {
            PayloadView::AppendEntriesReply(r) => (s.role == Role::Leader && r.term
                == s.current_term && r.success) ==> s.record_match(m.from, r).commit_candidate(
                nci,
            ),
            _ => true,
        }
    }

    /// What handling `m` needs to run without arithmetic overflow or an
    /// out-of-range access.
    pub open spec fn step_ok(self, m: MessageView) -> bool {
        let s = self.observe_term(payload_term(m.payload));
        match m.payload {
            PayloadView::RequestVote(_) => true,
            PayloadView::RequestVoteReply(r) => {
                s.counts_vote(m.from, r) ==> {
                    &&& s.votes_received < usize::MAX
                    &&& (s.votes_received + 1 >= quorum(s.peers) ==> last_index_of(s.log)
                        < u64::MAX)
                }
            },
            PayloadView::AppendEntries(a) => (a.term == s.current_term && NodeView {
                role: Role::Follower,
                ..s
            }.prev_matches(a)) ==> a.prev_log_index + a.prev_log_index + a.entries.len()
                <= u64::MAX,
            PayloadView::AppendEntriesReply(r) => (s.role == Role::Leader && r.term
                == s.current_term) ==> if r.success {
                r.match_index < u64::MAX
            } else {
                s.next_index.contains_key(m.from.0)
            },
            PayloadView::InstallSnapshot(_) => true,
            PayloadView::InstallSnapshotReply(_) => true,
        }
    }
}

} // verus!
