//! A cluster of nodes that exchange messages over a network that may lose,
//! repeat and reorder them, and whose members may restart from their
//! stores; and what holds in every state such a cluster reaches: one leader
//! per term, matching logs, and committed entries that never diverge and
//! are in the log of every later leader.
use vstd::prelude::*;
use crate::laws::{
    distinct_members, holders, law_commit_candidate_held, lemma_holders_count,
    peer_holders, law_quorums_intersect, law_step_keeps_votes_tallied, law_step_leader_has_majority,
    law_step_takes_up_term, law_step_vote_once_per_term, law_votes_tallied_elsewhere,
    lemma_merge_fields, votes_tallied,
};
use crate::protocol::{peer_ids, peer_matches, quorum, NodeView};
use crate::rpc::{payload_term, MessageView, PayloadView};
use crate::types::{last_index_of, last_term_of, well_indexed, EntryView, RaftNodeId, Role};

verus! {

/// Whether `m` is a vote granted.
pub open spec fn is_grant(m: MessageView) -> bool {
    m.payload matches PayloadView::RequestVoteReply(r) && r.vote_granted
}

/// What handling a message sends, beside what was already queued: messages
/// from the node itself, none a vote request; and a granted vote only in
/// answer to a vote request, as the one message sent, to the candidate the
/// node now votes for, in its current term.
pub open spec fn sends_after(s: NodeView, t: NodeView, m: MessageView) -> bool {
    &&& t.outbox.len() >= s.outbox.len()
    &&& t.outbox.take(s.outbox.len() as int) == s.outbox
    &&& forall|i: int|
        s.outbox.len() <= i < t.outbox.len() ==> (#[trigger] t.outbox[i]).from == s.node_id
            && !(t.outbox[i].payload is RequestVote)
    &&& forall|i: int|
        s.outbox.len() <= i < t.outbox.len() ==> (#[trigger] t.outbox[i]).to == m.from || peer_ids(
            s.peers,
        ).contains(t.outbox[i].to.0)
    &&& forall|i: int|
        s.outbox.len() <= i < t.outbox.len() && (#[trigger] t.outbox[i]).payload is AppendEntries
            ==> t.role == Role::Leader && payload_term(t.outbox[i].payload) == t.current_term
            && t.outbox[i].payload == t.append_entries_to(t.outbox[i].to)
    &&& forall|i: int|
        s.outbox.len() <= i < t.outbox.len() && is_grant(#[trigger] t.outbox[i]) ==> {
            &&& i == s.outbox.len()
            &&& t.outbox.len() == s.outbox.len() + 1
            &&& m.payload matches PayloadView::RequestVote(a)
            &&& t.outbox[i].to == m.from
            &&& t.voted_for == Some(a.candidate_id)
            &&& payload_term(t.outbox[i].payload) == t.current_term
        }
}

proof fn lemma_heartbeats_plain(s: NodeView)
    ensures
        forall|i: int|
            0 <= i < s.heartbeats().len() ==> (#[trigger] s.heartbeats()[i]).from == s.node_id
                && s.heartbeats()[i].payload is AppendEntries && peer_ids(s.peers).contains(
                s.heartbeats()[i].to.0,
            ) && payload_term(s.heartbeats()[i].payload) == s.current_term
                && s.heartbeats()[i].payload == s.append_entries_to(s.heartbeats()[i].to),
{
    assert forall|i: int| 0 <= i < s.heartbeats().len() implies peer_ids(s.peers).contains(
        (#[trigger] s.heartbeats()[i]).to.0,
    ) by {
        assert(s.heartbeats()[i].to == s.peers[i]);
    }
}

/// What handling a message sends.
pub proof fn lemma_step_sends(s: NodeView, m: MessageView, nci: u64)
    ensures
        sends_after(s, s.step(m, nci), m),
        s.step(m, nci).node_id == s.node_id,
        s.step(m, nci).peers == s.peers,
{
    let s1 = s.observe_term(payload_term(m.payload));
    assert(s1.outbox == s.outbox && s1.node_id == s.node_id && s1.peers == s.peers);
    let t = s.step(m, nci);
    match m.payload {
        PayloadView::RequestVote(a) => {
            assert(t.outbox =~= s.outbox.push(t.outbox[s.outbox.len() as int]));
            assert(t.outbox.take(s.outbox.len() as int) =~= s.outbox);
        },
        PayloadView::RequestVoteReply(r) => {
            if s1.counts_vote(m.from, r) {
                let s2 = NodeView {
                    votes_received: (s1.votes_received + 1) as usize,
                    voters: s1.voters.push(m.from.0),
                    ..s1
                };
                if s2.votes_received >= quorum(s2.peers) {
                    let s3 = NodeView {
                        role: Role::Leader,
                        next_index: s2.next_index.union_prefer_right(
                            crate::protocol::for_peers(s2.peers, (crate::types::last_index_of(s2.log) + 1) as u64),
                        ),
                        match_index: s2.match_index.union_prefer_right(crate::protocol::for_peers(s2.peers, 0)),
                        ..s2
                    };
                    lemma_heartbeats_plain(s3);
                    assert(t.outbox == s.outbox + s3.heartbeats());
                    assert(t.outbox.take(s.outbox.len() as int) =~= s.outbox);
                    assert forall|i: int| s.outbox.len() <= i < t.outbox.len() implies (
                    #[trigger] t.outbox[i]).payload is AppendEntries && t.outbox[i].from == s.node_id by {
                        assert(t.outbox[i] == s3.heartbeats()[i - s.outbox.len()]);
                    }
                } else {
                    assert(t.outbox.take(s.outbox.len() as int) =~= s.outbox);
                }
            } else {
                assert(t.outbox.take(s.outbox.len() as int) =~= s.outbox);
            }
        },
        PayloadView::AppendEntries(a) => {
            if a.term == s1.current_term {
                let f = NodeView { role: Role::Follower, ..s1 };
                if f.prev_matches(a) {
                    lemma_merge_fields(f, a.prev_log_index as int, a.entries);
                }
            }
            assert(t.outbox =~= s.outbox.push(t.outbox[s.outbox.len() as int]));
            assert(t.outbox.take(s.outbox.len() as int) =~= s.outbox);
        },
        PayloadView::AppendEntriesReply(r) => {
            if s1.role == Role::Leader && r.term == s1.current_term && !r.success
                && s1.next_index[m.from.0] > 1 {
                assert(t.outbox =~= s.outbox.push(t.outbox[s.outbox.len() as int]));
            }
            assert(t.outbox.take(s.outbox.len() as int) =~= s.outbox);
        },
        _ => {
            assert(t.outbox.take(s.outbox.len() as int) =~= s.outbox);
        },
    }
}

/// Whether two logs that hold entries of one term at one position agree up
/// to there.
pub open spec fn logs_match(a: Seq<EntryView>, b: Seq<EntryView>) -> bool {
    forall|j: int|
        0 <= j < a.len() && j < b.len() && (#[trigger] a[j]).term == (#[trigger] b[j]).term ==> a.take(
            j + 1,
        ) == b.take(j + 1)
}

/// Whether `p` is a prefix of `l`.
pub open spec fn has_prefix(l: Seq<EntryView>, p: Seq<EntryView>) -> bool {
    p.len() <= l.len() && l.take(p.len() as int) == p
}

/// Whether the terms of a log never go down.
pub open spec fn terms_sorted(l: Seq<EntryView>) -> bool {
    forall|i: int, j: int| 0 <= i <= j < l.len() ==> (#[trigger] l[i]).term <= (#[trigger] l[j]).term
}

/// Whether every entry of a log has a term no later than `t`.
pub open spec fn terms_at_most(l: Seq<EntryView>, t: u64) -> bool {
    forall|i: int| 0 <= i < l.len() ==> (#[trigger] l[i]).term <= t
}

/// Whether the first `len` entries of `h` end with an entry of term `term`
/// (none, with term 0, for `len` 0).
pub open spec fn describes(h: Seq<EntryView>, len: int, term: u64) -> bool {
    &&& 0 <= len <= h.len()
    &&& len == 0 ==> term == 0
    &&& len > 0 ==> h[len - 1].term == term
}

/// Whether `r` is a successful replication reply of term `tt` that
/// acknowledges at least `n` entries.
pub open spec fn is_ack(r: MessageView, tt: u64, n: int) -> bool {
    r.payload matches PayloadView::AppendEntriesReply(rep) && rep.success && rep.term == tt
        && rep.match_index >= n
}

/// Whether a replication request carries entries of log `h`: those after
/// its previous index, with the previous entry's term; or none, with a
/// previous term that no entry has.
pub open spec fn ae_fits(a: crate::rpc::AppendEntriesView, h: Seq<EntryView>) -> bool {
    let p = a.prev_log_index as int;
    let n = p + a.entries.len();
    ||| (n <= h.len() && a.entries == h.subrange(p, n) && (p > 0 ==> h[p - 1].term
        == a.prev_log_term))
    ||| (a.entries.len() == 0 && a.prev_log_term == 0)
}

/// A leader's replication request fits its log.
proof fn lemma_request_fits(t: NodeView, peer: RaftNodeId)
    requires
        t.wf(),
    ensures
        t.append_entries_to(peer) matches PayloadView::AppendEntries(a) && ae_fits(a, t.log),
{
    let nidx = t.next_index_for(peer);
    assert(nidx >= 1) by {
        if t.next_index.contains_key(peer.0) {
        }
    }
    let len = t.log.len();
    if let PayloadView::AppendEntries(a) = t.append_entries_to(peer) {
        if nidx <= len {
            assert(a.entries =~= t.log.subrange(a.prev_log_index as int, len as int));
        } else if nidx - 1 == len {
            assert(a.entries =~= t.log.subrange(len as int, len as int));
        }
    }
}

/// Taking in entries of a leader's log `h` at `at`, on a log that agrees
/// with `h` before `at` (and is either the untouched log `l` or ends at
/// `at`), leaves `h` up to the last entry taken in; the rest is either the
/// untouched log or nothing.
proof fn lemma_merge_from(
    s: NodeView,
    at: int,
    entries: Seq<EntryView>,
    l: Seq<EntryView>,
    h: Seq<EntryView>,
)
    requires
        0 <= at <= s.log.len(),
        s.log.take(at) == h.take(at),
        at + entries.len() <= h.len(),
        entries == h.subrange(at, at + entries.len()),
        s.log == l || s.log.len() == at,
        logs_match(l, h),
    ensures
        ({
            let r = s.merge_entries(at, entries).log;
            let n = at + entries.len();
            &&& r.len() >= n
            &&& r.take(n) == h.take(n)
            &&& (r == l || r == h.take(n))
        }),
    decreases entries.len(),
{
    let n = at + entries.len();
    if entries.len() == 0 {
        if s.log != l {
            assert(s.log =~= h.take(at));
        } else {
            assert(s.log.take(at) == h.take(at));
        }
    } else {
        let e = entries[0];
        assert(e == h[at]);
        let t = if at < s.log.len() {
            if s.log[at].term != e.term {
                NodeView {
                    log: s.log.take(at).push(e),
                    ..s.persist_truncate(s.log[at].index).persist_append(e)
                }
            } else {
                s
            }
        } else {
            NodeView { log: s.log.push(e), ..s.persist_append(e) }
        };
        assert(s.merge_entries(at, entries) == t.merge_entries(at + 1, entries.drop_first()));
        if at < s.log.len() {
            if s.log[at].term != e.term {
                assert(t.log =~= h.take(at + 1));
            } else {
                assert(s.log == l);
                assert(l.take(at + 1) == h.take(at + 1));
                assert(t.log.take(at + 1) == h.take(at + 1));
            }
        } else {
            assert(s.log.len() == at);
            assert(s.log =~= h.take(at));
            assert(t.log =~= h.take(at + 1));
        }
        assert(t.log.take(at + 1) =~= h.take(at + 1));
        assert(entries.drop_first() =~= h.subrange(at + 1, at + 1 + entries.drop_first().len()));
        lemma_merge_from(t, at + 1, entries.drop_first(), l, h);
    }
}

/// A cluster as mathematics: each member's state by its id, and every
/// message any member has sent so far (the network may deliver any of them,
/// in any order, any number of times).
pub struct ClusterView {
    pub nodes: Map<u64, NodeView>,
    pub sent: Set<MessageView>,
    /// For each term in which a member has led: that member, and the peers
    /// whose votes elected it.
    pub elected: Map<u64, (u64, Set<u64>)>,
    /// For each term in which a member has led: its log as of the last
    /// moment it led.
    pub hist: Map<u64, Seq<EntryView>>,
}

impl ClusterView {
    /// Every member knows itself by its id and the others as its peers,
    /// each once.
    pub open spec fn members_ok(self) -> bool {
        &&& self.nodes.dom().finite()
        &&& forall|k: u64|
            #[trigger] self.nodes.contains_key(k) ==> {
                let n = self.nodes[k];
                &&& n.node_id == RaftNodeId(k)
                &&& n.peers.no_duplicates()
                &&& peer_ids(n.peers) == self.nodes.dom().remove(k)
                &&& n.peers.len() + 1 == self.nodes.dom().len()
            }
    }

    /// Every message sent comes from a member and is kept; a vote request
    /// asks for its sender.
    pub open spec fn sent_ok(self) -> bool {
        &&& forall|m: MessageView|
            #[trigger] self.sent.contains(m) ==> self.nodes.contains_key(m.from.0) && (
            m.payload matches PayloadView::RequestVote(a) ==> a.candidate_id == m.from)
        &&& forall|k: u64, i: int|
            self.nodes.contains_key(k) && 0 <= i < self.nodes[k].outbox.len() ==> self.sent.contains(
                #[trigger] self.nodes[k].outbox[i],
            )
    }

    /// Votes: a member grants at most one candidate per term, and still
    /// stands by a grant while it is in that term.
    pub open spec fn grants_ok(self) -> bool {
        &&& forall|m1: MessageView, m2: MessageView|
            #[trigger] self.sent.contains(m1) && #[trigger] self.sent.contains(m2) && is_grant(m1)
                && is_grant(m2) && m1.from == m2.from && payload_term(m1.payload) == payload_term(
                m2.payload,
            ) ==> m1.to == m2.to
        &&& forall|m: MessageView|
            #[trigger] self.sent.contains(m) && is_grant(m) ==> {
                let n = self.nodes[m.from.0];
                ||| n.current_term > payload_term(m.payload)
                ||| (n.current_term == payload_term(m.payload) && n.voted_for == Some(m.to))
            }
    }

    /// Whether member `voter` has sent a vote granted to `candidate` in
    /// `term`.
    pub open spec fn granted(self, voter: u64, candidate: RaftNodeId, term: u64) -> bool {
        exists|g: MessageView|
            #[trigger] self.sent.contains(g) && is_grant(g) && g.from.0 == voter && g.to == candidate
                && payload_term(g.payload) == term
    }

    /// Candidates and leaders: each has voted for itself, counted only
    /// votes granted to it in its term, and a leader a majority of them.
    pub open spec fn candidates_ok(self) -> bool {
        forall|k: u64|
            #[trigger] self.nodes.contains_key(k) ==> {
                let n = self.nodes[k];
                &&& votes_tallied(n)
                &&& n.role != Role::Follower ==> n.voted_for == Some(n.node_id)
                &&& n.role != Role::Follower ==> forall|i: int|
                    0 <= i < n.voters.len() ==> self.granted(
                        #[trigger] n.voters[i],
                        n.node_id,
                        n.current_term,
                    )
                &&& n.role == Role::Leader ==> n.voters.len() + 1 >= quorum(n.peers)
            }
    }

    /// The election recorded for term `t`: its leader is a member that
    /// has not left the term as a candidate, that voted for itself and
    /// granted no vote in it, and whose recorded voters are peers that
    /// granted it their votes, with it a majority.
    pub open spec fn election_ok(self, t: u64) -> bool {
        let l = self.elected[t].0;
        let v = self.elected[t].1;
        &&& self.nodes.contains_key(l)
        &&& v.finite()
        &&& v.subset_of(peer_ids(self.nodes[l].peers))
        &&& v.len() + 1 >= quorum(self.nodes[l].peers)
        &&& forall|x: u64| #[trigger] v.contains(x) ==> self.granted(x, RaftNodeId(l), t)
        &&& self.nodes[l].current_term >= t
        &&& self.nodes[l].current_term == t ==> self.nodes[l].voted_for == Some(RaftNodeId(l))
            && self.nodes[l].role != Role::Candidate
        &&& forall|g: MessageView|
            #[trigger] self.sent.contains(g) && is_grant(g) && g.from.0 == l ==> payload_term(
                g.payload,
            ) != t
    }

    /// Elections over time: no message goes to its sender; replication
    /// requests of a term come from the member elected in it; every leader
    /// is the one recorded for its term; and every recorded election holds.
    pub open spec fn elections_ok(self) -> bool {
        &&& forall|m: MessageView| #[trigger] self.sent.contains(m) ==> m.from != m.to
        &&& forall|m: MessageView|
            #[trigger] self.sent.contains(m) && m.payload is AppendEntries ==> self.elected.contains_key(
                payload_term(m.payload),
            ) && self.elected[payload_term(m.payload)].0 == m.from.0
        &&& forall|k: u64|
            #[trigger] self.nodes.contains_key(k) && self.nodes[k].role == Role::Leader
                ==> self.elected.contains_key(self.nodes[k].current_term) && self.elected[self.nodes[
                k].current_term].0 == k
        &&& forall|t: u64| #[trigger] self.elected.contains_key(t) ==> self.election_ok(t)
    }

    /// Whether every entry of `l` is preceded, as in the log of the leader
    /// of the entry's term, by that leader's entries.
    pub open spec fn traces(self, l: Seq<EntryView>) -> bool {
        forall|j: int|
            0 <= j < l.len() ==> self.hist.contains_key((#[trigger] l[j]).term) && j < self.hist[l[
                j].term].len() && l.take(j + 1) == self.hist[l[j].term].take(j + 1)
    }

    /// Whether a replication request carries entries of the log of the
    /// leader of its term.
    pub open spec fn fits(self, m: MessageView) -> bool {
        match m.payload {
            PayloadView::AppendEntries(a) => self.hist.contains_key(a.term) && ae_fits(
                a,
                self.hist[a.term],
            ),
            _ => true,
        }
    }

    /// Logs: every log is well indexed and traced to the leaders' logs;
    /// each leader's log is the one recorded for its term; every
    /// replication request fits the log of its term's leader.
    pub open spec fn logs_ok(self) -> bool {
        &&& forall|t: u64|
            #[trigger] self.hist.contains_key(t) ==> t >= 1 && self.elected.contains_key(t)
                && well_indexed(self.hist[t]) && self.traces(self.hist[t])
        &&& forall|k: u64|
            #[trigger] self.nodes.contains_key(k) ==> well_indexed(self.nodes[k].log) && self.traces(
                self.nodes[k].log,
            ) && self.nodes[k].wf() && (self.nodes[k].role != Role::Follower
                ==> self.nodes[k].current_term >= 1)
        &&& forall|k: u64|
            #[trigger] self.nodes.contains_key(k) && self.nodes[k].role == Role::Leader
                ==> self.hist.contains_key(self.nodes[k].current_term) && self.hist[self.nodes[
                k].current_term] == self.nodes[k].log
        &&& forall|m: MessageView| #[trigger] self.sent.contains(m) ==> self.fits(m)
    }

    /// Whether every leader of a term after `tt` holds `p` at the start of
    /// its log.
    pub open spec fn held_after(self, tt: u64, p: Seq<EntryView>) -> bool {
        forall|u: u64| #[trigger] self.hist.contains_key(u) && u > tt ==> has_prefix(self.hist[u], p)
    }

    /// More than half of the members.
    pub open spec fn majority(self) -> int {
        (self.nodes.dom().len() as int) / 2 + 1
    }

    /// Whether position `n` (from one) of the log of term `tt`'s leader
    /// holds an entry of term `tt` itself.
    pub open spec fn own_entry(self, tt: u64, n: int) -> bool {
        self.hist.contains_key(tt) && 1 <= n <= self.hist[tt].len() && self.hist[tt][n - 1].term
            == tt
    }

    /// Whether the leader of some term after `tt` lacks the first `n`
    /// entries of term `tt`'s leader's log.
    pub open spec fn blocked(self, tt: u64, n: int) -> bool {
        exists|u: u64|
            #[trigger] self.hist.contains_key(u) && u > tt && !has_prefix(
                self.hist[u],
                self.hist[tt].take(n),
            )
    }

    /// Whether member `z` has acknowledged, in term `tt`, holding the first
    /// `n` entries of that term's leader's log: by a successful replication
    /// reply, or as that leader.
    pub open spec fn acked(self, z: u64, tt: u64, n: int) -> bool {
        ||| exists|r: MessageView| #[trigger] self.sent.contains(r) && r.from.0 == z && is_ack(r, tt, n)
        ||| (self.elected.contains_key(tt) && self.elected[tt].0 == z && self.hist.contains_key(tt)
            && self.hist[tt].len() >= n)
    }

    /// The members that have acknowledged the first `n` entries of term
    /// `tt`.
    pub open spec fn ackers(self, tt: u64, n: int) -> Set<u64> {
        self.nodes.dom().filter(|z: u64| self.acked(z, tt, n))
    }

    /// The members that have acknowledged them, or still could.
    pub open spec fn potential(self, tt: u64, n: int) -> Set<u64> {
        self.nodes.dom().filter(
            |z: u64| self.acked(z, tt, n) || self.nodes[z].current_term <= tt,
        )
    }

    /// Whether the first `n` entries of term `tt`'s leader's log, ending in
    /// one of that term, are acknowledged by a majority.
    pub open spec fn committed(self, tt: u64, n: int) -> bool {
        self.own_entry(tt, n) && self.ackers(tt, n).len() >= self.majority()
    }

    /// Whether `p` is empty or the start of a committed prefix of a term no
    /// later than `bound`.
    pub open spec fn covered(self, p: Seq<EntryView>, bound: u64) -> bool {
        p.len() == 0 || exists|tt: u64, n: int|
            tt <= bound && #[trigger] self.committed(tt, n) && n >= p.len() && self.hist[tt].take(
                p.len() as int,
            ) == p
    }

    /// Whether, for every grant to `c` in term `u`, the log `c` stood for
    /// election with holds the first `n` entries of term `tt` (unless a
    /// later leader lacks them).
    pub open spec fn cand_holds(self, c: u64, u: u64, tt: u64, n: int) -> bool {
        let pre = self.hist[tt].take(n);
        &&& (self.nodes[c].current_term == u && self.nodes[c].role == Role::Candidate) ==> (
        has_prefix(self.nodes[c].log, pre) || self.blocked(tt, n))
        &&& (self.elected.contains_key(u) && self.elected[u].0 == c) ==> (has_prefix(
            self.hist[u],
            pre,
        ) || self.blocked(tt, n))
    }

    /// What a vote request of candidate `c` says of the log it stands with.
    pub open spec fn request_ok(self, c: u64, a: crate::rpc::RequestVoteArgs) -> bool {
        &&& self.nodes.contains_key(c)
        &&& self.nodes[c].current_term >= a.term
        &&& (self.nodes[c].current_term == a.term && self.nodes[c].role == Role::Candidate) ==> (
        a.last_log_index == last_index_of(self.nodes[c].log) && a.last_log_term == last_term_of(
            self.nodes[c].log,
        ))
        &&& (self.elected.contains_key(a.term) && self.elected[a.term].0 == c) ==> describes(
            self.hist[a.term],
            a.last_log_index as int,
            a.last_log_term,
        )
    }

    /// What a replication request says of what its leader has committed.
    pub open spec fn request_commit_ok(self, a: crate::rpc::AppendEntriesView) -> bool {
        &&& a.leader_commit <= self.hist[a.term].len()
        &&& self.covered(self.hist[a.term].take(a.leader_commit as int), a.term)
        &&& (a.leader_commit <= a.prev_log_index + a.entries.len() || (a.prev_log_index > 0
            && a.prev_log_term == 0))
    }

    /// Commitment: term order in logs; what replies, vote requests and
    /// grants say; acknowledged entries are kept unless a later leader
    /// lacks them; entries a later leader lacks can no longer win a
    /// majority; candidates stand with what their voters acknowledged;
    /// every commit index, and every leader's commit in its requests, ends
    /// a committed prefix; and a leader's match indices are acknowledged.
    pub open spec fn commits_ok(self) -> bool {
        &&& forall|u: u64| #[trigger] self.elected.contains_key(u) ==> self.hist.contains_key(u)
        &&& forall|u: u64|
            #[trigger] self.hist.contains_key(u) ==> terms_sorted(self.hist[u]) && terms_at_most(
                self.hist[u],
                u,
            )
        &&& forall|k: u64|
            #[trigger] self.nodes.contains_key(k) ==> terms_at_most(
                self.nodes[k].log,
                self.nodes[k].current_term,
            )
        &&& forall|r: MessageView| #[trigger] self.sent.contains(r) ==> self.reply_ok(r)
        &&& forall|m: MessageView|
            #[trigger] self.sent.contains(m) ==> (m.payload matches PayloadView::RequestVote(a)
                ==> self.request_ok(m.from.0, a))
        &&& forall|m: MessageView|
            #[trigger] self.sent.contains(m) ==> (m.payload matches PayloadView::AppendEntries(a)
                ==> self.request_commit_ok(a))
        &&& forall|g: MessageView|
            #[trigger] self.sent.contains(g) && is_grant(g) ==> self.nodes.contains_key(g.to.0)
                && self.nodes[g.to.0].current_term >= payload_term(g.payload)
        &&& forall|z: u64, tt: u64, n: int|
            #[trigger] self.nodes.contains_key(z) && #[trigger] self.own_entry(tt, n)
                && #[trigger] self.acked(z, tt, n) ==> has_prefix(
                self.nodes[z].log,
                self.hist[tt].take(n),
            ) || self.blocked(tt, n)
        &&& forall|tt: u64, n: int|
            #[trigger] self.own_entry(tt, n) && #[trigger] self.blocked(tt, n) ==> self.potential(
                tt,
                n,
            ).len() < self.majority()
        &&& forall|g: MessageView, tt: u64, n: int|
            #[trigger] self.sent.contains(g) && is_grant(g) && tt < payload_term(g.payload)
                && #[trigger] self.own_entry(tt, n) && #[trigger] self.acked(g.from.0, tt, n)
                ==> self.cand_holds(g.to.0, payload_term(g.payload), tt, n)
        &&& forall|k: u64|
            #[trigger] self.nodes.contains_key(k) ==> self.nodes[k].commit_index
                <= self.nodes[k].log.len() && self.covered(
                self.nodes[k].log.take(self.nodes[k].commit_index as int),
                self.nodes[k].current_term,
            )
        &&& forall|k: u64, i: int|
            self.nodes.contains_key(k) && self.nodes[k].role == Role::Leader && 0 <= i
                < self.nodes[k].peers.len() ==> #[trigger] self.match_acked(k, i)
    }

    /// A successful replication reply acknowledges part of its term's
    /// leader's log, and its sender has reached that term.
    pub open spec fn reply_ok(self, r: MessageView) -> bool {
        match r.payload {
            PayloadView::AppendEntriesReply(rep) => rep.success ==> self.hist.contains_key(rep.term)
                && rep.match_index <= self.hist[rep.term].len() && self.nodes[r.from.0].current_term
                >= rep.term,
            _ => true,
        }
    }

    /// The match index leader `k` holds for its `i`-th peer is 0 or
    /// acknowledged by that peer in the leader's term.
    pub open spec fn match_acked(self, k: u64, i: int) -> bool {
        let v = peer_matches(self.nodes[k].match_index, self.nodes[k].peers)[i];
        v == 0 || self.acked(self.nodes[k].peers[i].0, self.nodes[k].current_term, v as int)
    }

    /// What every reachable state of the cluster satisfies, commitment
    /// included.
    pub open spec fn safe(self) -> bool {
        self.consistent() && self.commits_ok()
    }

    /// What every reachable state of the cluster satisfies, apart from
    /// commitment.
    pub open spec fn consistent(self) -> bool {
        &&& self.members_ok()
        &&& self.sent_ok()
        &&& self.grants_ok()
        &&& self.candidates_ok()
        &&& self.elections_ok()
        &&& self.logs_ok()
    }

    /// Whether `d` keeps every election this cluster has recorded.
    pub open spec fn keeps_elections(self, d: ClusterView) -> bool {
        forall|t: u64| #[trigger] self.elected.contains_key(t) ==> d.elected.contains_key(t)
            && d.elected[t] == self.elected[t]
    }

    /// No two members lead in one term.
    pub open spec fn one_leader_per_term(self) -> bool {
        forall|a: u64, b: u64|
            #[trigger] self.nodes.contains_key(a) && #[trigger] self.nodes.contains_key(b)
                && self.nodes[a].role == Role::Leader && self.nodes[b].role == Role::Leader
                && self.nodes[a].current_term == self.nodes[b].current_term ==> a == b
    }

    /// Member `k` takes in message `m` (one that was sent to it); what it
    /// queues joins the messages sent.
    /// Member `k` now stands at `t`; what it queued joins the messages
    /// sent, and a member that has just become leader is recorded with the
    /// peers that voted for it.
    pub open spec fn after(self, k: u64, t: NodeView) -> ClusterView {
        let s = self.nodes[k];
        let newly = t.role == Role::Leader && !(s.role == Role::Leader && s.current_term
            == t.current_term);
        ClusterView {
            nodes: self.nodes.insert(k, t),
            sent: self.sent + t.outbox.to_set(),
            elected: if newly {
                self.elected.insert(t.current_term, (k, t.voters.to_set()))
            } else {
                self.elected
            },
            hist: if t.role == Role::Leader {
                self.hist.insert(t.current_term, t.log)
            } else {
                self.hist
            },
        }
    }

    pub open spec fn deliver(self, k: u64, m: MessageView, nci: u64) -> ClusterView {
        self.after(k, self.nodes[k].step(m, nci))
    }

    /// Member `k`'s timer ticks.
    pub open spec fn tick(self, k: u64, timed_out: bool) -> ClusterView {
        self.after(k, self.nodes[k].on_tick(timed_out))
    }

    /// Member `k` takes a client command.
    pub open spec fn append(self, k: u64, payload: Seq<u8>) -> ClusterView {
        self.after(k, self.nodes[k].append_local_entry(payload))
    }

    /// Whether member `k` keeps in its store exactly its term, vote, log and
    /// commit index, so that it can restart from them.
    pub open spec fn durable(self, k: u64) -> bool {
        let n = self.nodes[k];
        &&& n.store is Some
        &&& n.store->0.term == n.current_term
        &&& n.store->0.voted_for == n.voted_for
        &&& n.store->0.log == n.log
        &&& n.store->0.commit_index == n.commit_index
    }

    /// Member `k` crashes and restarts from its store; what it had queued is
    /// lost.
    pub open spec fn restart(self, k: u64) -> ClusterView {
        let n = self.nodes[k];
        self.after(k, NodeView::recovered(n.node_id, n.peers, n.store->0))
    }

    /// Member `k` hands its queued messages to the network.
    pub open spec fn drain(self, k: u64) -> ClusterView {
        ClusterView {
            nodes: self.nodes.insert(k, NodeView { outbox: Seq::empty(), ..self.nodes[k] }),
            sent: self.sent,
            elected: self.elected,
            hist: self.hist,
        }
    }
}

/// Election safety: in a consistent cluster no two members lead in the
/// same term.
pub proof fn law_one_leader_per_term(c: ClusterView)
    requires
        c.consistent(),
    ensures
        c.one_leader_per_term(),
{
    assert forall|a: u64, b: u64|
        #[trigger] c.nodes.contains_key(a) && #[trigger] c.nodes.contains_key(b)
            && c.nodes[a].role == Role::Leader && c.nodes[b].role == Role::Leader
            && c.nodes[a].current_term == c.nodes[b].current_term implies a == b by {
        if a != b {
            let na = c.nodes[a];
            let nb = c.nodes[b];
            let t = na.current_term;
            let dom = c.nodes.dom();
            let va = na.voters.to_set().insert(a);
            let vb = nb.voters.to_set().insert(b);
            na.voters.unique_seq_to_set();
            nb.voters.unique_seq_to_set();
            assert(!na.voters.to_set().contains(a)) by {
                if na.voters.to_set().contains(a) {
                    let i = choose|i: int| 0 <= i < na.voters.len() && na.voters[i] == a;
                    assert(peer_ids(na.peers).contains(na.voters[i]));
                    assert(dom.remove(a).contains(a));
                }
            }
            assert(!nb.voters.to_set().contains(b)) by {
                if nb.voters.to_set().contains(b) {
                    let i = choose|i: int| 0 <= i < nb.voters.len() && nb.voters[i] == b;
                    assert(peer_ids(nb.peers).contains(nb.voters[i]));
                    assert(dom.remove(b).contains(b));
                }
            }
            assert(va.subset_of(dom)) by {
                assert forall|x: u64| va.contains(x) implies dom.contains(x) by {
                    if x != a {
                        let i = choose|i: int| 0 <= i < na.voters.len() && na.voters[i] == x;
                        assert(peer_ids(na.peers).contains(na.voters[i]));
                        assert(dom.remove(a).contains(x));
                    }
                }
            }
            assert(vb.subset_of(dom)) by {
                assert forall|x: u64| vb.contains(x) implies dom.contains(x) by {
                    if x != b {
                        let i = choose|i: int| 0 <= i < nb.voters.len() && nb.voters[i] == x;
                        assert(peer_ids(nb.peers).contains(nb.voters[i]));
                        assert(dom.remove(b).contains(x));
                    }
                }
            }
            assert(nb.peers.len() == na.peers.len());
            law_quorums_intersect(dom, na.peers, va, vb);
            let x = choose|x: u64| va.contains(x) && vb.contains(x);
            if x == a {
                // a voted for itself, so it granted nothing to b in term t
                let i = choose|i: int| 0 <= i < nb.voters.len() && nb.voters[i] == x;
                let g = choose|g: MessageView|
                    #[trigger] c.sent.contains(g) && is_grant(g) && g.from.0 == nb.voters[i]
                        && g.to == nb.node_id && payload_term(g.payload) == nb.current_term;
                assert(c.nodes.contains_key(g.from.0));
            } else if x == b {
                let i = choose|i: int| 0 <= i < na.voters.len() && na.voters[i] == x;
                let g = choose|g: MessageView|
                    #[trigger] c.sent.contains(g) && is_grant(g) && g.from.0 == na.voters[i]
                        && g.to == na.node_id && payload_term(g.payload) == na.current_term;
                assert(c.nodes.contains_key(g.from.0));
            } else {
                let i = choose|i: int| 0 <= i < na.voters.len() && na.voters[i] == x;
                let j = choose|j: int| 0 <= j < nb.voters.len() && nb.voters[j] == x;
                let g1 = choose|g: MessageView|
                    #[trigger] c.sent.contains(g) && is_grant(g) && g.from.0 == na.voters[i]
                        && g.to == na.node_id && payload_term(g.payload) == na.current_term;
                let g2 = choose|g: MessageView|
                    #[trigger] c.sent.contains(g) && is_grant(g) && g.from.0 == nb.voters[j]
                        && g.to == nb.node_id && payload_term(g.payload) == nb.current_term;
                assert(g1.from == g2.from);
            }
        }
    }
}

proof fn lemma_granted_grows(c: ClusterView, d: ClusterView, v: u64, cand: RaftNodeId, term: u64)
    requires
        c.sent.subset_of(d.sent),
        c.granted(v, cand, term),
    ensures
        d.granted(v, cand, term),
{
    let g = choose|g: MessageView|
        #[trigger] c.sent.contains(g) && is_grant(g) && g.from.0 == v && g.to == cand
            && payload_term(g.payload) == term;
    assert(d.sent.contains(g));
}

/// How handling a message can leave a node a candidate or leader: only if
/// it was one, in the same term, with the same vote; its voters grow only by
/// the sender of a vote it counts, and a leader's stay as they were.
proof fn lemma_step_roles(s: NodeView, m: MessageView, nci: u64)
    requires
        s.role != Role::Follower ==> s.voted_for == Some(s.node_id),
    ensures
        ({
            let t = s.step(m, nci);
            t.role != Role::Follower ==> {
                &&& s.role != Role::Follower
                &&& t.current_term == s.current_term
                &&& t.voted_for == s.voted_for
                &&& (t.voters == s.voters || (m.payload matches PayloadView::RequestVoteReply(r)
                    && s.counts_vote(m.from, r) && t.voters == s.voters.push(m.from.0)))
                &&& s.role == Role::Leader ==> t.voters == s.voters && t.role == Role::Leader
                &&& (t.role == Role::Leader && s.role != Role::Leader) ==> m.payload is RequestVoteReply
            }
        }),
{
    let s1 = s.observe_term(payload_term(m.payload));
    match m.payload {
        PayloadView::AppendEntries(a) => {
            if a.term == s1.current_term {
                let f = NodeView { role: Role::Follower, ..s1 };
                if f.prev_matches(a) {
                    lemma_merge_fields(f, a.prev_log_index as int, a.entries);
                }
            }
        },
        _ => {},
    }
}

/// New messages that a change from `s` to `t` queues are in `t`'s outbox
/// past `s`'s.
proof fn lemma_new_messages(c: ClusterView, k: u64, s: NodeView, t: NodeView, x: MessageView)
    requires
        c.sent_ok(),
        c.nodes.contains_key(k),
        c.nodes[k] == s,
        t.outbox.len() >= s.outbox.len(),
        t.outbox.take(s.outbox.len() as int) == s.outbox,
        t.outbox.to_set().contains(x),
        !c.sent.contains(x),
    ensures
        exists|i: int| s.outbox.len() <= i < t.outbox.len() && t.outbox[i] == x,
{
    let i = choose|i: int| 0 <= i < t.outbox.len() && t.outbox[i] == x;
    if i < s.outbox.len() {
        assert(t.outbox.take(s.outbox.len() as int)[i] == s.outbox[i]);
        assert(c.sent.contains(c.nodes[k].outbox[i]));
    }
}

proof fn lemma_traces_grow(c: ClusterView, d: ClusterView, tt: u64, h2: Seq<EntryView>, l: Seq<EntryView>)
    requires
        d.hist == c.hist.insert(tt, h2),
        c.hist.contains_key(tt) ==> h2.len() >= c.hist[tt].len() && h2.take(c.hist[tt].len() as int)
            == c.hist[tt],
        c.traces(l),
    ensures
        d.traces(l),
{
    assert forall|j: int| 0 <= j < l.len() implies d.hist.contains_key((#[trigger] l[j]).term) && j
        < d.hist[l[j].term].len() && l.take(j + 1) == d.hist[l[j].term].take(j + 1) by {
        if l[j].term == tt {
            let old = c.hist[tt];
            assert(h2.take(j + 1) =~= old.take(j + 1)) by {
                assert forall|q: int| 0 <= q < j + 1 implies #[trigger] h2.take(j + 1)[q] == old.take(
                    j + 1,
                )[q] by {
                    assert(h2.take(old.len() as int)[q] == old[q]);
                }
            }
        }
    }
}

proof fn lemma_fits_grow(c: ClusterView, d: ClusterView, tt: u64, h2: Seq<EntryView>, m: MessageView)
    requires
        d.hist == c.hist.insert(tt, h2),
        c.hist.contains_key(tt) ==> h2.len() >= c.hist[tt].len() && h2.take(c.hist[tt].len() as int)
            == c.hist[tt],
        c.fits(m),
    ensures
        d.fits(m),
{
    if let PayloadView::AppendEntries(a) = m.payload {
        if a.term == tt {
            let old = c.hist[tt];
            let p = a.prev_log_index as int;
            let n = p + a.entries.len();
            if n <= old.len() && a.entries == old.subrange(p, n) && (p > 0 ==> old[p - 1].term
                == a.prev_log_term) {
                assert forall|q: int| 0 <= q < old.len() implies #[trigger] h2[q] == old[q] by {
                    assert(h2.take(old.len() as int)[q] == old[q]);
                }
                assert(a.entries =~= h2.subrange(p, n));
            }
        }
    }
}

proof fn lemma_traces_take(c: ClusterView, h: Seq<EntryView>, n: int)
    requires
        c.traces(h),
        0 <= n <= h.len(),
    ensures
        c.traces(h.take(n)),
{
    let l = h.take(n);
    assert forall|j: int| 0 <= j < l.len() implies c.hist.contains_key((#[trigger] l[j]).term) && j
        < c.hist[l[j].term].len() && l.take(j + 1) == c.hist[l[j].term].take(j + 1) by {
        assert(l[j] == h[j]);
        assert(l.take(j + 1) =~= h.take(j + 1));
    }
}

/// Two traced logs match wherever they hold entries of one term.
proof fn lemma_traced_match(c: ClusterView, a: Seq<EntryView>, b: Seq<EntryView>)
    requires
        c.traces(a),
        c.traces(b),
    ensures
        logs_match(a, b),
{
}

/// What handling a message does to a log: nothing, or (a replication
/// request taken in) it becomes a prefix of the log of the request's
/// term's leader.
proof fn lemma_step_log(c: ClusterView, k: u64, m: MessageView, nci: u64)
    requires
        c.consistent(),
        c.nodes.contains_key(k),
        c.sent.contains(m),
    ensures
        ({
            let s = c.nodes[k];
            let t = s.step(m, nci);
            ||| t.log == s.log
            ||| (m.payload matches PayloadView::AppendEntries(a) && c.hist.contains_key(a.term)
                && t.log.len() <= c.hist[a.term].len() && t.log == c.hist[a.term].take(
                t.log.len() as int,
            ) && t.role == Role::Follower)
        }),
{
    let s = c.nodes[k];
    let s1 = s.observe_term(payload_term(m.payload));
    assert(s1.log == s.log);
    if let PayloadView::AppendEntries(a) = m.payload {
        if a.term == s1.current_term {
            let f = NodeView { role: Role::Follower, ..s1 };
            if f.prev_matches(a) {
                assert(c.fits(m));
                let h = c.hist[a.term];
                let p = a.prev_log_index as int;
                let n = p + a.entries.len();
                lemma_merge_fields(f, p, a.entries);
                if n <= h.len() && a.entries == h.subrange(p, n) && (p > 0 ==> h[p - 1].term
                    == a.prev_log_term) {
                    assert(c.traces(h));
                    lemma_traced_match(c, s.log, h);
                    if p > 0 {
                        let tp = a.prev_log_term;
                        assert(s.log[p - 1].term == tp);
                        assert(s.log.take(p) == c.hist[tp].take(p));
                        assert(h.take(p) == c.hist[tp].take(p));
                    } else {
                        assert(s.log.take(0) =~= h.take(0));
                    }
                    lemma_merge_from(f, p, a.entries, s.log, h);
                    let r = f.merge_entries(p, a.entries).log;
                    if r != s.log {
                        assert(r == h.take(n));
                    }
                } else {
                    if p > 0 {
                        assert(s.log[p - 1].term == 0);
                        assert(c.hist.contains_key(s.log[p - 1].term));
                    }
                    assert(a.entries =~= Seq::<EntryView>::empty());
                }
            }
        }
    }
}

/// A member newly elected in a term is the first one recorded for it.
proof fn lemma_new_leader_first(c: ClusterView, d: ClusterView, k: u64, t: NodeView)
    requires
        c.consistent(),
        c.nodes.contains_key(k),
        d.nodes == c.nodes.insert(k, t),
        c.sent.subset_of(d.sent),
        d.candidates_ok(),
        d.members_ok(),
        c.nodes[k].role == Role::Candidate,
        t.role == Role::Leader,
        t.current_term == c.nodes[k].current_term,
        t.node_id == c.nodes[k].node_id,
        t.peers == c.nodes[k].peers,
        forall|g: MessageView| #[trigger] d.sent.contains(g) && is_grant(g) ==> c.sent.contains(g),
    ensures
        !c.elected.contains_key(t.current_term),
{
    let s = c.nodes[k];
    let tt = t.current_term;
    let dom = c.nodes.dom();
    assert(d.nodes.dom() =~= dom);
    if c.elected.contains_key(tt) {
        let l = c.elected[tt].0;
        let v = c.elected[tt].1;
        assert(c.election_ok(tt));
        if l == k {
            assert(s.role != Role::Candidate);
        } else {
            let nl = c.nodes[l];
            let a = v.insert(l);
            let b = t.voters.to_set().insert(k);
            assert(votes_tallied(t)) by {
                assert(d.nodes[k] == t);
            }
            t.voters.unique_seq_to_set();
            assert(!v.contains(l)) by {
                if v.contains(l) {
                    assert(peer_ids(nl.peers).contains(l));
                    assert(dom.remove(l).contains(l));
                }
            }
            assert(!t.voters.to_set().contains(k)) by {
                if t.voters.to_set().contains(k) {
                    let i = choose|i: int| 0 <= i < t.voters.len() && t.voters[i] == k;
                    assert(peer_ids(t.peers).contains(t.voters[i]));
                    assert(dom.remove(k).contains(k));
                }
            }
            assert(a.subset_of(dom)) by {
                assert forall|x: u64| a.contains(x) implies dom.contains(x) by {
                    if x != l {
                        assert(peer_ids(nl.peers).contains(x));
                        assert(dom.remove(l).contains(x));
                    }
                }
            }
            assert(b.subset_of(dom)) by {
                assert forall|x: u64| b.contains(x) implies dom.contains(x) by {
                    if x != k {
                        let i = choose|i: int| 0 <= i < t.voters.len() && t.voters[i] == x;
                        assert(peer_ids(t.peers).contains(t.voters[i]));
                        assert(dom.remove(k).contains(x));
                    }
                }
            }
            assert(d.nodes[k] == t);
            assert(t.voters.len() + 1 >= quorum(t.peers));
            assert(nl.peers.len() == t.peers.len());
            law_quorums_intersect(dom, t.peers, a, b);
            let x = choose|x: u64| a.contains(x) && b.contains(x);
            if x == l {
                let i = choose|i: int| 0 <= i < t.voters.len() && t.voters[i] == x;
                assert(d.granted(t.voters[i], t.node_id, tt));
                let g = choose|g: MessageView|
                    #[trigger] d.sent.contains(g) && is_grant(g) && g.from.0 == t.voters[i] && g.to
                        == t.node_id && payload_term(g.payload) == tt;
                assert(c.sent.contains(g));
            } else if x == k {
                assert(c.granted(x, RaftNodeId(l), tt));
                let g = choose|g: MessageView|
                    #[trigger] c.sent.contains(g) && is_grant(g) && g.from.0 == x && g.to == RaftNodeId(
                        l,
                    ) && payload_term(g.payload) == tt;
                assert(c.nodes[g.from.0] == s);
                assert(s.voted_for == Some(s.node_id));
            } else {
                let i = choose|i: int| 0 <= i < t.voters.len() && t.voters[i] == x;
                assert(d.granted(t.voters[i], t.node_id, tt));
                let g2 = choose|g: MessageView|
                    #[trigger] d.sent.contains(g) && is_grant(g) && g.from.0 == t.voters[i] && g.to
                        == t.node_id && payload_term(g.payload) == tt;
                assert(c.sent.contains(g2));
                assert(c.granted(x, RaftNodeId(l), tt));
                let g1 = choose|g: MessageView|
                    #[trigger] c.sent.contains(g) && is_grant(g) && g.from.0 == x && g.to == RaftNodeId(
                        l,
                    ) && payload_term(g.payload) == tt;
                assert(g1.from == g2.from);
            }
        }
    }
}

/// Handling a delivered message keeps the record of elections.
proof fn lemma_deliver_elections(c: ClusterView, k: u64, m: MessageView, nci: u64)
    requires
        c.consistent(),
        c.nodes.contains_key(k),
        c.sent.contains(m),
        m.to == RaftNodeId(k),
        c.nodes[k].step_ok(m),
        c.deliver(k, m, nci).members_ok(),
        c.deliver(k, m, nci).sent_ok(),
        c.deliver(k, m, nci).grants_ok(),
        c.deliver(k, m, nci).candidates_ok(),
    ensures
        c.deliver(k, m, nci).elections_ok(),
        c.keeps_elections(c.deliver(k, m, nci)),
{
    let s = c.nodes[k];
    let t = s.step(m, nci);
    let d = c.deliver(k, m, nci);
    let dom = c.nodes.dom();
    lemma_step_sends(s, m, nci);
    law_step_takes_up_term(s, m, nci);
    lemma_step_roles(s, m, nci);
    assert(d.nodes.dom() =~= dom);
    assert(c.sent.subset_of(d.sent));
    assert(d.nodes[k] == t);
    let newly = t.role == Role::Leader && !(s.role == Role::Leader && s.current_term
        == t.current_term);
    assert forall|x: MessageView| #[trigger] d.sent.contains(x) && !c.sent.contains(x) implies {
        &&& x.from == RaftNodeId(k)
        &&& x.to != RaftNodeId(k)
        &&& (x.payload is AppendEntries ==> t.role == Role::Leader && payload_term(x.payload)
            == t.current_term)
        &&& (is_grant(x) ==> (m.payload matches PayloadView::RequestVote(a) && x.to == m.from
            && t.voted_for == Some(a.candidate_id) && payload_term(x.payload) == t.current_term))
    } by {
        lemma_new_messages(c, k, s, t, x);
        let i = choose|i: int| s.outbox.len() <= i < t.outbox.len() && t.outbox[i] == x;
        assert(t.outbox[i].from == s.node_id);
        if x.to == RaftNodeId(k) {
            if x.to == m.from {
                assert(m.from != m.to);
            } else {
                assert(peer_ids(s.peers).contains(k));
                assert(dom.remove(k).contains(k));
            }
        }
    }
    if newly {
        assert(s.role == Role::Candidate);
        assert forall|g: MessageView| #[trigger] d.sent.contains(g) && is_grant(g) implies c.sent.contains(
            g,
        ) by {
            if !c.sent.contains(g) {
                assert(m.payload is RequestVoteReply);
            }
        }
        lemma_new_leader_first(c, d, k, t);
    }
    assert(c.keeps_elections(d));
    // leaders are recorded
    assert forall|j: u64|
        #[trigger] d.nodes.contains_key(j) && d.nodes[j].role == Role::Leader implies d.elected.contains_key(
        d.nodes[j].current_term,
    ) && d.elected[d.nodes[j].current_term].0 == j by {
        if j != k {
            assert(d.nodes[j] == c.nodes[j]);
        }
    }
    // replication requests come from the elected leader
    assert forall|x: MessageView| #[trigger] d.sent.contains(x) && x.payload is AppendEntries implies d.elected.contains_key(
        payload_term(x.payload),
    ) && d.elected[payload_term(x.payload)].0 == x.from.0 by {
        if !c.sent.contains(x) {
            assert(d.nodes.contains_key(k) && d.nodes[k].role == Role::Leader);
        }
    }
    // every recorded election holds
    assert forall|tt: u64| #[trigger] d.elected.contains_key(tt) implies d.election_ok(tt) by {
        let l = d.elected[tt].0;
        let v = d.elected[tt].1;
        if newly && tt == t.current_term {
            t.voters.unique_seq_to_set();
            assert(votes_tallied(t));
            assert(v == t.voters.to_set());
            assert(v.subset_of(peer_ids(t.peers))) by {
                assert forall|x: u64| v.contains(x) implies peer_ids(t.peers).contains(x) by {
                    let i = choose|i: int| 0 <= i < t.voters.len() && t.voters[i] == x;
                    assert(peer_ids(t.peers).contains(t.voters[i]));
                }
            }
            assert forall|x: u64| #[trigger] v.contains(x) implies d.granted(x, RaftNodeId(l), tt) by {
                let i = choose|i: int| 0 <= i < t.voters.len() && t.voters[i] == x;
                assert(d.granted(t.voters[i], t.node_id, t.current_term));
            }
            assert forall|g: MessageView| #[trigger] d.sent.contains(g) && is_grant(g) && g.from.0
                == l implies payload_term(g.payload) != tt by {
                if c.sent.contains(g) && payload_term(g.payload) == tt {
                    assert(c.nodes[g.from.0] == s);
                    assert(s.voted_for == Some(s.node_id));
                    assert(g.from != g.to);
                }
            }
        } else {
            assert(c.elected.contains_key(tt));
            assert(c.election_ok(tt));
            let nl = c.nodes[l];
            assert forall|x: u64| #[trigger] v.contains(x) implies d.granted(x, RaftNodeId(l), tt) by {
                lemma_granted_grows(c, d, x, RaftNodeId(l), tt);
            }
            if l == k {
                if t.current_term == tt {
                    assert(s.current_term == tt);
                    law_step_vote_once_per_term(s, m, nci);
                }
                assert forall|g: MessageView| #[trigger] d.sent.contains(g) && is_grant(g) && g.from.0
                    == l implies payload_term(g.payload) != tt by {
                    if !c.sent.contains(g) && payload_term(g.payload) == tt {
                        if let PayloadView::RequestVote(a) = m.payload {
                            assert(a.candidate_id == m.from);
                        }
                    }
                }
            } else {
                assert(d.nodes[l] == nl);
            }
        }
    }
}

/// Handling a delivered message keeps the logs traced.
proof fn lemma_deliver_logs(c: ClusterView, k: u64, m: MessageView, nci: u64)
    requires
        c.consistent(),
        c.nodes.contains_key(k),
        c.sent.contains(m),
        m.to == RaftNodeId(k),
        c.nodes[k].step_ok(m),
        c.deliver(k, m, nci).members_ok(),
        c.deliver(k, m, nci).elections_ok(),
        c.keeps_elections(c.deliver(k, m, nci)),
    ensures
        c.deliver(k, m, nci).logs_ok(),
{
    let s = c.nodes[k];
    let t = s.step(m, nci);
    let d = c.deliver(k, m, nci);
    let tt = t.current_term;
    lemma_step_sends(s, m, nci);
    lemma_step_roles(s, m, nci);
    crate::laws::law_step_keeps_wf(s, m, nci);
    lemma_step_log(c, k, m, nci);
    assert(d.nodes[k] == t);
    assert(d.nodes.dom() =~= c.nodes.dom());
    let lead = t.role == Role::Leader;
    if lead {
        assert(t.log == s.log);
        if !(s.role == Role::Leader && s.current_term == tt) {
            assert(s.role == Role::Candidate);
            if c.elected.contains_key(tt) {
                assert(c.election_ok(tt));
                assert(d.elected[tt] == c.elected[tt]);
            }
            assert(!c.hist.contains_key(tt));
        } else {
            assert(c.hist[tt] == s.log);
            assert(t.log.take(s.log.len() as int) =~= s.log);
        }
        assert(d.hist == c.hist.insert(tt, t.log));
    } else {
        assert(d.hist == c.hist);
    }
    // every traced log of c stays traced
    assert forall|l: Seq<EntryView>| c.traces(l) implies d.traces(l) by {
        if lead {
            lemma_traces_grow(c, d, tt, t.log, l);
        }
    }
    // the node's own log
    if t.log != s.log {
        if let PayloadView::AppendEntries(a) = m.payload {
            let h = c.hist[a.term];
            lemma_traces_take(c, h, t.log.len() as int);
            assert(well_indexed(t.log)) by {
                assert forall|i: int| 0 <= i < t.log.len() implies #[trigger] t.log[i].index == i + 1 by {
                    assert(t.log[i] == h[i]);
                }
            }
        }
    }
    assert(d.traces(t.log));
    assert forall|j: u64| #[trigger] d.nodes.contains_key(j) implies well_indexed(d.nodes[j].log)
        && d.traces(d.nodes[j].log) && d.nodes[j].wf() && (d.nodes[j].role != Role::Follower
        ==> d.nodes[j].current_term >= 1) by {
        if j != k {
            assert(d.nodes[j] == c.nodes[j]);
        }
    }
    assert forall|x: u64| #[trigger] d.hist.contains_key(x) implies x >= 1 && d.elected.contains_key(x)
        && well_indexed(d.hist[x]) && d.traces(d.hist[x]) by {
        if !(lead && x == tt) {
            assert(c.hist.contains_key(x));
            assert(d.hist[x] == c.hist[x]);
        }
    }
    assert forall|j: u64|
        #[trigger] d.nodes.contains_key(j) && d.nodes[j].role == Role::Leader implies d.hist.contains_key(
        d.nodes[j].current_term,
    ) && d.hist[d.nodes[j].current_term] == d.nodes[j].log by {
        if j != k {
            assert(d.nodes[j] == c.nodes[j]);
            if lead && d.nodes[j].current_term == tt {
                assert(d.elected[tt].0 == k);
                assert(d.elected[tt].0 == j);
            }
        }
    }
    assert forall|x: MessageView| #[trigger] d.sent.contains(x) implies d.fits(x) by {
        if c.sent.contains(x) {
            if lead {
                lemma_fits_grow(c, d, tt, t.log, x);
            }
        } else {
            lemma_new_messages(c, k, s, t, x);
            let i = choose|i: int| s.outbox.len() <= i < t.outbox.len() && t.outbox[i] == x;
            if x.payload is AppendEntries {
                lemma_request_fits(t, x.to);
            }
        }
    }
}

/// Handling a delivered message keeps a cluster consistent.
pub proof fn law_deliver_keeps_consistent(c: ClusterView, k: u64, m: MessageView, nci: u64)
    requires
        c.consistent(),
        c.nodes.contains_key(k),
        c.sent.contains(m),
        m.to == RaftNodeId(k),
        c.nodes[k].step_ok(m),
    ensures
        c.deliver(k, m, nci).consistent(),
        c.keeps_elections(c.deliver(k, m, nci)),
{
    let s = c.nodes[k];
    let t = s.step(m, nci);
    let d = c.deliver(k, m, nci);
    lemma_step_sends(s, m, nci);
    law_step_keeps_votes_tallied(s, m, nci);
    law_step_takes_up_term(s, m, nci);
    lemma_step_roles(s, m, nci);
    assert(d.nodes.dom() =~= c.nodes.dom());
    assert(c.sent.subset_of(d.sent));
    // members
    assert(d.members_ok());
    // what is new was sent by k in this step
    assert forall|x: MessageView| #[trigger] d.sent.contains(x) && !c.sent.contains(x) implies {
        &&& x.from == RaftNodeId(k)
        &&& !(x.payload is RequestVote)
        &&& is_grant(x) ==> (m.payload matches PayloadView::RequestVote(a) && x.to == m.from
            && t.voted_for == Some(a.candidate_id) && payload_term(x.payload) == t.current_term
            && x == t.outbox[s.outbox.len() as int])
    } by {
        lemma_new_messages(c, k, s, t, x);
        let i = choose|i: int| s.outbox.len() <= i < t.outbox.len() && t.outbox[i] == x;
        assert(t.outbox[i].from == s.node_id);
    }
    // sent
    assert forall|x: MessageView| #[trigger] d.sent.contains(x) implies d.nodes.contains_key(x.from.0)
        && (x.payload matches PayloadView::RequestVote(a) ==> a.candidate_id == x.from) by {
        if !c.sent.contains(x) {
        }
    }
    assert forall|j: u64, i: int|
        d.nodes.contains_key(j) && 0 <= i < d.nodes[j].outbox.len() implies d.sent.contains(
        #[trigger] d.nodes[j].outbox[i],
    ) by {
        if j == k {
            assert(t.outbox.to_set().contains(t.outbox[i]));
        } else {
            assert(c.sent.contains(c.nodes[j].outbox[i]));
        }
    }
    assert(d.sent_ok());
    // grants: one candidate per sender and term
    assert forall|m1: MessageView, m2: MessageView|
        #[trigger] d.sent.contains(m1) && #[trigger] d.sent.contains(m2) && is_grant(m1) && is_grant(
            m2,
        ) && m1.from == m2.from && payload_term(m1.payload) == payload_term(m2.payload) implies m1.to
        == m2.to by {
        if c.sent.contains(m1) && c.sent.contains(m2) {
        } else if !c.sent.contains(m1) && !c.sent.contains(m2) {
        } else {
            let (g, e) = if c.sent.contains(m1) {
                (m2, m1)
            } else {
                (m1, m2)
            };
            // g is the new grant from k; e an earlier one in the same term
            assert(c.sent.contains(e));
            assert(e.from.0 == k);
            if let PayloadView::RequestVote(a) = m.payload {
                assert(a.candidate_id == m.from);
            }
            assert(s.current_term == payload_term(e.payload));
            assert(s.voted_for == Some(e.to));
            law_step_vote_once_per_term(s, m, nci);
        }
    }
    assert forall|g: MessageView| #[trigger] d.sent.contains(g) && is_grant(g) implies {
        let n = d.nodes[g.from.0];
        ||| n.current_term > payload_term(g.payload)
        ||| (n.current_term == payload_term(g.payload) && n.voted_for == Some(g.to))
    } by {
        if !c.sent.contains(g) {
            if let PayloadView::RequestVote(a) = m.payload {
                assert(a.candidate_id == m.from);
            }
        } else if g.from.0 == k {
            if s.current_term == payload_term(g.payload) && t.current_term == s.current_term {
                law_step_vote_once_per_term(s, m, nci);
            }
        }
    }
    assert(d.grants_ok());
    // candidates and leaders
    assert forall|j: u64| #[trigger] d.nodes.contains_key(j) implies {
        let n = d.nodes[j];
        &&& votes_tallied(n)
        &&& n.role != Role::Follower ==> n.voted_for == Some(n.node_id)
        &&& n.role != Role::Follower ==> forall|i: int|
            0 <= i < n.voters.len() ==> d.granted(#[trigger] n.voters[i], n.node_id, n.current_term)
        &&& n.role == Role::Leader ==> n.voters.len() + 1 >= quorum(n.peers)
    } by {
        if j == k {
            if t.role != Role::Follower {
                assert forall|i: int| 0 <= i < t.voters.len() implies d.granted(
                    #[trigger] t.voters[i],
                    t.node_id,
                    t.current_term,
                ) by {
                    if i < s.voters.len() {
                        assert(t.voters[i] == s.voters[i]);
                        lemma_granted_grows(c, d, s.voters[i], s.node_id, s.current_term);
                    } else {
                        assert(c.sent.contains(m) && is_grant(m) && m.from.0 == t.voters[i]);
                    }
                }
                if t.role == Role::Leader {
                    if s.role != Role::Leader {
                        law_step_leader_has_majority(s, m, nci);
                        t.voters.unique_seq_to_set();
                    }
                }
            }
        } else {
            let n = c.nodes[j];
            assert(d.nodes[j] == n);
            if n.role != Role::Follower {
                assert forall|i: int| 0 <= i < n.voters.len() implies d.granted(
                    #[trigger] n.voters[i],
                    n.node_id,
                    n.current_term,
                ) by {
                    lemma_granted_grows(c, d, n.voters[i], n.node_id, n.current_term);
                }
            }
        }
    }
    assert(d.candidates_ok());
    lemma_deliver_elections(c, k, m, nci);
    lemma_deliver_logs(c, k, m, nci);
}

/// What a timer tick or a client command sends, beside what was queued:
/// vote requests for the node itself, or replication requests, all from it;
/// no granted votes.
proof fn lemma_local_sends(s: NodeView, timed_out: bool, payload: Seq<u8>)
    requires
        s.role != Role::Leader && timed_out ==> s.current_term < u64::MAX,
    ensures
        ({
            let t = s.on_tick(timed_out);
            &&& t.outbox.len() >= s.outbox.len()
            &&& t.outbox.take(s.outbox.len() as int) == s.outbox
            &&& forall|i: int|
                s.outbox.len() <= i < t.outbox.len() ==> (#[trigger] t.outbox[i]).from == s.node_id
                    && !is_grant(t.outbox[i]) && (t.outbox[i].payload matches PayloadView::RequestVote(
                    a,
                ) ==> a.candidate_id == s.node_id) && (t.outbox[i].payload is RequestVote ==> t.outbox[
                    i].payload == t.vote_request() && t.role == Role::Candidate) && peer_ids(
                    s.peers,
                ).contains(t.outbox[i].to.0)
                    && (t.outbox[i].payload is AppendEntries ==> t.role == Role::Leader
                    && payload_term(t.outbox[i].payload) == t.current_term && t.outbox[i].payload
                    == t.append_entries_to(t.outbox[i].to))
            &&& t.node_id == s.node_id && t.peers == s.peers
        }),
        ({
            let t = s.append_local_entry(payload);
            &&& t.outbox.len() >= s.outbox.len()
            &&& t.outbox.take(s.outbox.len() as int) == s.outbox
            &&& forall|i: int|
                s.outbox.len() <= i < t.outbox.len() ==> (#[trigger] t.outbox[i]).from == s.node_id
                    && t.outbox[i].payload is AppendEntries && peer_ids(s.peers).contains(
                    t.outbox[i].to.0,
                ) && t.role == Role::Leader && payload_term(t.outbox[i].payload) == t.current_term
                    && t.outbox[i].payload == t.append_entries_to(t.outbox[i].to)
            &&& t.node_id == s.node_id && t.peers == s.peers
        }),
{
    let t = s.on_tick(timed_out);
    if s.role != Role::Leader && timed_out {
        assert(t.outbox.take(s.outbox.len() as int) =~= s.outbox);
        assert forall|i: int| s.outbox.len() <= i < t.outbox.len() implies peer_ids(s.peers).contains(
            (#[trigger] t.outbox[i]).to.0,
        ) by {
            assert(t.outbox[i].to == s.peers[i - s.outbox.len()]);
        }
    } else if s.role == Role::Leader {
        lemma_heartbeats_plain(s);
        assert(t.outbox.take(s.outbox.len() as int) =~= s.outbox);
        assert forall|i: int| s.outbox.len() <= i < t.outbox.len() implies (
        #[trigger] t.outbox[i]).payload is AppendEntries && t.outbox[i].from == s.node_id by {
            assert(t.outbox[i] == s.heartbeats()[i - s.outbox.len()]);
        }
    } else {
        assert(t.outbox.take(s.outbox.len() as int) =~= s.outbox);
    }
    let u = s.append_local_entry(payload);
    if s.role == Role::Leader {
        let e = s.next_entry(payload);
        let s2 = NodeView { log: s.log.push(e), ..s.persist_append(e) };
        lemma_heartbeats_plain(s2);
        assert(u.outbox.take(s.outbox.len() as int) =~= s.outbox);
        assert forall|i: int| s.outbox.len() <= i < u.outbox.len() implies (
        #[trigger] u.outbox[i]).payload is AppendEntries && u.outbox[i].from == s.node_id by {
            assert(u.outbox[i] == s2.heartbeats()[i - s.outbox.len()]);
        }
    } else {
        assert(u.outbox.take(s.outbox.len() as int) =~= s.outbox);
    }
}

/// A timer tick or a client command keeps the logs traced.
proof fn lemma_local_logs(c: ClusterView, k: u64, t: NodeView, d: ClusterView, appended: bool, payload: Seq<u8>, timed_out: bool)
    requires
        c.consistent(),
        c.nodes.contains_key(k),
        c.nodes[k].role != Role::Leader && timed_out ==> c.nodes[k].current_term < u64::MAX,
        t == (if appended {
            c.nodes[k].append_local_entry(payload)
        } else {
            c.nodes[k].on_tick(timed_out)
        }),
        d == c.after(k, t),
        d.elections_ok(),
        appended && c.nodes[k].role == Role::Leader ==> last_index_of(c.nodes[k].log) < u64::MAX,
    ensures
        d.logs_ok(),
{
    let s = c.nodes[k];
    let tt = t.current_term;
    lemma_local_sends(s, timed_out, payload);
    crate::laws::law_next_index_positive(s.node_id, s.peers, arbitrary(), s, arbitrary(), 0, timed_out, payload);
    assert(d.nodes[k] == t);
    assert(d.nodes.dom() =~= c.nodes.dom());
    let lead = t.role == Role::Leader;
    assert(lead ==> s.role == Role::Leader && s.current_term == tt);
    if lead {
        assert(c.hist[tt] == s.log);
        if appended {
            let e = s.next_entry(payload);
            assert(t.log == s.log.push(e));
            assert(t.log.take(s.log.len() as int) =~= s.log);
        } else {
            assert(t.log == s.log);
            assert(t.log.take(s.log.len() as int) =~= s.log);
        }
        assert(d.hist == c.hist.insert(tt, t.log));
    } else {
        assert(t.log == s.log);
        assert(d.hist == c.hist);
    }
    assert forall|l: Seq<EntryView>| c.traces(l) implies d.traces(l) by {
        if lead {
            lemma_traces_grow(c, d, tt, t.log, l);
        }
    }
    assert(d.traces(s.log));
    if lead && appended {
        let e = s.next_entry(payload);
        let n = s.log.len() as int;
        assert(well_indexed(t.log)) by {
            assert forall|i: int| 0 <= i < t.log.len() implies #[trigger] t.log[i].index == i + 1 by {
                if i < n {
                    assert(t.log[i] == s.log[i]);
                } else {
                    assert(t.log[i] == e);
                    if n > 0 {
                        assert(s.log[n - 1].index == n);
                        assert(last_index_of(s.log) == n);
                    }
                }
            }
        }
        assert forall|j: int| 0 <= j < t.log.len() implies d.hist.contains_key((#[trigger] t.log[j]).term)
            && j < d.hist[t.log[j].term].len() && t.log.take(j + 1) == d.hist[t.log[j].term].take(
            j + 1,
        ) by {
            if j < n {
                assert(t.log[j] == s.log[j]);
                assert(t.log.take(j + 1) =~= s.log.take(j + 1));
            } else {
                assert(t.log.take(j + 1) =~= t.log);
            }
        }
    }
    assert(d.traces(t.log));
    assert forall|j: u64| #[trigger] d.nodes.contains_key(j) implies well_indexed(d.nodes[j].log)
        && d.traces(d.nodes[j].log) && d.nodes[j].wf() && (d.nodes[j].role != Role::Follower
        ==> d.nodes[j].current_term >= 1) by {
        if j != k {
            assert(d.nodes[j] == c.nodes[j]);
        }
    }
    assert forall|x: u64| #[trigger] d.hist.contains_key(x) implies x >= 1 && d.elected.contains_key(x)
        && well_indexed(d.hist[x]) && d.traces(d.hist[x]) by {
        if !(lead && x == tt) {
            assert(c.hist.contains_key(x));
            assert(d.hist[x] == c.hist[x]);
        } else {
            assert(d.elected == c.elected);
        }
    }
    assert forall|j: u64|
        #[trigger] d.nodes.contains_key(j) && d.nodes[j].role == Role::Leader implies d.hist.contains_key(
        d.nodes[j].current_term,
    ) && d.hist[d.nodes[j].current_term] == d.nodes[j].log by {
        if j != k {
            assert(d.nodes[j] == c.nodes[j]);
            if lead && d.nodes[j].current_term == tt {
                assert(d.elected[tt].0 == k);
                assert(d.elected[tt].0 == j);
            }
        }
    }
    assert forall|x: MessageView| #[trigger] d.sent.contains(x) implies d.fits(x) by {
        if c.sent.contains(x) {
            if lead {
                lemma_fits_grow(c, d, tt, t.log, x);
            }
        } else {
            lemma_new_messages(c, k, s, t, x);
            let i = choose|i: int| s.outbox.len() <= i < t.outbox.len() && t.outbox[i] == x;
            if x.payload is AppendEntries {
                lemma_request_fits(t, x.to);
            }
        }
    }
}

/// A timer tick keeps a cluster consistent (when a node that stands for
/// election can still raise its term).
pub proof fn law_tick_keeps_consistent(c: ClusterView, k: u64, timed_out: bool)
    requires
        c.consistent(),
        c.nodes.contains_key(k),
        c.nodes[k].role != Role::Leader && timed_out ==> c.nodes[k].current_term < u64::MAX,
    ensures
        c.tick(k, timed_out).consistent(),
{
    let s = c.nodes[k];
    let t = s.on_tick(timed_out);
    let d = c.tick(k, timed_out);
    lemma_local_sends(s, timed_out, Seq::empty());
    law_votes_tallied_elsewhere(s.node_id, s.peers, arbitrary(), s, timed_out, Seq::empty());
    assert(d.nodes.dom() =~= c.nodes.dom());
    assert(c.sent.subset_of(d.sent));
    assert(d.members_ok());
    assert forall|x: MessageView| #[trigger] d.sent.contains(x) && !c.sent.contains(x) implies {
        &&& x.from == RaftNodeId(k)
        &&& !is_grant(x)
        &&& (x.payload matches PayloadView::RequestVote(a) ==> a.candidate_id == x.from)
    } by {
        lemma_new_messages(c, k, s, t, x);
        let i = choose|i: int| s.outbox.len() <= i < t.outbox.len() && t.outbox[i] == x;
        assert(t.outbox[i].from == s.node_id);
    }
    assert forall|j: u64, i: int|
        d.nodes.contains_key(j) && 0 <= i < d.nodes[j].outbox.len() implies d.sent.contains(
        #[trigger] d.nodes[j].outbox[i],
    ) by {
        if j == k {
            assert(t.outbox.to_set().contains(t.outbox[i]));
        } else {
            assert(c.sent.contains(c.nodes[j].outbox[i]));
        }
    }
    assert(d.sent_ok());
    assert(d.grants_ok());
    assert forall|j: u64| #[trigger] d.nodes.contains_key(j) implies {
        let n = d.nodes[j];
        &&& votes_tallied(n)
        &&& n.role != Role::Follower ==> n.voted_for == Some(n.node_id)
        &&& n.role != Role::Follower ==> forall|i: int|
            0 <= i < n.voters.len() ==> d.granted(#[trigger] n.voters[i], n.node_id, n.current_term)
        &&& n.role == Role::Leader ==> n.voters.len() + 1 >= quorum(n.peers)
    } by {
        let n = d.nodes[j];
        if n.role != Role::Follower {
            assert forall|i: int| 0 <= i < n.voters.len() implies d.granted(
                #[trigger] n.voters[i],
                n.node_id,
                n.current_term,
            ) by {
                lemma_granted_grows(c, d, n.voters[i], n.node_id, n.current_term);
            }
        }
    }
    assert(d.candidates_ok());
    assert(d.elections_ok());
    lemma_local_logs(c, k, t, d, false, Seq::empty(), timed_out);
}

/// Taking a client command keeps a cluster consistent (when a leader's
/// next index exists).
pub proof fn law_append_keeps_consistent(c: ClusterView, k: u64, payload: Seq<u8>)
    requires
        c.consistent(),
        c.nodes.contains_key(k),
        c.nodes[k].role == Role::Leader ==> last_index_of(c.nodes[k].log) < u64::MAX,
    ensures
        c.append(k, payload).consistent(),
{
    let s = c.nodes[k];
    let t = s.append_local_entry(payload);
    let d = c.append(k, payload);
    lemma_local_sends(s, false, payload);
    law_votes_tallied_elsewhere(s.node_id, s.peers, arbitrary(), s, false, payload);
    assert(d.nodes.dom() =~= c.nodes.dom());
    assert(c.sent.subset_of(d.sent));
    assert(d.members_ok());
    assert forall|x: MessageView| #[trigger] d.sent.contains(x) && !c.sent.contains(x) implies {
        &&& x.from == RaftNodeId(k)
        &&& x.payload is AppendEntries
    } by {
        lemma_new_messages(c, k, s, t, x);
        let i = choose|i: int| s.outbox.len() <= i < t.outbox.len() && t.outbox[i] == x;
        assert(t.outbox[i].from == s.node_id);
    }
    assert forall|j: u64, i: int|
        d.nodes.contains_key(j) && 0 <= i < d.nodes[j].outbox.len() implies d.sent.contains(
        #[trigger] d.nodes[j].outbox[i],
    ) by {
        if j == k {
            assert(t.outbox.to_set().contains(t.outbox[i]));
        } else {
            assert(c.sent.contains(c.nodes[j].outbox[i]));
        }
    }
    assert(d.sent_ok());
    assert(d.grants_ok());
    assert forall|j: u64| #[trigger] d.nodes.contains_key(j) implies {
        let n = d.nodes[j];
        &&& votes_tallied(n)
        &&& n.role != Role::Follower ==> n.voted_for == Some(n.node_id)
        &&& n.role != Role::Follower ==> forall|i: int|
            0 <= i < n.voters.len() ==> d.granted(#[trigger] n.voters[i], n.node_id, n.current_term)
        &&& n.role == Role::Leader ==> n.voters.len() + 1 >= quorum(n.peers)
    } by {
        let n = d.nodes[j];
        if n.role != Role::Follower {
            assert forall|i: int| 0 <= i < n.voters.len() implies d.granted(
                #[trigger] n.voters[i],
                n.node_id,
                n.current_term,
            ) by {
                lemma_granted_grows(c, d, n.voters[i], n.node_id, n.current_term);
            }
        }
    }
    assert(d.candidates_ok());
    assert(d.elections_ok());
    lemma_local_logs(c, k, t, d, true, payload, false);
}

/// Handing queued messages to the network keeps a cluster consistent.
pub proof fn law_drain_keeps_consistent(c: ClusterView, k: u64)
    requires
        c.consistent(),
        c.nodes.contains_key(k),
    ensures
        c.drain(k).consistent(),
        c.keeps_elections(c.drain(k)),
{
    let d = c.drain(k);
    assert(d.nodes.dom() =~= c.nodes.dom());
    assert(d.members_ok());
    assert(d.sent_ok());
    assert(d.grants_ok());
    assert forall|j: u64| #[trigger] d.nodes.contains_key(j) implies {
        let n = d.nodes[j];
        &&& votes_tallied(n)
        &&& n.role != Role::Follower ==> n.voted_for == Some(n.node_id)
        &&& n.role != Role::Follower ==> forall|i: int|
            0 <= i < n.voters.len() ==> d.granted(#[trigger] n.voters[i], n.node_id, n.current_term)
        &&& n.role == Role::Leader ==> n.voters.len() + 1 >= quorum(n.peers)
    } by {
        let n = d.nodes[j];
        if n.role != Role::Follower {
            assert forall|i: int| 0 <= i < n.voters.len() implies d.granted(
                #[trigger] n.voters[i],
                n.node_id,
                n.current_term,
            ) by {
                lemma_granted_grows(c, d, n.voters[i], n.node_id, n.current_term);
            }
        }
    }
    assert(d.candidates_ok());
    assert forall|tt: u64| #[trigger] d.elected.contains_key(tt) implies d.election_ok(tt) by {
        assert(c.election_ok(tt));
        let l = c.elected[tt].0;
        assert(d.nodes[l].current_term == c.nodes[l].current_term);
        assert(d.nodes[l].peers == c.nodes[l].peers);
        assert(d.nodes[l].voted_for == c.nodes[l].voted_for && d.nodes[l].role == c.nodes[l].role);
        assert forall|x: u64| #[trigger] c.elected[tt].1.contains(x) implies d.granted(
            x,
            RaftNodeId(l),
            tt,
        ) by {
            lemma_granted_grows(c, d, x, RaftNodeId(l), tt);
        }
    }
    assert(d.elections_ok());
}

/// Log matching across the cluster: in a consistent cluster, two members'
/// logs that hold entries of one term at one position are equal up to
/// there.
pub proof fn law_logs_match(c: ClusterView, i: u64, j: u64)
    requires
        c.consistent(),
        c.nodes.contains_key(i),
        c.nodes.contains_key(j),
    ensures
        logs_match(c.nodes[i].log, c.nodes[j].log),
{
    lemma_traced_match(c, c.nodes[i].log, c.nodes[j].log);
}

/// In every consistent cluster, every next index a member holds is at
/// least 1, so its replication requests never look before the log.
pub proof fn law_next_indices_positive(c: ClusterView, k: u64)
    requires
        c.consistent(),
        c.nodes.contains_key(k),
    ensures
        c.nodes[k].wf(),
{
}

/// Elections over time: in a consistent cluster every leader is the member
/// recorded as elected in its term, and (by the laws that keep a cluster
/// consistent) no step ever changes that record; so a term has one leader
/// for all time, not only at any one moment.
pub proof fn law_leader_is_recorded(c: ClusterView, k: u64)
    requires
        c.consistent(),
        c.nodes.contains_key(k),
        c.nodes[k].role == Role::Leader,
    ensures
        c.elected.contains_key(c.nodes[k].current_term),
        c.elected[c.nodes[k].current_term].0 == k,
{
}

/// How a cluster may change in one step, as far as commitment is
/// concerned: same members, terms never fall, messages and elections are
/// kept, leaders' logs only grow (by entries of their own term), and a
/// new acknowledgement comes only from a member that could still give it.
pub open spec fn grows(c: ClusterView, d: ClusterView) -> bool {
    &&& d.nodes.dom() == c.nodes.dom()
    &&& forall|z: u64| #[trigger] c.nodes.contains_key(z) ==> d.nodes[z].current_term >= c.nodes[z].current_term
    &&& c.sent.subset_of(d.sent)
    &&& c.keeps_elections(d)
    &&& forall|u: u64| #[trigger] c.hist.contains_key(u) ==> d.hist.contains_key(u) && has_prefix(d.hist[u], c.hist[u])
        && forall|i: int| c.hist[u].len() <= i < d.hist[u].len() ==> (#[trigger] d.hist[u][i]).term == u
    &&& forall|z: u64, tt: u64, n: int|
        #[trigger] d.acked(z, tt, n) && c.nodes.contains_key(z) ==> c.acked(z, tt, n) || c.nodes[z].current_term <= tt
}

proof fn lemma_grow_take(c: ClusterView, d: ClusterView, tt: u64, n: int)
    requires
        grows(c, d),
        c.hist.contains_key(tt),
        0 <= n <= c.hist[tt].len(),
    ensures
        d.hist[tt].take(n) == c.hist[tt].take(n),
        d.hist[tt][n - 1] == c.hist[tt][n - 1] || n == 0,
{
    assert(d.hist[tt].take(c.hist[tt].len() as int) == c.hist[tt]);
    assert(d.hist[tt].take(n) =~= c.hist[tt].take(n)) by {
        assert forall|q: int| 0 <= q < n implies #[trigger] d.hist[tt].take(n)[q] == c.hist[tt].take(n)[q] by {
            assert(d.hist[tt].take(c.hist[tt].len() as int)[q] == c.hist[tt][q]);
        }
    }
    if n > 0 {
        assert(d.hist[tt].take(c.hist[tt].len() as int)[n - 1] == c.hist[tt][n - 1]);
    }
}

proof fn lemma_grow_own(c: ClusterView, d: ClusterView, tt: u64, n: int)
    requires
        grows(c, d),
        c.own_entry(tt, n),
    ensures
        d.own_entry(tt, n),
        d.hist[tt].take(n) == c.hist[tt].take(n),
{
    lemma_grow_take(c, d, tt, n);
}

proof fn lemma_grow_acked(c: ClusterView, d: ClusterView, z: u64, tt: u64, n: int)
    requires
        grows(c, d),
        c.acked(z, tt, n),
    ensures
        d.acked(z, tt, n),
{
    if exists|r: MessageView| #[trigger] c.sent.contains(r) && r.from.0 == z && is_ack(r, tt, n) {
        let r = choose|r: MessageView| #[trigger] c.sent.contains(r) && r.from.0 == z && is_ack(r, tt, n);
        assert(d.sent.contains(r));
    } else {
        assert(d.elected[tt] == c.elected[tt]);
    }
}

proof fn lemma_grow_ackers(c: ClusterView, d: ClusterView, tt: u64, n: int)
    requires
        grows(c, d),
        c.nodes.dom().finite(),
    ensures
        c.ackers(tt, n).subset_of(d.ackers(tt, n)),
        c.ackers(tt, n).len() <= d.ackers(tt, n).len(),
        d.potential(tt, n).subset_of(c.potential(tt, n)),
        d.potential(tt, n).len() <= c.potential(tt, n).len(),
{
    assert forall|z: u64| c.ackers(tt, n).contains(z) implies d.ackers(tt, n).contains(z) by {
        lemma_grow_acked(c, d, z, tt, n);
    }
    assert forall|z: u64| d.potential(tt, n).contains(z) implies c.potential(tt, n).contains(z) by {
        assert(c.nodes.contains_key(z));
    }
    vstd::set_lib::lemma_len_subset(d.ackers(tt, n), d.nodes.dom());
    vstd::set_lib::lemma_len_subset(c.potential(tt, n), c.nodes.dom());
    vstd::set_lib::lemma_len_subset(c.ackers(tt, n), d.ackers(tt, n));
    vstd::set_lib::lemma_len_subset(d.potential(tt, n), c.potential(tt, n));
}

proof fn lemma_grow_committed(c: ClusterView, d: ClusterView, tt: u64, n: int)
    requires
        grows(c, d),
        c.nodes.dom().finite(),
        c.committed(tt, n),
    ensures
        d.committed(tt, n),
        d.hist[tt].take(n) == c.hist[tt].take(n),
{
    lemma_grow_own(c, d, tt, n);
    lemma_grow_ackers(c, d, tt, n);
}

proof fn lemma_grow_covered(c: ClusterView, d: ClusterView, p: Seq<EntryView>, b: u64, b2: u64)
    requires
        grows(c, d),
        c.nodes.dom().finite(),
        c.covered(p, b),
        b <= b2,
    ensures
        d.covered(p, b2),
{
    if p.len() > 0 {
        let (tt, n) = choose|tt: u64, n: int|
            tt <= b && #[trigger] c.committed(tt, n) && n >= p.len() && c.hist[tt].take(p.len() as int) == p;
        lemma_grow_committed(c, d, tt, n);
        lemma_grow_take(c, d, tt, p.len() as int);
        assert(d.committed(tt, n) && n >= p.len() && d.hist[tt].take(p.len() as int) == p);
    }
}

proof fn lemma_grow_blocked(c: ClusterView, d: ClusterView, tt: u64, n: int)
    requires
        grows(c, d),
        c.own_entry(tt, n),
        c.blocked(tt, n),
        forall|u: u64| #[trigger] c.hist.contains_key(u) ==> terms_at_most(c.hist[u], u),
    ensures
        d.blocked(tt, n),
{
    let u = choose|u: u64| #[trigger] c.hist.contains_key(u) && u > tt && !has_prefix(c.hist[u], c.hist[tt].take(n));
    lemma_grow_own(c, d, tt, n);
    let pre = c.hist[tt].take(n);
    let old = c.hist[u];
    let new = d.hist[u];
    assert(d.hist.contains_key(u));
    if has_prefix(new, pre) {
        assert(new.take(old.len() as int) == old);
        if pre.len() <= old.len() {
            assert(old.take(pre.len() as int) =~= new.take(pre.len() as int)) by {
                assert forall|q: int| 0 <= q < pre.len() implies #[trigger] old.take(pre.len() as int)[q]
                    == new.take(pre.len() as int)[q] by {
                    assert(new.take(old.len() as int)[q] == old[q]);
                }
            }
        } else {
            let q = old.len() as int;
            assert(new[q].term == u);
            assert(new.take(pre.len() as int)[q] == pre[q]);
            assert(pre[q] == c.hist[tt][q]);
            assert(c.hist[tt][q].term <= tt);
        }
    }
    assert(!has_prefix(new, d.hist[tt].take(n)));
}

/// What a leader's replication request says of its commit index.
proof fn lemma_request_commit(t: NodeView, peer: RaftNodeId)
    requires
        t.wf(),
        t.commit_index <= t.log.len(),
    ensures
        t.append_entries_to(peer) matches PayloadView::AppendEntries(a) && a.leader_commit
            == t.commit_index && a.term == t.current_term && (a.leader_commit <= a.prev_log_index
            + a.entries.len() || (a.prev_log_index > 0 && a.prev_log_term == 0)),
{
    let nidx = t.next_index_for(peer);
    assert(nidx >= 1) by {
        if t.next_index.contains_key(peer.0) {
        }
    }
}

/// Members of the election of a later term than `tt` are past `tt`: a set
/// of members none of which is among them is short of a majority.
proof fn lemma_outside_later_election(c: ClusterView, u: u64, tt: u64, set: Set<u64>)
    requires
        c.consistent(),
        c.elected.contains_key(u),
        u > tt,
        set.subset_of(c.nodes.dom()),
        forall|z: u64| #[trigger] set.contains(z) ==> c.nodes[z].current_term <= tt,
    ensures
        set.len() < c.majority(),
{
    let dom = c.nodes.dom();
    let l = c.elected[u].0;
    let v = c.elected[u].1;
    assert(c.election_ok(u));
    let q = v.insert(l);
    let nl = c.nodes[l];
    assert(!v.contains(l)) by {
        if v.contains(l) {
            assert(peer_ids(nl.peers).contains(l));
        }
    }
    assert(q.subset_of(dom)) by {
        assert forall|x: u64| q.contains(x) implies dom.contains(x) by {
            if x != l {
                assert(peer_ids(nl.peers).contains(x));
            }
        }
    }
    assert(q.disjoint(set)) by {
        assert forall|x: u64| q.contains(x) implies !set.contains(x) by {
            if x == l {
                assert(nl.current_term >= u);
            } else {
                assert(c.granted(x, RaftNodeId(l), u));
                let g = choose|g: MessageView|
                    #[trigger] c.sent.contains(g) && is_grant(g) && g.from.0 == x && g.to == RaftNodeId(l)
                        && payload_term(g.payload) == u;
                assert(c.nodes[g.from.0].current_term >= u);
            }
        }
    }
    vstd::set_lib::lemma_len_subset(q.union(set), dom);
    vstd::set_lib::lemma_set_disjoint_lens(q, set);
    assert(q.len() == v.len() + 1);
    assert(nl.peers.len() + 1 == dom.len());
}

/// A timer tick or a client command keeps commitment.
#[verifier::rlimit(100)]
proof fn lemma_local_commits(c: ClusterView, k: u64, t: NodeView, d: ClusterView, appended: bool, payload: Seq<u8>, timed_out: bool)
    requires
        c.consistent(),
        c.commits_ok(),
        c.nodes.contains_key(k),
        c.nodes[k].role != Role::Leader && timed_out ==> c.nodes[k].current_term < u64::MAX,
        appended && c.nodes[k].role == Role::Leader ==> last_index_of(c.nodes[k].log) < u64::MAX,
        t == (if appended {
            c.nodes[k].append_local_entry(payload)
        } else {
            c.nodes[k].on_tick(timed_out)
        }),
        d == c.after(k, t),
        d.consistent(),
    ensures
        d.commits_ok(),
{
    let s = c.nodes[k];
    let tt0 = s.current_term;
    let dom = c.nodes.dom();
    lemma_local_sends(s, timed_out, payload);
    assert(d.nodes[k] == t);
    assert(d.nodes.dom() =~= dom);
    assert(c.sent.subset_of(d.sent));
    let lead = s.role == Role::Leader;
    let grew = lead && appended;
    let len = s.log.len() as int;
    assert(lead ==> t.role == Role::Leader && t.current_term == tt0 && c.hist[tt0] == s.log);
    assert(!lead ==> t.role != Role::Leader && d.hist == c.hist && d.elected == c.elected);
    if grew {
        let e = s.next_entry(payload);
        assert(t.log == s.log.push(e));
        assert(d.hist == c.hist.insert(tt0, t.log));
        assert(last_index_of(s.log) == len) by {
            if len > 0 {
                assert(s.log[len - 1].index == len);
            }
        }
    } else {
        assert(t.log == s.log);
        if lead {
            assert(d.hist =~= c.hist);
        }
    }
    assert(d.elected == c.elected);
    assert(c.keeps_elections(d));
    // new messages: vote requests for k's candidacy, or replication requests
    assert forall|x: MessageView| #[trigger] d.sent.contains(x) && !c.sent.contains(x) implies {
        &&& x.from == RaftNodeId(k)
        &&& !(x.payload is AppendEntriesReply)
        &&& !is_grant(x)
        &&& (x.payload is RequestVote ==> x.payload == t.vote_request() && t.role == Role::Candidate)
        &&& (x.payload is AppendEntries ==> t.role == Role::Leader && x.payload == t.append_entries_to(x.to))
    } by {
        lemma_new_messages(c, k, s, t, x);
        let i = choose|i: int| s.outbox.len() <= i < t.outbox.len() && t.outbox[i] == x;
        assert(t.outbox[i].from == s.node_id);
    }
    // acknowledgements only grow, by the leader's own log
    assert forall|z: u64, tt: u64, n: int| #[trigger] d.acked(z, tt, n) && c.nodes.contains_key(z) implies c.acked(
        z,
        tt,
        n,
    ) || c.nodes[z].current_term <= tt by {
        if exists|r: MessageView| #[trigger] d.sent.contains(r) && r.from.0 == z && is_ack(r, tt, n) {
            let r = choose|r: MessageView| #[trigger] d.sent.contains(r) && r.from.0 == z && is_ack(r, tt, n);
            assert(c.sent.contains(r));
        } else if grew && tt == tt0 {
            assert(c.elected[tt0].0 == k);
        }
    }
    assert forall|u: u64| #[trigger] c.hist.contains_key(u) implies d.hist.contains_key(u) && has_prefix(
        d.hist[u],
        c.hist[u],
    ) && forall|i: int| c.hist[u].len() <= i < d.hist[u].len() ==> (#[trigger] d.hist[u][i]).term == u by {
        if grew && u == tt0 {
            assert(t.log.take(len) =~= s.log);
        } else {
            assert(d.hist[u] == c.hist[u]);
            assert(c.hist[u].take(c.hist[u].len() as int) =~= c.hist[u]);
        }
    }
    assert forall|z: u64| #[trigger] c.nodes.contains_key(z) implies d.nodes[z].current_term >= c.nodes[z].current_term by {
        if z != k {
            assert(d.nodes[z] == c.nodes[z]);
        }
    }
    assert(grows(c, d));
    // the clauses
    assert forall|u: u64| #[trigger] d.elected.contains_key(u) implies d.hist.contains_key(u) by {
    }
    assert forall|u: u64| #[trigger] d.hist.contains_key(u) implies terms_sorted(d.hist[u]) && terms_at_most(d.hist[u], u) by {
        if !(grew && u == tt0) {
            assert(d.hist[u] == c.hist[u]);
        } else {
            assert(terms_at_most(s.log, tt0));
        }
    }
    assert forall|j: u64| #[trigger] d.nodes.contains_key(j) implies terms_at_most(d.nodes[j].log, d.nodes[j].current_term) by {
        if j != k {
            assert(d.nodes[j] == c.nodes[j]);
        } else {
            assert(terms_at_most(s.log, tt0));
        }
    }
    assert forall|r: MessageView| #[trigger] d.sent.contains(r) implies d.reply_ok(r) by {
        if c.sent.contains(r) {
            assert(c.reply_ok(r));
            if let PayloadView::AppendEntriesReply(rep) = r.payload {
                if rep.success {
                    assert(c.nodes.contains_key(r.from.0));
                }
            }
        }
    }
    assert forall|m: MessageView| #[trigger] d.sent.contains(m) implies (m.payload matches PayloadView::RequestVote(a)
        ==> d.request_ok(m.from.0, a)) by {
        if let PayloadView::RequestVote(a) = m.payload {
            if c.sent.contains(m) {
                assert(c.request_ok(m.from.0, a));
                if m.from.0 != k {
                    assert(d.nodes[m.from.0] == c.nodes[m.from.0]);
                }
                if c.elected.contains_key(a.term) && c.elected[a.term].0 == m.from.0 {
                    assert(c.hist.contains_key(a.term));
                    if a.last_log_index > 0 {
                        lemma_grow_take(c, d, a.term, a.last_log_index as int);
                    }
                }
            } else {
                assert(m.from == RaftNodeId(k));
                if d.elected.contains_key(a.term) && d.elected[a.term].0 == k {
                    assert(c.election_ok(a.term));
                }
            }
        }
    }
    assert forall|m: MessageView| #[trigger] d.sent.contains(m) implies (m.payload matches PayloadView::AppendEntries(a)
        ==> d.request_commit_ok(a)) by {
        if let PayloadView::AppendEntries(a) = m.payload {
            if c.sent.contains(m) {
                assert(c.request_commit_ok(a));
                assert(c.hist.contains_key(a.term));
                lemma_grow_take(c, d, a.term, a.leader_commit as int);
                lemma_grow_covered(c, d, c.hist[a.term].take(a.leader_commit as int), a.term, a.term);
            } else {
                assert(c.nodes[k].commit_index <= s.log.len());
                lemma_request_commit(t, m.to);
                assert(t.commit_index == s.commit_index);
                assert(c.covered(s.log.take(s.commit_index as int), tt0));
                lemma_grow_covered(c, d, s.log.take(s.commit_index as int), tt0, tt0);
                assert(d.hist[tt0].take(a.leader_commit as int) =~= s.log.take(s.commit_index as int));
            }
        }
    }
    assert forall|g: MessageView| #[trigger] d.sent.contains(g) && is_grant(g) implies d.nodes.contains_key(g.to.0)
        && d.nodes[g.to.0].current_term >= payload_term(g.payload) by {
        assert(c.sent.contains(g));
    }
    assert forall|z: u64, tt: u64, n: int|
        #[trigger] d.nodes.contains_key(z) && #[trigger] d.own_entry(tt, n) && #[trigger] d.acked(z, tt, n)
            implies has_prefix(d.nodes[z].log, d.hist[tt].take(n)) || d.blocked(tt, n) by {
        if grew && z == k && tt == tt0 {
            assert(t.log == d.hist[tt0]);
            assert(t.log.take(n).len() == n);
        } else if c.own_entry(tt, n) {
            lemma_grow_own(c, d, tt, n);
            if c.acked(z, tt, n) {
                assert(c.nodes.contains_key(z) && c.own_entry(tt, n) && c.acked(z, tt, n));
                if has_prefix(c.nodes[z].log, c.hist[tt].take(n)) {
                    if z == k && grew {
                        assert(t.log.take(n) =~= s.log.take(n));
                    } else if z != k {
                        assert(d.nodes[z] == c.nodes[z]);
                    }
                } else {
                    lemma_grow_blocked(c, d, tt, n);
                }
            } else {
                // a new acknowledgement: only k's own, as leader of tt0
                assert(grew && tt == tt0);
            }
        } else {
            // a new own entry: the one just appended, acknowledged by k alone
            assert(grew && tt == tt0 && n == len + 1);
            if exists|r: MessageView| #[trigger] d.sent.contains(r) && r.from.0 == z && is_ack(r, tt, n) {
                let r = choose|r: MessageView| #[trigger] d.sent.contains(r) && r.from.0 == z && is_ack(r, tt, n);
                assert(c.reply_ok(r));
            }
        }
    }
    assert forall|tt: u64, n: int| #[trigger] d.own_entry(tt, n) && #[trigger] d.blocked(tt, n)
        implies d.potential(tt, n).len() < d.majority() by {
        let u = choose|u: u64| #[trigger] d.hist.contains_key(u) && u > tt && !has_prefix(d.hist[u], d.hist[tt].take(n));
        if c.own_entry(tt, n) {
            lemma_grow_own(c, d, tt, n);
            assert(c.hist.contains_key(u));
            if has_prefix(c.hist[u], c.hist[tt].take(n)) {
                assert(c.hist[u].take(c.hist[tt].take(n).len() as int) == c.hist[tt].take(n));
                assert(d.hist[u].take(c.hist[u].len() as int) == c.hist[u]);
                assert(d.hist[u].take(c.hist[tt].take(n).len() as int) =~= c.hist[u].take(c.hist[tt].take(n).len() as int));
            }
            assert(c.blocked(tt, n));
            lemma_grow_ackers(c, d, tt, n);
        } else {
            assert(grew && tt == tt0 && n == len + 1);
            assert(d.potential(tt, n).subset_of(dom));
            assert forall|z: u64| #[trigger] d.potential(tt, n).contains(z) implies d.nodes[z].current_term <= tt by {
                if d.acked(z, tt, n) && !(d.nodes[z].current_term <= tt) {
                    if exists|r: MessageView| #[trigger] d.sent.contains(r) && r.from.0 == z && is_ack(r, tt, n) {
                        let r = choose|r: MessageView| #[trigger] d.sent.contains(r) && r.from.0 == z && is_ack(r, tt, n);
                        assert(c.reply_ok(r));
                    }
                }
            }
            assert(d.elected.contains_key(u));
            lemma_outside_later_election(d, u, tt, d.potential(tt, n));
        }
    }
    assert forall|g: MessageView, tt: u64, n: int|
        #[trigger] d.sent.contains(g) && is_grant(g) && tt < payload_term(g.payload)
            && #[trigger] d.own_entry(tt, n) && #[trigger] d.acked(g.from.0, tt, n) implies d.cand_holds(
        g.to.0,
        payload_term(g.payload),
        tt,
        n,
    ) by {
        let u = payload_term(g.payload);
        let z = g.from.0;
        assert(c.sent.contains(g));
        assert(c.nodes[z].current_term >= u);
        assert(c.own_entry(tt, n) && c.acked(z, tt, n)) by {
            if !c.own_entry(tt, n) {
                assert(grew && tt == tt0);
                assert(z == k);
            }
        }
        assert(c.cand_holds(g.to.0, u, tt, n));
        lemma_grow_own(c, d, tt, n);
        let pre = c.hist[tt].take(n);
        if c.blocked(tt, n) {
            lemma_grow_blocked(c, d, tt, n);
        }
        if d.elected.contains_key(u) && d.elected[u].0 == g.to.0 {
            if has_prefix(c.hist[u], pre) {
                assert(d.hist[u].take(c.hist[u].len() as int) == c.hist[u]);
                assert(d.hist[u].take(pre.len() as int) =~= c.hist[u].take(pre.len() as int));
            }
        }
        if d.nodes[g.to.0].current_term == u && d.nodes[g.to.0].role == Role::Candidate {
            if g.to.0 == k {
                assert(c.nodes[k].current_term >= u);
                assert(s.role == Role::Candidate && s.current_term == u);
            } else {
                assert(d.nodes[g.to.0] == c.nodes[g.to.0]);
            }
        }
    }
    assert forall|j: u64| #[trigger] d.nodes.contains_key(j) implies d.nodes[j].commit_index
        <= d.nodes[j].log.len() && d.covered(d.nodes[j].log.take(d.nodes[j].commit_index as int), d.nodes[j].current_term) by {
        assert(c.nodes.contains_key(j));
        let nj = c.nodes[j];
        assert(c.covered(nj.log.take(nj.commit_index as int), nj.current_term));
        lemma_grow_covered(c, d, nj.log.take(nj.commit_index as int), nj.current_term, d.nodes[j].current_term);
        if j == k && grew {
            assert(t.log.take(s.commit_index as int) =~= s.log.take(s.commit_index as int));
        }
    }
    assert forall|k2: u64, i: int|
        d.nodes.contains_key(k2) && d.nodes[k2].role == Role::Leader && 0 <= i < d.nodes[k2].peers.len()
            implies #[trigger] d.match_acked(k2, i) by {
        assert(c.nodes[k2].role == Role::Leader);
        assert(c.match_acked(k2, i));
        let v = peer_matches(c.nodes[k2].match_index, c.nodes[k2].peers)[i];
        if v != 0 {
            lemma_grow_acked(c, d, c.nodes[k2].peers[i].0, c.nodes[k2].current_term, v as int);
        }
    }
}

/// Taking in entries that the log already holds, term for term, changes
/// nothing.
proof fn lemma_merge_noop(s: NodeView, at: int, entries: Seq<EntryView>)
    requires
        0 <= at,
        at + entries.len() <= s.log.len(),
        forall|j: int| 0 <= j < entries.len() ==> (#[trigger] entries[j]).term == s.log[at + j].term,
    ensures
        s.merge_entries(at, entries).log == s.log,
    decreases entries.len(),
{
    if entries.len() > 0 {
        assert(entries[0].term == s.log[at].term);
        assert forall|j: int| 0 <= j < entries.drop_first().len() implies (#[trigger] entries.drop_first()[j]).term
            == s.log[at + 1 + j].term by {
            assert(entries.drop_first()[j] == entries[j + 1]);
        }
        lemma_merge_noop(s, at + 1, entries.drop_first());
    }
}

/// Taking in entries of a log `h` keeps any start `pre` that both the log
/// and `h` have.
proof fn lemma_merge_keeps(
    f: NodeView,
    at: int,
    entries: Seq<EntryView>,
    h: Seq<EntryView>,
    pre: Seq<EntryView>,
)
    requires
        0 <= at <= f.log.len(),
        f.log.take(at) == h.take(at),
        at + entries.len() <= h.len(),
        entries == h.subrange(at, at + entries.len()),
        logs_match(f.log, h),
        has_prefix(f.log, pre),
        has_prefix(h, pre),
    ensures
        has_prefix(f.merge_entries(at, entries).log, pre),
{
    let m = at + entries.len();
    lemma_merge_from(f, at, entries, f.log, h);
    let r = f.merge_entries(at, entries).log;
    if m <= pre.len() {
        assert forall|j: int| 0 <= j < entries.len() implies (#[trigger] entries[j]).term == f.log[at + j].term by {
            assert(entries[j] == h[at + j]);
            assert(f.log.take(pre.len() as int)[at + j] == pre[at + j]);
            assert(h.take(pre.len() as int)[at + j] == pre[at + j]);
        }
        lemma_merge_noop(f, at, entries);
    } else if r != f.log {
        assert(r == h.take(m));
        assert(r.take(pre.len() as int) =~= h.take(pre.len() as int));
    }
}

/// A start of a covered prefix is covered.
proof fn lemma_covered_take(c: ClusterView, p: Seq<EntryView>, b: u64, j: int)
    requires
        c.covered(p, b),
        0 <= j <= p.len(),
    ensures
        c.covered(p.take(j), b),
{
    if j > 0 {
        let (tt, n) = choose|tt: u64, n: int|
            tt <= b && #[trigger] c.committed(tt, n) && n >= p.len() && c.hist[tt].take(p.len() as int) == p;
        assert(c.hist[tt].take(j) =~= p.take(j));
    }
}

/// A set of members disjoint from a majority is short of one.
proof fn lemma_disjoint_short(c: ClusterView, q: Set<u64>, set: Set<u64>)
    requires
        c.members_ok(),
        q.subset_of(c.nodes.dom()),
        set.subset_of(c.nodes.dom()),
        q.disjoint(set),
        q.len() >= c.majority(),
    ensures
        set.len() < c.majority(),
{
    vstd::set_lib::lemma_len_subset(q.union(set), c.nodes.dom());
    vstd::set_lib::lemma_len_subset(q, c.nodes.dom());
    vstd::set_lib::lemma_set_disjoint_lens(q, set);
}

/// A traced log's terms are those of recorded leaders, at least 1, and
/// never go down.
proof fn lemma_traced_props(c: ClusterView, l: Seq<EntryView>)
    requires
        c.logs_ok(),
        c.commits_ok(),
        c.traces(l),
    ensures
        terms_sorted(l),
        forall|j: int| 0 <= j < l.len() ==> (#[trigger] l[j]).term >= 1 && c.hist.contains_key(l[j].term),
{
    assert forall|i: int, j: int| 0 <= i <= j < l.len() implies (#[trigger] l[i]).term <= (#[trigger] l[j]).term by {
        let h = c.hist[l[j].term];
        assert(l.take(j + 1) == h.take(j + 1));
        assert(l[i] == l.take(j + 1)[i]);
        assert(l[j] == l.take(j + 1)[j]);
        assert(terms_sorted(h));
        assert(h[i].term <= h[j].term);
    }
}

/// A log up to date with respect to a log that holds a start `pre` ending
/// in an entry of term `tt` holds it too, unless a leader of a later term
/// lacks it.
proof fn lemma_up_to_date(c: ClusterView, x: Seq<EntryView>, q: Seq<EntryView>, li: int, lt: u64, tt: u64, n: int)
    requires
        c.logs_ok(),
        c.commits_ok(),
        c.traces(x),
        c.traces(q),
        well_indexed(x),
        c.own_entry(tt, n),
        has_prefix(x, c.hist[tt].take(n)),
        describes(q, li, lt),
        lt > last_term_of(x) || (lt == last_term_of(x) && li >= last_index_of(x)),
    ensures
        has_prefix(q, c.hist[tt].take(n)) || c.blocked(tt, n),
{
    let pre = c.hist[tt].take(n);
    lemma_traced_props(c, x);
    lemma_traced_props(c, q);
    let lx = x.len() as int;
    assert(x[n - 1] == pre[n - 1]);
    assert(x[n - 1].term == tt);
    assert(x[lx - 1].term >= tt);
    assert(last_term_of(x) == x[lx - 1].term);
    assert(last_index_of(x) == lx);
    if lt > last_term_of(x) {
        assert(li > 0);
        let h = c.hist[lt];
        assert(q.take(li) == h.take(li));
        if !has_prefix(h, pre) {
            assert(c.blocked(tt, n));
        } else {
            assert(h[li - 1].term == lt) by {
                assert(q.take(li)[li - 1] == h.take(li)[li - 1]);
            }
            if li - 1 < n {
                assert(h.take(n)[li - 1] == pre[li - 1]);
                assert(pre[li - 1] == c.hist[tt][li - 1]);
                assert(terms_at_most(c.hist[tt], tt));
            }
            assert(q.take(n) =~= pre) by {
                assert forall|j: int| 0 <= j < n implies #[trigger] q.take(n)[j] == pre[j] by {
                    assert(q.take(li)[j] == h.take(li)[j]);
                    assert(h.take(n)[j] == pre[j]);
                }
            }
        }
    } else {
        assert(li >= lx);
        assert(lx >= 1);
        let h = c.hist[lt];
        assert(x.take(lx) == h.take(lx)) by {
            assert(x.take(lx - 1 + 1) == c.hist[x[lx - 1].term].take(lx - 1 + 1));
        }
        assert(q.take(li) == h.take(li)) by {
            assert(q.take(li - 1 + 1) == c.hist[q[li - 1].term].take(li - 1 + 1));
        }
        assert(q.take(n) =~= pre) by {
            assert forall|j: int| 0 <= j < n implies #[trigger] q.take(n)[j] == pre[j] by {
                assert(q.take(li)[j] == h.take(li)[j]);
                assert(x.take(lx)[j] == h.take(lx)[j]);
                assert(x.take(n)[j] == pre[j]);
            }
        }
    }
}

/// A member other than the one that stepped acknowledges nothing new.
proof fn lemma_frame_no_new_ack(c: ClusterView, d: ClusterView, k: u64, t: NodeView, z: u64, tt: u64, n: int)
    requires
        c.consistent(),
        c.commits_ok(),
        d.consistent(),
        c.nodes.contains_key(k),
        d == c.after(k, t),
        grows(c, d),
        d.hist == c.hist || (t.role == Role::Leader && d.hist == c.hist.insert(t.current_term, t.log)
            && (c.hist.contains_key(t.current_term) ==> c.hist[t.current_term] == t.log)),
        forall|x: MessageView| #[trigger] d.sent.contains(x) && !c.sent.contains(x) ==> x.from.0 == k,
        z != k,
        d.own_entry(tt, n),
        d.acked(z, tt, n),
    ensures
        c.own_entry(tt, n),
        c.acked(z, tt, n),
{
    assert(d.nodes[k] == t);
    let changed = d.hist != c.hist && tt == t.current_term;
    if exists|r: MessageView| #[trigger] d.sent.contains(r) && r.from.0 == z && is_ack(r, tt, n) {
        let r = choose|r: MessageView| #[trigger] d.sent.contains(r) && r.from.0 == z && is_ack(r, tt, n);
        assert(c.sent.contains(r));
        assert(c.reply_ok(r));
        assert(c.hist.contains_key(tt));
    } else {
        assert(d.elected[tt].0 == z);
        if changed {
            assert(d.nodes[k].role == Role::Leader);
            assert(d.elected[t.current_term].0 == k);
        }
        assert(c.elected.contains_key(tt)) by {
            if !c.elected.contains_key(tt) {
                assert(d.elected[tt].0 == k);
            }
        }
        assert(c.elected[tt] == d.elected[tt]);
        assert(c.hist.contains_key(tt));
    }
    assert(c.hist.contains_key(tt));
    if changed {
        assert(c.hist[tt] == t.log);
    }
    assert(d.hist[tt] == c.hist[tt]);
}

/// What taking in a replication request does, in a consistent cluster:
/// when accepted, the log then starts with the leader's log up to the last
/// entry sent, keeps every start it shared with the leader's log, and the
/// commit index follows the leader's; otherwise the log and commit index
/// stay.
proof fn lemma_ae_effect(c: ClusterView, k: u64, m: MessageView, nci: u64, a: crate::rpc::AppendEntriesView)
    requires
        c.consistent(),
        c.commits_ok(),
        c.nodes.contains_key(k),
        c.sent.contains(m),
        c.nodes[k].step_ok(m),
        m.payload == PayloadView::AppendEntries(a),
    ensures
        ({
            let s = c.nodes[k];
            let t = s.step(m, nci);
            let s1 = s.observe_term(a.term);
            let f = NodeView { role: Role::Follower, ..s1 };
            let accepted = a.term == s1.current_term && f.prev_matches(a);
            let h = c.hist[a.term];
            let mm = a.prev_log_index + a.entries.len();
            &&& t.current_term == s1.current_term
            &&& t.role == Role::Follower || t == s1.send(m.from, t.outbox.last().payload)
            &&& t.outbox == s.outbox.push(t.outbox.last())
            &&& t.outbox.last().payload matches PayloadView::AppendEntriesReply(rep) && rep.term == t.current_term
                && rep.success == accepted && (accepted ==> rep.match_index == mm)
            &&& !accepted ==> t.log == s.log && t.commit_index == s.commit_index
            &&& accepted ==> {
                &&& c.hist.contains_key(a.term)
                &&& mm <= h.len()
                &&& mm <= t.log.len()
                &&& t.log.take(mm) == h.take(mm)
                &&& a.leader_commit <= mm
                &&& t.commit_index == if a.leader_commit > s.commit_index {
                    if a.leader_commit <= t.log.len() { a.leader_commit } else { t.log.len() as u64 }
                } else {
                    s.commit_index
                }
                &&& forall|pre: Seq<EntryView>| has_prefix(s.log, pre) && has_prefix(h, pre) ==> #[trigger] has_prefix(t.log, pre)
            }
        }),
{
    let s = c.nodes[k];
    let t = s.step(m, nci);
    let s1 = s.observe_term(a.term);
    assert(s1.log == s.log && s1.commit_index == s.commit_index && s1.outbox == s.outbox);
    let f = NodeView { role: Role::Follower, ..s1 };
    let accepted = a.term == s1.current_term && f.prev_matches(a);
    if a.term == s1.current_term {
        if f.prev_matches(a) {
            assert(c.fits(m));
            assert(c.request_commit_ok(a));
            let h = c.hist[a.term];
            let p = a.prev_log_index as int;
            let n = p + a.entries.len();
            lemma_traced_props(c, s.log);
            lemma_merge_fields(f, p, a.entries);
            if p > 0 {
                assert(s.log[p - 1].term >= 1);
            }
            assert(n <= h.len() && a.entries == h.subrange(p, n) && (p > 0 ==> h[p - 1].term == a.prev_log_term));
            assert(c.traces(h));
            lemma_traced_match(c, s.log, h);
            if p > 0 {
                let tp = a.prev_log_term;
                assert(s.log[p - 1].term == tp);
                assert(s.log.take(p) == c.hist[tp].take(p));
                assert(h.take(p) == c.hist[tp].take(p));
            } else {
                assert(s.log.take(0) =~= h.take(0));
            }
            lemma_merge_from(f, p, a.entries, s.log, h);
            let s2 = f.merge_entries(p, a.entries);
            assert(s2.log.take(n) == h.take(n));
            assert forall|pre: Seq<EntryView>| has_prefix(s.log, pre) && has_prefix(h, pre) implies #[trigger] has_prefix(s2.log, pre) by {
                lemma_merge_keeps(f, p, a.entries, h, pre);
            }
            lemma_traced_props(c, h);
            let r = s2.log;
            assert(last_index_of(r) == r.len()) by {
                if r.len() > 0 {
                    if r == s.log {
                    } else {
                        assert(r == h.take(n));
                        assert(r[r.len() - 1] == h[r.len() - 1]);
                    }
                }
            }
        } else {
            assert(t.log == s.log);
        }
    }
    assert(t.outbox =~= s.outbox.push(t.outbox.last()));
}

/// How a delivered message changes the cluster, as far as commitment is
/// concerned.
proof fn lemma_deliver_prelude(c: ClusterView, k: u64, m: MessageView, nci: u64)
    requires
        c.consistent(),
        c.commits_ok(),
        c.nodes.contains_key(k),
        c.sent.contains(m),
        m.to == RaftNodeId(k),
        c.nodes[k].step_ok(m),
    ensures
        ({
            let s = c.nodes[k];
            let t = s.step(m, nci);
            let d = c.deliver(k, m, nci);
            &&& d.consistent()
            &&& d == c.after(k, t)
            &&& d.nodes[k] == t
            &&& t.peers == s.peers
            &&& t.node_id == s.node_id
            &&& grows(c, d)
            &&& d.hist == c.hist || (t.role == Role::Leader && d.hist == c.hist.insert(t.current_term, t.log)
                && (c.hist.contains_key(t.current_term) ==> c.hist[t.current_term] == t.log))
            &&& d.hist != c.hist ==> c.traces(t.log) && !c.hist.contains_key(t.current_term)
                && s.role == Role::Candidate && s.current_term == t.current_term && t.log == s.log
                && m.payload is RequestVoteReply
            &&& forall|x: MessageView| #[trigger] d.sent.contains(x) && !c.sent.contains(x) ==> x.from.0 == k
        }),
{
    let s = c.nodes[k];
    let t = s.step(m, nci);
    let d = c.deliver(k, m, nci);
    law_deliver_keeps_consistent(c, k, m, nci);
    lemma_step_sends(s, m, nci);
    lemma_step_roles(s, m, nci);
    law_step_takes_up_term(s, m, nci);
    lemma_step_log(c, k, m, nci);
    assert(d.nodes[k] == t);
    assert(d.nodes.dom() =~= c.nodes.dom());
    assert(c.sent.subset_of(d.sent));
    let newly = t.role == Role::Leader && !(s.role == Role::Leader && s.current_term == t.current_term);
    if t.role == Role::Leader {
        assert(t.log == s.log);
        if newly {
            assert(s.role == Role::Candidate);
            if c.elected.contains_key(t.current_term) {
                assert(c.election_ok(t.current_term));
                assert(d.elected[t.current_term] == c.elected[t.current_term]);
            }
            assert(!c.hist.contains_key(t.current_term));
            assert(d.hist != c.hist) by {
                assert(d.hist.contains_key(t.current_term));
            }
        } else {
            assert(c.hist[t.current_term] == s.log);
            assert(d.hist =~= c.hist);
        }
    } else {
        assert(d.hist == c.hist);
    }
    assert forall|x: MessageView| #[trigger] d.sent.contains(x) && !c.sent.contains(x) implies x.from.0 == k by {
        lemma_new_messages(c, k, s, t, x);
        let i = choose|i: int| s.outbox.len() <= i < t.outbox.len() && t.outbox[i] == x;
        assert(t.outbox[i].from == s.node_id);
    }
    // grows
    assert forall|z: u64| #[trigger] c.nodes.contains_key(z) implies d.nodes[z].current_term >= c.nodes[z].current_term by {
        if z != k {
            assert(d.nodes[z] == c.nodes[z]);
        }
    }
    assert forall|u: u64| #[trigger] c.hist.contains_key(u) implies d.hist.contains_key(u) && has_prefix(
        d.hist[u],
        c.hist[u],
    ) && forall|i: int| c.hist[u].len() <= i < d.hist[u].len() ==> (#[trigger] d.hist[u][i]).term == u by {
        assert(d.hist[u] == c.hist[u]);
        assert(c.hist[u].take(c.hist[u].len() as int) =~= c.hist[u]);
    }
    assert forall|z: u64, tt: u64, n: int| #[trigger] d.acked(z, tt, n) && c.nodes.contains_key(z) implies c.acked(
        z,
        tt,
        n,
    ) || c.nodes[z].current_term <= tt by {
        if exists|r: MessageView| #[trigger] d.sent.contains(r) && r.from.0 == z && is_ack(r, tt, n) {
            let r = choose|r: MessageView| #[trigger] d.sent.contains(r) && r.from.0 == z && is_ack(r, tt, n);
            if !c.sent.contains(r) {
                lemma_new_messages(c, k, s, t, r);
                let i = choose|i: int| s.outbox.len() <= i < t.outbox.len() && t.outbox[i] == r;
                if let PayloadView::AppendEntries(a) = m.payload {
                    lemma_ae_effect(c, k, m, nci, a);
                    assert(t.outbox[i] == t.outbox.last());
                }
            }
        } else {
            if !(c.elected.contains_key(tt) && c.elected[tt] == d.elected[tt] && c.hist.contains_key(tt)
                && c.hist[tt] == d.hist[tt]) {
                assert(d.elected[tt].0 == k);
            }
        }
    }
    assert(grows(c, d));
}

/// Facts shared by every delivery on member `k`'s own unchanged log and
/// commit index, and on grants to `k` and `k`'s own vote requests, when the
/// step leaves `k`'s log, commit index and candidacy as they were.
proof fn lemma_deliver_same_log(c: ClusterView, k: u64, m: MessageView, nci: u64)
    requires
        c.consistent(),
        c.commits_ok(),
        c.nodes.contains_key(k),
        c.sent.contains(m),
        m.to == RaftNodeId(k),
        c.nodes[k].step_ok(m),
        c.nodes[k].step(m, nci).log == c.nodes[k].log,
        c.nodes[k].step(m, nci).commit_index == c.nodes[k].commit_index,
    ensures
        ({
            let s = c.nodes[k];
            let t = s.step(m, nci);
            let d = c.deliver(k, m, nci);
            &&& terms_at_most(t.log, t.current_term)
            &&& t.commit_index <= t.log.len()
            &&& d.covered(t.log.take(t.commit_index as int), t.current_term)
            &&& forall|tt: u64, n: int|
                #[trigger] d.own_entry(tt, n) && #[trigger] d.acked(k, tt, n) && c.own_entry(tt, n)
                    && c.acked(k, tt, n) ==> has_prefix(t.log, d.hist[tt].take(n)) || d.blocked(tt, n)
            &&& forall|g: MessageView, tt: u64, n: int|
                #[trigger] c.sent.contains(g) && is_grant(g) && g.to.0 == k && tt < payload_term(g.payload)
                    && #[trigger] d.own_entry(tt, n) && #[trigger] d.acked(g.from.0, tt, n) ==> d.cand_holds(
                    k,
                    payload_term(g.payload),
                    tt,
                    n,
                )
            &&& forall|mm: MessageView| #[trigger] c.sent.contains(mm) && mm.from.0 == k ==> (mm.payload matches PayloadView::RequestVote(a)
                ==> d.request_ok(k, a))
        }),
{
    let s = c.nodes[k];
    let t = s.step(m, nci);
    let d = c.deliver(k, m, nci);
    lemma_deliver_prelude(c, k, m, nci);
    lemma_step_roles(s, m, nci);
    law_step_takes_up_term(s, m, nci);
    assert(terms_at_most(s.log, s.current_term));
    assert(c.covered(s.log.take(s.commit_index as int), s.current_term));
    lemma_grow_covered(c, d, s.log.take(s.commit_index as int), s.current_term, t.current_term);
    assert forall|tt: u64, n: int|
        #[trigger] d.own_entry(tt, n) && #[trigger] d.acked(k, tt, n) && c.own_entry(tt, n) && c.acked(k, tt, n)
            implies has_prefix(t.log, d.hist[tt].take(n)) || d.blocked(tt, n) by {
        assert(c.nodes.contains_key(k) && c.own_entry(tt, n) && c.acked(k, tt, n));
        lemma_grow_own(c, d, tt, n);
        if !has_prefix(s.log, c.hist[tt].take(n)) {
            lemma_grow_blocked(c, d, tt, n);
        }
    }
    assert forall|g: MessageView, tt: u64, n: int|
        #[trigger] c.sent.contains(g) && is_grant(g) && g.to.0 == k && tt < payload_term(g.payload)
            && #[trigger] d.own_entry(tt, n) && #[trigger] d.acked(g.from.0, tt, n) implies d.cand_holds(
        k,
        payload_term(g.payload),
        tt,
        n,
    ) by {
        let u = payload_term(g.payload);
        let z = g.from.0;
        assert(c.nodes[z].current_term >= u);
        if !(c.own_entry(tt, n) && c.acked(z, tt, n)) {
            if z != k {
                lemma_frame_no_new_ack(c, d, k, t, z, tt, n);
            } else {
                assert(g.from != g.to);
            }
        }
        assert(c.sent.contains(g) && c.own_entry(tt, n) && c.acked(z, tt, n));
        assert(c.cand_holds(k, u, tt, n));
        lemma_grow_own(c, d, tt, n);
        let pre = c.hist[tt].take(n);
        if c.blocked(tt, n) {
            lemma_grow_blocked(c, d, tt, n);
        }
        if d.elected.contains_key(u) && d.elected[u].0 == k {
            if c.elected.contains_key(u) {
                assert(c.hist.contains_key(u));
                if has_prefix(c.hist[u], pre) {
                    assert(d.hist[u].take(c.hist[u].len() as int) == c.hist[u]);
                    assert(d.hist[u].take(pre.len() as int) =~= c.hist[u].take(pre.len() as int));
                }
            } else {
                assert(s.role == Role::Candidate && s.current_term == u);
                assert(d.hist[u] == t.log);
            }
        }
    }
    assert forall|mm: MessageView| #[trigger] c.sent.contains(mm) && mm.from.0 == k implies (mm.payload matches PayloadView::RequestVote(a)
        ==> d.request_ok(k, a)) by {
        if let PayloadView::RequestVote(a) = mm.payload {
            assert(c.request_ok(k, a));
            if c.elected.contains_key(a.term) && c.elected[a.term].0 == k {
                assert(c.hist.contains_key(a.term));
                if a.last_log_index > 0 {
                    lemma_grow_take(c, d, a.term, a.last_log_index as int);
                }
            }
            if d.elected.contains_key(a.term) && d.elected[a.term].0 == k && !c.elected.contains_key(a.term) {
                assert(s.role == Role::Candidate && s.current_term == a.term);
                assert(d.hist[a.term] == s.log);
                lemma_traced_props(c, s.log);
                if s.log.len() > 0 {
                    assert(s.log[s.log.len() - 1].index == s.log.len());
                }
            }
        }
    }
}

/// With the leaders' logs unchanged and no new acknowledgement, own
/// entries, acknowledgements and blocking are as they were.
proof fn lemma_same_hist(c: ClusterView, d: ClusterView, tt: u64, n: int, z: u64)
    requires
        grows(c, d),
        d.hist == c.hist,
        d.elected == c.elected,
        forall|r: MessageView| #[trigger] d.sent.contains(r) && !c.sent.contains(r) ==> !(r.payload is AppendEntriesReply),
    ensures
        d.own_entry(tt, n) == c.own_entry(tt, n),
        d.blocked(tt, n) == c.blocked(tt, n),
        d.acked(z, tt, n) == c.acked(z, tt, n),
{
    if d.acked(z, tt, n) {
        if exists|r: MessageView| #[trigger] d.sent.contains(r) && r.from.0 == z && is_ack(r, tt, n) {
            let r = choose|r: MessageView| #[trigger] d.sent.contains(r) && r.from.0 == z && is_ack(r, tt, n);
            assert(c.sent.contains(r));
        }
    }
    if c.acked(z, tt, n) {
        lemma_grow_acked(c, d, z, tt, n);
    }
}

/// Delivering a vote request keeps commitment.
proof fn lemma_deliver_rv_commits(c: ClusterView, k: u64, m: MessageView, nci: u64, a: crate::rpc::RequestVoteArgs)
    requires
        c.consistent(),
        c.commits_ok(),
        c.nodes.contains_key(k),
        c.sent.contains(m),
        m.to == RaftNodeId(k),
        c.nodes[k].step_ok(m),
        m.payload == PayloadView::RequestVote(a),
    ensures
        c.deliver(k, m, nci).commits_ok(),
{
    let s = c.nodes[k];
    let t = s.step(m, nci);
    let d = c.deliver(k, m, nci);
    lemma_deliver_prelude(c, k, m, nci);
    let s1 = s.observe_term(a.term);
    assert(s1.log == s.log && s1.commit_index == s.commit_index && s1.outbox == s.outbox);
    assert(t.log == s.log && t.commit_index == s.commit_index);
    lemma_deliver_same_log(c, k, m, nci);
    lemma_step_roles(s, m, nci);
    assert(d.hist == c.hist);
    assert(d.elected == c.elected) by {
        assert(c.keeps_elections(d));
        assert(t.role == Role::Leader ==> s.role == Role::Leader);
        assert(d.elected =~= c.elected);
    }
    let x = t.outbox.last();
    assert(t.outbox == s.outbox.push(x));
    let granted = s1.grants_vote(a);
    assert(x == MessageView {
        from: s.node_id,
        to: m.from,
        payload: PayloadView::RequestVoteReply(crate::rpc::RequestVoteReply { term: s1.current_term, vote_granted: granted }),
    });
    lemma_step_sends(s, m, nci);
    assert forall|r: MessageView| #[trigger] d.sent.contains(r) && !c.sent.contains(r) implies r == x by {
        lemma_new_messages(c, k, s, t, r);
    }
    assert forall|r: MessageView| #[trigger] d.sent.contains(r) && !c.sent.contains(r) implies !(r.payload is AppendEntriesReply) by {
    }
    // the reply, if a grant, stands with what its sender acknowledged
    assert(c.request_ok(m.from.0, a));
    if granted {
        let cand = m.from.0;
        assert(a.candidate_id == m.from);
        assert(cand != k);
        assert(d.nodes[cand] == c.nodes[cand]);
        assert forall|tt: u64, n: int|
            tt < payload_term(x.payload) && #[trigger] d.own_entry(tt, n) && #[trigger] d.acked(x.from.0, tt, n)
                implies d.cand_holds(x.to.0, payload_term(x.payload), tt, n) by {
            lemma_same_hist(c, d, tt, n, k);
            assert(c.nodes.contains_key(k) && c.own_entry(tt, n) && c.acked(k, tt, n));
            let pre = c.hist[tt].take(n);
            if !c.blocked(tt, n) {
                assert(has_prefix(s.log, pre));
                let u = a.term;
                if c.nodes[cand].current_term == u && c.nodes[cand].role == Role::Candidate {
                    let q = c.nodes[cand].log;
                    lemma_traced_props(c, q);
                    if q.len() > 0 {
                        assert(q[q.len() - 1].index == q.len());
                    }
                    lemma_up_to_date(c, s.log, q, a.last_log_index as int, a.last_log_term, tt, n);
                }
                if c.elected.contains_key(u) && c.elected[u].0 == cand {
                    assert(c.hist.contains_key(u));
                    lemma_up_to_date(c, s.log, c.hist[u], a.last_log_index as int, a.last_log_term, tt, n);
                }
            }
        }
    }
    assert forall|y: MessageView| #[trigger] d.sent.contains(y) && !c.sent.contains(y) implies {
        &&& y.from.0 == k
        &&& d.reply_ok(y)
        &&& (y.payload matches PayloadView::RequestVote(a2) ==> d.request_ok(y.from.0, a2))
        &&& (y.payload matches PayloadView::AppendEntries(a2) ==> d.request_commit_ok(a2))
        &&& (is_grant(y) ==> d.nodes.contains_key(y.to.0) && d.nodes[y.to.0].current_term
            >= payload_term(y.payload) && forall|tt: u64, n: int|
            tt < payload_term(y.payload) && #[trigger] d.own_entry(tt, n) && #[trigger] d.acked(y.from.0, tt, n)
                ==> d.cand_holds(y.to.0, payload_term(y.payload), tt, n))
    } by {
        assert(y == x);
    }
    assert(t.role == Role::Leader ==> s.role == Role::Leader && t.match_index == s.match_index && t.current_term == s.current_term);
    if t.role == Role::Leader {
        assert forall|i: int| 0 <= i < t.peers.len() implies #[trigger] d.match_acked(k, i) by {
            assert(c.match_acked(k, i));
            let v = peer_matches(s.match_index, s.peers)[i];
            if v != 0 {
                lemma_grow_acked(c, d, s.peers[i].0, s.current_term, v as int);
            }
        }
    }
    assert forall|tt: u64, n: int|
        #[trigger] d.own_entry(tt, n) && #[trigger] d.acked(k, tt, n) implies has_prefix(t.log, d.hist[tt].take(n))
            || d.blocked(tt, n) by {
        lemma_same_hist(c, d, tt, n, k);
    }
    assert forall|tt: u64, n: int|
        #[trigger] d.own_entry(tt, n) && #[trigger] d.blocked(tt, n) && !(c.own_entry(tt, n) && c.blocked(tt, n))
            implies d.potential(tt, n).len() < d.majority() by {
        lemma_same_hist(c, d, tt, n, k);
    }
    lemma_frame_commits(c, d, k, t);
}

/// The just-elected leader of a term lacks only what can no longer win a
/// majority.
proof fn lemma_new_leader_blocks(c: ClusterView, k: u64, m: MessageView, nci: u64, tt: u64, n: int)
    requires
        c.consistent(),
        c.commits_ok(),
        c.nodes.contains_key(k),
        c.sent.contains(m),
        m.to == RaftNodeId(k),
        c.nodes[k].step_ok(m),
        c.deliver(k, m, nci).hist != c.hist,
        c.own_entry(tt, n),
        !c.blocked(tt, n),
        tt < c.nodes[k].step(m, nci).current_term,
        !has_prefix(c.nodes[k].log, c.hist[tt].take(n)),
    ensures
        c.deliver(k, m, nci).potential(tt, n).len() < c.deliver(k, m, nci).majority(),
{
    let s = c.nodes[k];
    let t = s.step(m, nci);
    let d = c.deliver(k, m, nci);
    let u = t.current_term;
    lemma_deliver_prelude(c, k, m, nci);
    lemma_step_sends(s, m, nci);
    let dom = d.nodes.dom();
    let q = t.voters.to_set().insert(k);
    assert(d.nodes.contains_key(k));
    assert(votes_tallied(t));
    assert(t.role == Role::Leader);
    t.voters.unique_seq_to_set();
    assert(!t.voters.to_set().contains(k)) by {
        if t.voters.to_set().contains(k) {
            let i = choose|i: int| 0 <= i < t.voters.len() && t.voters[i] == k;
            assert(peer_ids(t.peers).contains(t.voters[i]));
            assert(dom.remove(k).contains(k));
        }
    }
    assert(q.subset_of(dom)) by {
        assert forall|x: u64| q.contains(x) implies dom.contains(x) by {
            if x != k {
                let i = choose|i: int| 0 <= i < t.voters.len() && t.voters[i] == x;
                assert(peer_ids(t.peers).contains(t.voters[i]));
                assert(dom.remove(k).contains(x));
            }
        }
    }
    assert(q.len() >= d.majority()) by {
        assert(t.voters.len() + 1 >= quorum(t.peers));
        assert(t.peers.len() + 1 == dom.len());
    }
    assert(d.potential(tt, n).subset_of(dom));
    assert(q.disjoint(d.potential(tt, n))) by {
        assert forall|z: u64| q.contains(z) implies !d.potential(tt, n).contains(z) by {
            if d.potential(tt, n).contains(z) {
                if z == k {
                    assert(d.nodes[k].current_term == u);
                    assert(c.nodes[k].current_term == u);
                    assert(c.acked(k, tt, n));
                    assert(c.nodes.contains_key(k) && c.own_entry(tt, n) && c.acked(k, tt, n));
                } else {
                    let i = choose|i: int| 0 <= i < t.voters.len() && t.voters[i] == z;
                    assert(d.granted(t.voters[i], t.node_id, u));
                    let g = choose|g: MessageView|
                        #[trigger] d.sent.contains(g) && is_grant(g) && g.from.0 == t.voters[i] && g.to
                            == t.node_id && payload_term(g.payload) == u;
                    assert(c.sent.contains(g)) by {
                        if !c.sent.contains(g) {
                            lemma_new_messages(c, k, s, t, g);
                        }
                    }
                    assert(c.nodes[z].current_term >= u);
                    assert(d.nodes[z] == c.nodes[z]);
                    assert(c.acked(z, tt, n));
                    assert(c.sent.contains(g) && c.own_entry(tt, n) && c.acked(g.from.0, tt, n));
                    assert(c.cand_holds(k, u, tt, n));
                    lemma_step_roles(s, m, nci);
                }
            }
        }
    }
    lemma_disjoint_short(d, q, d.potential(tt, n));
}

/// Delivering a vote reply keeps commitment.
proof fn lemma_deliver_rvr_commits(c: ClusterView, k: u64, m: MessageView, nci: u64, r: crate::rpc::RequestVoteReply)
    requires
        c.consistent(),
        c.commits_ok(),
        c.nodes.contains_key(k),
        c.sent.contains(m),
        m.to == RaftNodeId(k),
        c.nodes[k].step_ok(m),
        m.payload == PayloadView::RequestVoteReply(r),
    ensures
        c.deliver(k, m, nci).commits_ok(),
{
    let s = c.nodes[k];
    let t = s.step(m, nci);
    let d = c.deliver(k, m, nci);
    lemma_deliver_prelude(c, k, m, nci);
    lemma_step_sends(s, m, nci);
    lemma_step_roles(s, m, nci);
    let s1 = s.observe_term(r.term);
    assert(s1.log == s.log && s1.commit_index == s.commit_index && s1.outbox == s.outbox);
    assert(t.log == s.log && t.commit_index == s.commit_index);
    lemma_deliver_same_log(c, k, m, nci);
    let newly = d.hist != c.hist;
    let tt0 = t.current_term;
    assert(d.nodes.contains_key(k) && d.nodes[k].role == Role::Leader ==> t.wf());
    // new messages are replication requests of a new leader
    assert forall|y: MessageView| #[trigger] d.sent.contains(y) && !c.sent.contains(y) implies {
        &&& y.from.0 == k
        &&& d.reply_ok(y)
        &&& (y.payload matches PayloadView::RequestVote(a2) ==> d.request_ok(y.from.0, a2))
        &&& (y.payload matches PayloadView::AppendEntries(a2) ==> d.request_commit_ok(a2))
        &&& (is_grant(y) ==> d.nodes.contains_key(y.to.0) && d.nodes[y.to.0].current_term
            >= payload_term(y.payload) && forall|tt: u64, n: int|
            tt < payload_term(y.payload) && #[trigger] d.own_entry(tt, n) && #[trigger] d.acked(y.from.0, tt, n)
                ==> d.cand_holds(y.to.0, payload_term(y.payload), tt, n))
    } by {
        lemma_new_messages(c, k, s, t, y);
        let i = choose|i: int| s.outbox.len() <= i < t.outbox.len() && t.outbox[i] == y;
        assert(t.outbox[i].payload is AppendEntries);
        assert(d.nodes.contains_key(k));
        lemma_request_commit(t, y.to);
        assert(d.hist[tt0] == t.log);
        assert(t.log.take(t.commit_index as int) == d.hist[tt0].take(t.commit_index as int));
    }
    if t.role == Role::Leader {
        assert forall|i: int| 0 <= i < t.peers.len() implies #[trigger] d.match_acked(k, i) by {
            if s.role == Role::Leader {
                assert(t.match_index == s.match_index);
                assert(c.match_acked(k, i));
                let v = peer_matches(s.match_index, s.peers)[i];
                if v != 0 {
                    lemma_grow_acked(c, d, s.peers[i].0, s.current_term, v as int);
                }
            } else {
                assert(crate::protocol::for_peers(t.peers, 0).contains_key(t.peers[i].0)) by {
                    assert(peer_ids(t.peers).contains(t.peers[i].0));
                }
                assert(peer_matches(t.match_index, t.peers)[i] == 0);
            }
        }
    }
    assert forall|tt: u64, n: int|
        #[trigger] d.own_entry(tt, n) && #[trigger] d.acked(k, tt, n) implies has_prefix(t.log, d.hist[tt].take(n))
            || d.blocked(tt, n) by {
        if newly && tt == tt0 {
            assert(d.hist[tt0] == t.log);
            assert(t.log.take(n).len() == n);
            assert(t.log.take(t.log.take(n).len() as int) == t.log.take(n));
        } else {
            assert(d.hist[tt] == c.hist[tt] || !c.hist.contains_key(tt));
            assert(c.own_entry(tt, n));
            if !c.acked(k, tt, n) {
                if exists|rr: MessageView| #[trigger] d.sent.contains(rr) && rr.from.0 == k && is_ack(rr, tt, n) {
                    let rr = choose|rr: MessageView| #[trigger] d.sent.contains(rr) && rr.from.0 == k && is_ack(rr, tt, n);
                    if !c.sent.contains(rr) {
                        lemma_new_messages(c, k, s, t, rr);
                    }
                } else {
                    assert(c.elected[tt] == d.elected[tt]);
                }
            }
        }
    }
    assert forall|tt: u64, n: int|
        #[trigger] d.own_entry(tt, n) && #[trigger] d.blocked(tt, n) && !(c.own_entry(tt, n) && c.blocked(tt, n))
            implies d.potential(tt, n).len() < d.majority() by {
        assert(newly) by {
            if !newly {
                assert(d.hist == c.hist);
            }
        }
        if tt == tt0 {
            assert(t.log[n - 1].term == tt0);
            lemma_traced_props(c, t.log);
        }
        assert(c.own_entry(tt, n));
        let u = choose|u: u64| #[trigger] d.hist.contains_key(u) && u > tt && !has_prefix(d.hist[u], d.hist[tt].take(n));
        if u != tt0 {
            assert(c.blocked(tt, n));
        }
        assert(!c.blocked(tt, n));
        lemma_new_leader_blocks(c, k, m, nci, tt, n);
    }
    lemma_frame_commits(c, d, k, t);
}

/// Grants to a member and its vote requests stay answered for when its
/// step changes no leader's log and its log only while it is no candidate.
proof fn lemma_deliver_cand(c: ClusterView, k: u64, m: MessageView, nci: u64)
    requires
        c.consistent(),
        c.commits_ok(),
        c.nodes.contains_key(k),
        c.sent.contains(m),
        m.to == RaftNodeId(k),
        c.nodes[k].step_ok(m),
        c.deliver(k, m, nci).hist == c.hist,
        c.nodes[k].step(m, nci).role == Role::Candidate ==> c.nodes[k].step(m, nci).log == c.nodes[k].log,
    ensures
        ({
            let s = c.nodes[k];
            let t = s.step(m, nci);
            let d = c.deliver(k, m, nci);
            &&& forall|g: MessageView, tt: u64, n: int|
                #[trigger] c.sent.contains(g) && is_grant(g) && g.to.0 == k && tt < payload_term(g.payload)
                    && #[trigger] d.own_entry(tt, n) && #[trigger] d.acked(g.from.0, tt, n) ==> d.cand_holds(
                    k,
                    payload_term(g.payload),
                    tt,
                    n,
                )
            &&& forall|mm: MessageView| #[trigger] c.sent.contains(mm) && mm.from.0 == k ==> (mm.payload matches PayloadView::RequestVote(a)
                ==> d.request_ok(k, a))
        }),
{
    let s = c.nodes[k];
    let t = s.step(m, nci);
    let d = c.deliver(k, m, nci);
    lemma_deliver_prelude(c, k, m, nci);
    lemma_step_roles(s, m, nci);
    law_step_takes_up_term(s, m, nci);
    assert(d.elected =~= c.elected) by {
        assert forall|u: u64| #[trigger] d.elected.contains_key(u) implies c.elected.contains_key(u) by {
            if !c.elected.contains_key(u) {
                assert(d.elected[u].0 == k);
                assert(d.hist.contains_key(u));
            }
        }
    }
    assert forall|g: MessageView, tt: u64, n: int|
        #[trigger] c.sent.contains(g) && is_grant(g) && g.to.0 == k && tt < payload_term(g.payload)
            && #[trigger] d.own_entry(tt, n) && #[trigger] d.acked(g.from.0, tt, n) implies d.cand_holds(
        k,
        payload_term(g.payload),
        tt,
        n,
    ) by {
        let u = payload_term(g.payload);
        let z = g.from.0;
        assert(c.nodes[z].current_term >= u);
        if !(c.own_entry(tt, n) && c.acked(z, tt, n)) {
            if z != k {
                lemma_frame_no_new_ack(c, d, k, t, z, tt, n);
            } else {
                assert(g.from != g.to);
            }
        }
        assert(c.sent.contains(g) && c.own_entry(tt, n) && c.acked(z, tt, n));
        assert(c.cand_holds(k, u, tt, n));
    }
    assert forall|mm: MessageView| #[trigger] c.sent.contains(mm) && mm.from.0 == k implies (mm.payload matches PayloadView::RequestVote(a)
        ==> d.request_ok(k, a)) by {
        if let PayloadView::RequestVote(a) = mm.payload {
            assert(c.request_ok(k, a));
        }
    }
}

/// Taking in a replication request leaves the member's committed prefix
/// committed.
#[verifier::rlimit(100)]
proof fn lemma_ae_commit_part(c: ClusterView, k: u64, m: MessageView, nci: u64, a: crate::rpc::AppendEntriesView)
    requires
        c.consistent(),
        c.commits_ok(),
        c.nodes.contains_key(k),
        c.sent.contains(m),
        m.to == RaftNodeId(k),
        c.nodes[k].step_ok(m),
        m.payload == PayloadView::AppendEntries(a),
    ensures
        ({
            let t = c.nodes[k].step(m, nci);
            let d = c.deliver(k, m, nci);
            &&& terms_at_most(t.log, t.current_term)
            &&& t.commit_index <= t.log.len()
            &&& d.covered(t.log.take(t.commit_index as int), t.current_term)
        }),
{
    let s = c.nodes[k];
    let t = s.step(m, nci);
    let d = c.deliver(k, m, nci);
    lemma_deliver_prelude(c, k, m, nci);
    lemma_step_sends(s, m, nci);
    lemma_step_roles(s, m, nci);
    law_step_takes_up_term(s, m, nci);
    lemma_ae_effect(c, k, m, nci, a);
    let s1 = s.observe_term(a.term);
    let f = NodeView { role: Role::Follower, ..s1 };
    let accepted = a.term == s1.current_term && f.prev_matches(a);
    let h = c.hist[a.term];
    let mm = a.prev_log_index + a.entries.len();
    assert(d.hist == c.hist);
    // k's own log and commit index
    assert(terms_at_most(t.log, t.current_term)) by {
        if accepted {
            assert(c.hist.contains_key(a.term));
            assert(terms_at_most(h, a.term));
            assert forall|i: int| 0 <= i < t.log.len() implies (#[trigger] t.log[i]).term <= t.current_term by {
                if t.log != s.log {
                    lemma_step_log(c, k, m, nci);
                    assert(t.log[i] == h[i]);
                } else {
                    assert(terms_at_most(s.log, s.current_term));
                }
            }
        } else {
            assert(terms_at_most(s.log, s.current_term));
        }
    }
    let p0 = s.log.take(s.commit_index as int);
    assert(c.covered(p0, s.current_term));
    lemma_grow_covered(c, d, p0, s.current_term, t.current_term);
    if accepted {
        // the committed prefix is kept
        assert(has_prefix(s.log, p0));
        assert(has_prefix(h, p0)) by {
            if p0.len() > 0 {
                let (tt0, n0) = choose|tt: u64, n: int|
                    tt <= s.current_term && #[trigger] c.committed(tt, n) && n >= p0.len() && c.hist[tt].take(p0.len() as int) == p0;
                if tt0 < a.term {
                    law_committed_in_later_leaders(c, tt0, n0, a.term);
                    assert(h.take(p0.len() as int) =~= h.take(n0).take(p0.len() as int));
                    assert(c.hist[tt0].take(p0.len() as int) =~= c.hist[tt0].take(n0).take(p0.len() as int));
                }
            } else {
                assert(h.take(0) =~= p0);
            }
        }
        assert(has_prefix(t.log, p0));
        if a.leader_commit > s.commit_index {
            let c1 = t.commit_index as int;
            assert(c.request_commit_ok(a));
            lemma_covered_take(c, h.take(a.leader_commit as int), a.term, c1);
            assert(h.take(a.leader_commit as int).take(c1) =~= h.take(c1));
            assert(t.log.take(c1) =~= h.take(c1)) by {
                assert(t.log.take(mm).take(c1) =~= t.log.take(c1));
                assert(h.take(mm).take(c1) =~= h.take(c1));
            }
            lemma_grow_covered(c, d, h.take(c1), a.term, t.current_term);
        } else {
            assert(t.log.take(s.commit_index as int) == p0);
        }
    }
    assert(t.commit_index <= t.log.len());
    assert(d.covered(t.log.take(t.commit_index as int), t.current_term));
    assert(t.commit_index <= t.log.len());
}

/// Taking in a replication request keeps what the member acknowledged.
#[verifier::rlimit(100)]
proof fn lemma_ae_retention_part(c: ClusterView, k: u64, m: MessageView, nci: u64, a: crate::rpc::AppendEntriesView)
    requires
        c.consistent(),
        c.commits_ok(),
        c.nodes.contains_key(k),
        c.sent.contains(m),
        m.to == RaftNodeId(k),
        c.nodes[k].step_ok(m),
        m.payload == PayloadView::AppendEntries(a),
    ensures
        ({
            let t = c.nodes[k].step(m, nci);
            let d = c.deliver(k, m, nci);
            forall|tt: u64, n: int|
                #[trigger] d.own_entry(tt, n) && #[trigger] d.acked(k, tt, n) ==> has_prefix(t.log, d.hist[tt].take(n))
                    || d.blocked(tt, n)
        }),
{
    let s = c.nodes[k];
    let t = s.step(m, nci);
    let d = c.deliver(k, m, nci);
    lemma_deliver_prelude(c, k, m, nci);
    lemma_step_sends(s, m, nci);
    lemma_step_roles(s, m, nci);
    law_step_takes_up_term(s, m, nci);
    lemma_ae_effect(c, k, m, nci, a);
    let s1 = s.observe_term(a.term);
    let f = NodeView { role: Role::Follower, ..s1 };
    let accepted = a.term == s1.current_term && f.prev_matches(a);
    let h = c.hist[a.term];
    let mm = a.prev_log_index + a.entries.len();
    assert(d.hist == c.hist);
    let x = t.outbox.last();
    assert forall|y: MessageView| #[trigger] d.sent.contains(y) && !c.sent.contains(y) implies y == x by {
        lemma_new_messages(c, k, s, t, y);
    }
    assert forall|tt: u64, n: int|
        #[trigger] d.own_entry(tt, n) && #[trigger] d.acked(k, tt, n) implies has_prefix(t.log, d.hist[tt].take(n))
            || d.blocked(tt, n) by {
        let pre = c.hist[tt].take(n);
        if c.acked(k, tt, n) {
            assert(c.nodes.contains_key(k) && c.own_entry(tt, n) && c.acked(k, tt, n));
            if !c.blocked(tt, n) && accepted {
                assert(has_prefix(s.log, pre));
                assert(c.nodes[k].current_term >= tt) by {
                    if exists|rr: MessageView| #[trigger] c.sent.contains(rr) && rr.from.0 == k && is_ack(rr, tt, n) {
                        let rr = choose|rr: MessageView| #[trigger] c.sent.contains(rr) && rr.from.0 == k && is_ack(rr, tt, n);
                        assert(c.reply_ok(rr));
                    } else {
                        assert(c.election_ok(tt));
                    }
                }
                assert(has_prefix(h, pre)) by {
                    if a.term == tt {
                        assert(h.take(n).len() == n);
                    } else {
                        assert(a.term > tt);
                        assert(c.hist.contains_key(a.term));
                    }
                }
            }
        } else {
            // the reply just sent
            let rr = choose|rr: MessageView| #[trigger] d.sent.contains(rr) && rr.from.0 == k && is_ack(rr, tt, n);
            assert(!c.sent.contains(rr)) by {
                if c.sent.contains(rr) {
                    assert(c.acked(k, tt, n));
                }
            }
            assert(rr == x);
            assert(accepted && tt == a.term && n <= mm);
            assert(t.log.take(n) =~= t.log.take(mm).take(n));
            assert(h.take(n) =~= h.take(mm).take(n));
        }
    }
}

/// Delivering a replication request keeps commitment.
proof fn lemma_deliver_ae_commits(c: ClusterView, k: u64, m: MessageView, nci: u64, a: crate::rpc::AppendEntriesView)
    requires
        c.consistent(),
        c.commits_ok(),
        c.nodes.contains_key(k),
        c.sent.contains(m),
        m.to == RaftNodeId(k),
        c.nodes[k].step_ok(m),
        m.payload == PayloadView::AppendEntries(a),
    ensures
        c.deliver(k, m, nci).commits_ok(),
{
    let s = c.nodes[k];
    let t = s.step(m, nci);
    let d = c.deliver(k, m, nci);
    lemma_deliver_prelude(c, k, m, nci);
    lemma_step_sends(s, m, nci);
    lemma_step_roles(s, m, nci);
    law_step_takes_up_term(s, m, nci);
    lemma_ae_effect(c, k, m, nci, a);
    let s1 = s.observe_term(a.term);
    let f = NodeView { role: Role::Follower, ..s1 };
    let accepted = a.term == s1.current_term && f.prev_matches(a);
    let h = c.hist[a.term];
    let mm = a.prev_log_index + a.entries.len();
    assert(d.hist == c.hist);
    lemma_deliver_cand(c, k, m, nci);
    let x = t.outbox.last();
    assert forall|y: MessageView| #[trigger] d.sent.contains(y) && !c.sent.contains(y) implies y == x by {
        lemma_new_messages(c, k, s, t, y);
    }
    // own entries and blocking depend on the leaders' logs alone
    assert forall|tt: u64, n: int| #[trigger] d.own_entry(tt, n) == c.own_entry(tt, n) && d.blocked(tt, n) == c.blocked(tt, n) by {
    }
    // the reply
    assert forall|y: MessageView| #[trigger] d.sent.contains(y) && !c.sent.contains(y) implies {
        &&& y.from.0 == k
        &&& d.reply_ok(y)
        &&& (y.payload matches PayloadView::RequestVote(a2) ==> d.request_ok(y.from.0, a2))
        &&& (y.payload matches PayloadView::AppendEntries(a2) ==> d.request_commit_ok(a2))
        &&& (is_grant(y) ==> d.nodes.contains_key(y.to.0) && d.nodes[y.to.0].current_term
            >= payload_term(y.payload) && forall|tt: u64, n: int|
            tt < payload_term(y.payload) && #[trigger] d.own_entry(tt, n) && #[trigger] d.acked(y.from.0, tt, n)
                ==> d.cand_holds(y.to.0, payload_term(y.payload), tt, n))
    } by {
        assert(y == x);
        assert(d.nodes[k] == t);
    }
    lemma_ae_commit_part(c, k, m, nci, a);
    lemma_ae_retention_part(c, k, m, nci, a);
    if t.role == Role::Leader {
        assert(!accepted);
        assert(t.match_index == s.match_index);
        assert forall|i: int| 0 <= i < t.peers.len() implies #[trigger] d.match_acked(k, i) by {
            assert(c.match_acked(k, i));
            let v = peer_matches(s.match_index, s.peers)[i];
            if v != 0 {
                lemma_grow_acked(c, d, s.peers[i].0, s.current_term, v as int);
            }
        }
    }
    lemma_frame_commits(c, d, k, t);
}

/// A leader's commit on a replication reply commits what a majority of
/// members acknowledged.
#[verifier::rlimit(100)]
proof fn lemma_leader_commit(c: ClusterView, k: u64, m: MessageView, nci: u64, r: crate::rpc::AppendEntriesReply)
    requires
        c.consistent(),
        c.commits_ok(),
        c.nodes.contains_key(k),
        c.sent.contains(m),
        m.to == RaftNodeId(k),
        c.nodes[k].step_ok(m),
        c.nodes[k].step_candidate(m, nci),
        m.payload == PayloadView::AppendEntriesReply(r),
        c.nodes[k].role == Role::Leader,
        r.term == c.nodes[k].current_term,
        r.success,
        forall|i: int| 0 <= i < c.nodes[k].peers.len() ==> #[trigger] c.deliver(k, m, nci).match_acked(k, i),
        c.nodes[k].step(m, nci).commit_index != c.nodes[k].commit_index,
    ensures
        c.deliver(k, m, nci).committed(c.nodes[k].current_term, nci as int),
        c.nodes[k].step(m, nci).commit_index == nci,
        nci as int <= c.nodes[k].log.len(),
{
    let s = c.nodes[k];
    let t = s.step(m, nci);
    let d = c.deliver(k, m, nci);
    let tt = s.current_term;
    lemma_deliver_prelude(c, k, m, nci);
    let rm = s.record_match(m.from, r);
    assert(rm.commit_candidate(nci));
    assert(t.match_index == rm.match_index && t.log == s.log && t.peers == s.peers);
    law_commit_candidate_held(rm.member_matches(), quorum(rm.peers), nci);
    let dom = c.nodes.dom();
    assert(distinct_members(rm)) by {
        assert(s.node_id == RaftNodeId(k));
        if peer_ids(s.peers).contains(k) {
            assert(dom.remove(k).contains(k));
        }
    }
    lemma_holders_count(rm, nci);
    let hs = holders(rm, nci);
    assert(d.hist == c.hist);
    assert(d.hist[tt] == t.log);
    assert(hs.subset_of(d.ackers(tt, nci as int))) by {
        assert forall|z: u64| hs.contains(z) implies d.ackers(tt, nci as int).contains(z) by {
            if peer_holders(rm.match_index, rm.peers, nci).contains(z) {
                let i = choose|i: int| 0 <= i < rm.peers.len() && (#[trigger] rm.peers[i]).0 == z;
                assert(dom.remove(k).contains(z));
                assert(d.match_acked(k, i));
                let v = peer_matches(t.match_index, t.peers)[i];
                assert(v >= nci);
                if exists|rr: MessageView| #[trigger] d.sent.contains(rr) && rr.from.0 == z && is_ack(rr, tt, v as int) {
                    let rr = choose|rr: MessageView| #[trigger] d.sent.contains(rr) && rr.from.0 == z && is_ack(rr, tt, v as int);
                    assert(is_ack(rr, tt, nci as int));
                } else {
                    assert(d.elected[tt].0 == z);
                    assert(d.elected[tt].0 == k);
                }
            } else {
                assert(z == k);
                lemma_traced_props(c, s.log);
                if s.log.len() > 0 {
                    assert(s.log[s.log.len() - 1].index == s.log.len());
                }
                assert(d.elected[tt].0 == k);
            }
        }
    }
    vstd::set_lib::lemma_len_subset(d.ackers(tt, nci as int), dom);
    vstd::set_lib::lemma_len_subset(hs, d.ackers(tt, nci as int));
    assert(rm.peers.len() + 1 == dom.len());
}

/// Delivering a replication reply keeps commitment.
#[verifier::rlimit(100)]
proof fn lemma_deliver_aer_commits(c: ClusterView, k: u64, m: MessageView, nci: u64, r: crate::rpc::AppendEntriesReply)
    requires
        c.consistent(),
        c.commits_ok(),
        c.nodes.contains_key(k),
        c.sent.contains(m),
        m.to == RaftNodeId(k),
        c.nodes[k].step_ok(m),
        c.nodes[k].step_candidate(m, nci),
        m.payload == PayloadView::AppendEntriesReply(r),
    ensures
        c.deliver(k, m, nci).commits_ok(),
{
    let s = c.nodes[k];
    let t = s.step(m, nci);
    let d = c.deliver(k, m, nci);
    lemma_deliver_prelude(c, k, m, nci);
    lemma_step_sends(s, m, nci);
    lemma_step_roles(s, m, nci);
    law_step_takes_up_term(s, m, nci);
    lemma_step_log(c, k, m, nci);
    assert(t.log == s.log);
    assert(d.hist == c.hist);
    lemma_deliver_cand(c, k, m, nci);
    let s1 = s.observe_term(r.term);
    let live = s1.role == Role::Leader && r.term == s1.current_term;
    assert(live ==> s1 == s);
    assert(!live ==> t == s1);
    assert(d.elected =~= c.elected) by {
        assert forall|u: u64| #[trigger] d.elected.contains_key(u) implies c.elected.contains_key(u) by {
            if !c.elected.contains_key(u) {
                assert(d.elected[u].0 == k);
                assert(d.hist.contains_key(u));
            }
        }
    }
    assert forall|y: MessageView| #[trigger] d.sent.contains(y) && !c.sent.contains(y) implies !(y.payload is AppendEntriesReply) by {
        lemma_new_messages(c, k, s, t, y);
    }
    // match indices stay acknowledged
    if t.role == Role::Leader {
        assert forall|i: int| 0 <= i < t.peers.len() implies #[trigger] d.match_acked(k, i) by {
            assert(c.match_acked(k, i));
            let p = s.peers[i].0;
            let v0 = peer_matches(s.match_index, s.peers)[i];
            let v = peer_matches(t.match_index, t.peers)[i];
            if v0 != 0 {
                lemma_grow_acked(c, d, p, s.current_term, v0 as int);
            }
            if live && r.success && p == m.from.0 {
                assert(v == r.match_index);
                assert(d.sent.contains(m) && m.from.0 == p && is_ack(m, s.current_term, v as int));
            } else {
                assert(v == v0);
            }
        }
    }
    // the commit index
    lemma_grow_covered(c, d, s.log.take(s.commit_index as int), s.current_term, t.current_term);
    if t.commit_index != s.commit_index {
        assert(live && r.success);
        lemma_leader_commit(c, k, m, nci, r);
        let n = nci as int;
        assert(d.hist[s.current_term].take(n) == t.log.take(n));
        assert(d.covered(t.log.take(n), t.current_term));
    }
    assert(d.covered(t.log.take(t.commit_index as int), t.current_term));
    assert(terms_at_most(s.log, s.current_term));
    // new messages: replication requests of the leader
    assert forall|y: MessageView| #[trigger] d.sent.contains(y) && !c.sent.contains(y) implies {
        &&& y.from.0 == k
        &&& d.reply_ok(y)
        &&& (y.payload matches PayloadView::RequestVote(a2) ==> d.request_ok(y.from.0, a2))
        &&& (y.payload matches PayloadView::AppendEntries(a2) ==> d.request_commit_ok(a2))
        &&& (is_grant(y) ==> d.nodes.contains_key(y.to.0) && d.nodes[y.to.0].current_term
            >= payload_term(y.payload) && forall|tt: u64, n: int|
            tt < payload_term(y.payload) && #[trigger] d.own_entry(tt, n) && #[trigger] d.acked(y.from.0, tt, n)
                ==> d.cand_holds(y.to.0, payload_term(y.payload), tt, n))
    } by {
        lemma_new_messages(c, k, s, t, y);
        let i = choose|i: int| s.outbox.len() <= i < t.outbox.len() && t.outbox[i] == y;
        assert(t.outbox[i].payload is AppendEntries);
        assert(d.nodes.contains_key(k));
        lemma_request_commit(t, y.to);
        assert(d.hist[t.current_term] == t.log);
    }
    assert forall|tt: u64, n: int|
        #[trigger] d.own_entry(tt, n) && #[trigger] d.acked(k, tt, n) implies has_prefix(t.log, d.hist[tt].take(n))
            || d.blocked(tt, n) by {
        lemma_same_hist(c, d, tt, n, k);
        assert(c.nodes.contains_key(k) && c.own_entry(tt, n) && c.acked(k, tt, n));
    }
    assert forall|tt: u64, n: int|
        #[trigger] d.own_entry(tt, n) && #[trigger] d.blocked(tt, n) && !(c.own_entry(tt, n) && c.blocked(tt, n))
            implies d.potential(tt, n).len() < d.majority() by {
        lemma_same_hist(c, d, tt, n, k);
    }
    lemma_frame_commits(c, d, k, t);
}

/// Delivering a snapshot message, which acts only through its term, keeps
/// commitment.
proof fn lemma_deliver_snapshot_commits(c: ClusterView, k: u64, m: MessageView, nci: u64)
    requires
        c.consistent(),
        c.commits_ok(),
        c.nodes.contains_key(k),
        c.sent.contains(m),
        m.to == RaftNodeId(k),
        c.nodes[k].step_ok(m),
        m.payload is InstallSnapshot || m.payload is InstallSnapshotReply,
    ensures
        c.deliver(k, m, nci).commits_ok(),
{
    let s = c.nodes[k];
    let t = s.step(m, nci);
    let d = c.deliver(k, m, nci);
    lemma_deliver_prelude(c, k, m, nci);
    lemma_step_sends(s, m, nci);
    lemma_step_roles(s, m, nci);
    assert(t == s.observe_term(payload_term(m.payload)));
    assert(t.log == s.log && t.commit_index == s.commit_index && t.outbox == s.outbox);
    lemma_deliver_same_log(c, k, m, nci);
    assert(d.hist == c.hist);
    assert(t.outbox.to_set() =~= s.outbox.to_set());
    assert forall|y: MessageView| #[trigger] d.sent.contains(y) implies c.sent.contains(y) by {
        if !c.sent.contains(y) {
            let i = choose|i: int| 0 <= i < t.outbox.len() && t.outbox[i] == y;
            assert(c.sent.contains(c.nodes[k].outbox[i]));
        }
    }
    assert(d.elected =~= c.elected) by {
        assert forall|u: u64| #[trigger] d.elected.contains_key(u) implies c.elected.contains_key(u) by {
            if !c.elected.contains_key(u) {
                assert(d.elected[u].0 == k);
                assert(d.hist.contains_key(u));
            }
        }
    }
    if t.role == Role::Leader {
        assert forall|i: int| 0 <= i < t.peers.len() implies #[trigger] d.match_acked(k, i) by {
            assert(c.match_acked(k, i));
            let v = peer_matches(s.match_index, s.peers)[i];
            if v != 0 {
                lemma_grow_acked(c, d, s.peers[i].0, s.current_term, v as int);
            }
        }
    }
    assert forall|tt: u64, n: int|
        #[trigger] d.own_entry(tt, n) && #[trigger] d.acked(k, tt, n) implies has_prefix(t.log, d.hist[tt].take(n))
            || d.blocked(tt, n) by {
        lemma_same_hist(c, d, tt, n, k);
    }
    assert forall|tt: u64, n: int|
        #[trigger] d.own_entry(tt, n) && #[trigger] d.blocked(tt, n) && !(c.own_entry(tt, n) && c.blocked(tt, n))
            implies d.potential(tt, n).len() < d.majority() by {
        lemma_same_hist(c, d, tt, n, k);
    }
    lemma_frame_commits(c, d, k, t);
}

/// Delivering a message keeps commitment.
pub proof fn lemma_deliver_commits(c: ClusterView, k: u64, m: MessageView, nci: u64)
    requires
        c.consistent(),
        c.commits_ok(),
        c.nodes.contains_key(k),
        c.sent.contains(m),
        m.to == RaftNodeId(k),
        c.nodes[k].step_ok(m),
        c.nodes[k].step_candidate(m, nci),
    ensures
        c.deliver(k, m, nci).commits_ok(),
{
    match m.payload {
        PayloadView::RequestVote(a) => lemma_deliver_rv_commits(c, k, m, nci, a),
        PayloadView::RequestVoteReply(r) => lemma_deliver_rvr_commits(c, k, m, nci, r),
        PayloadView::AppendEntries(a) => lemma_deliver_ae_commits(c, k, m, nci, a),
        PayloadView::AppendEntriesReply(r) => lemma_deliver_aer_commits(c, k, m, nci, r),
        _ => lemma_deliver_snapshot_commits(c, k, m, nci),
    }
}

/// What one step of member `k` to state `t` must show for commitment to
/// be kept; the rest follows from how the cluster grows.
#[verifier::rlimit(100)]
proof fn lemma_frame_commits(c: ClusterView, d: ClusterView, k: u64, t: NodeView)
    requires
        c.consistent(),
        c.commits_ok(),
        d.consistent(),
        c.nodes.contains_key(k),
        d == c.after(k, t),
        grows(c, d),
        t.peers == c.nodes[k].peers,
        d.hist == c.hist || (t.role == Role::Leader && d.hist == c.hist.insert(t.current_term, t.log)
            && (c.hist.contains_key(t.current_term) ==> c.hist[t.current_term] == t.log)),
        d.hist != c.hist ==> c.traces(t.log),
        forall|x: MessageView| #[trigger] d.sent.contains(x) && !c.sent.contains(x) ==> {
            &&& x.from.0 == k
            &&& d.reply_ok(x)
            &&& (x.payload matches PayloadView::RequestVote(a) ==> d.request_ok(x.from.0, a))
            &&& (x.payload matches PayloadView::AppendEntries(a) ==> d.request_commit_ok(a))
            &&& (is_grant(x) ==> d.nodes.contains_key(x.to.0) && d.nodes[x.to.0].current_term
                >= payload_term(x.payload) && forall|tt: u64, n: int|
                tt < payload_term(x.payload) && #[trigger] d.own_entry(tt, n) && #[trigger] d.acked(x.from.0, tt, n)
                    ==> d.cand_holds(x.to.0, payload_term(x.payload), tt, n))
        },
        terms_at_most(t.log, t.current_term),
        t.commit_index <= t.log.len(),
        d.covered(t.log.take(t.commit_index as int), t.current_term),
        t.role == Role::Leader ==> forall|i: int| 0 <= i < t.peers.len() ==> #[trigger] d.match_acked(k, i),
        forall|tt: u64, n: int|
            #[trigger] d.own_entry(tt, n) && #[trigger] d.acked(k, tt, n) ==> has_prefix(t.log, d.hist[tt].take(n))
                || d.blocked(tt, n),
        forall|tt: u64, n: int|
            #[trigger] d.own_entry(tt, n) && #[trigger] d.blocked(tt, n) && !(c.own_entry(tt, n) && c.blocked(tt, n))
                ==> d.potential(tt, n).len() < d.majority(),
        forall|g: MessageView, tt: u64, n: int|
            #[trigger] c.sent.contains(g) && is_grant(g) && g.to.0 == k && tt < payload_term(g.payload)
                && #[trigger] d.own_entry(tt, n) && #[trigger] d.acked(g.from.0, tt, n) ==> d.cand_holds(
                k,
                payload_term(g.payload),
                tt,
                n,
            ),
        forall|m: MessageView| #[trigger] c.sent.contains(m) && m.from.0 == k ==> (m.payload matches PayloadView::RequestVote(a)
            ==> d.request_ok(k, a)),
    ensures
        d.commits_ok(),
{
    let s = c.nodes[k];
    let dom = c.nodes.dom();
    assert(d.nodes[k] == t);
    assert forall|u: u64| #[trigger] d.elected.contains_key(u) implies d.hist.contains_key(u) by {
        if !c.elected.contains_key(u) {
            assert(d.elected[u].0 == k);
            assert(d.nodes[k].role == Role::Leader);
        }
    }
    assert forall|u: u64| #[trigger] d.hist.contains_key(u) implies terms_sorted(d.hist[u]) && terms_at_most(d.hist[u], u) by {
        if d.hist != c.hist && u == t.current_term {
            if c.hist.contains_key(u) {
            } else {
                lemma_traced_props(c, t.log);
            }
        } else {
            assert(d.hist[u] == c.hist[u]);
        }
    }
    assert forall|j: u64| #[trigger] d.nodes.contains_key(j) implies terms_at_most(d.nodes[j].log, d.nodes[j].current_term) by {
        if j != k {
            assert(d.nodes[j] == c.nodes[j]);
            assert(terms_at_most(c.nodes[j].log, c.nodes[j].current_term));
        }
    }
    assert forall|r: MessageView| #[trigger] d.sent.contains(r) implies d.reply_ok(r) by {
        if c.sent.contains(r) {
            assert(c.reply_ok(r));
            if let PayloadView::AppendEntriesReply(rep) = r.payload {
                if rep.success {
                    assert(c.nodes.contains_key(r.from.0));
                    assert(c.hist.contains_key(rep.term));
                    assert(d.hist[rep.term].len() >= c.hist[rep.term].len());
                }
            }
        }
    }
    assert forall|m: MessageView| #[trigger] d.sent.contains(m) implies (m.payload matches PayloadView::RequestVote(a)
        ==> d.request_ok(m.from.0, a)) by {
        if let PayloadView::RequestVote(a) = m.payload {
            if c.sent.contains(m) {
                if m.from.0 != k {
                    assert(c.request_ok(m.from.0, a));
                    assert(d.nodes[m.from.0] == c.nodes[m.from.0]);
                    if c.elected.contains_key(a.term) && c.elected[a.term].0 == m.from.0 {
                        assert(c.hist.contains_key(a.term));
                        if a.last_log_index > 0 {
                            lemma_grow_take(c, d, a.term, a.last_log_index as int);
                        }
                    }
                    if d.elected.contains_key(a.term) && d.elected[a.term].0 == m.from.0 {
                        if !c.elected.contains_key(a.term) {
                            assert(d.elected[a.term].0 == k);
                        }
                    }
                }
            }
        }
    }
    assert forall|m: MessageView| #[trigger] d.sent.contains(m) implies (m.payload matches PayloadView::AppendEntries(a)
        ==> d.request_commit_ok(a)) by {
        if let PayloadView::AppendEntries(a) = m.payload {
            if c.sent.contains(m) {
                assert(c.request_commit_ok(a));
                assert(c.hist.contains_key(a.term));
                lemma_grow_take(c, d, a.term, a.leader_commit as int);
                lemma_grow_covered(c, d, c.hist[a.term].take(a.leader_commit as int), a.term, a.term);
            }
        }
    }
    assert forall|g: MessageView| #[trigger] d.sent.contains(g) && is_grant(g) implies d.nodes.contains_key(g.to.0)
        && d.nodes[g.to.0].current_term >= payload_term(g.payload) by {
        if c.sent.contains(g) {
            assert(c.nodes.contains_key(g.to.0));
        }
    }
    assert forall|z: u64, tt: u64, n: int|
        #[trigger] d.nodes.contains_key(z) && #[trigger] d.own_entry(tt, n) && #[trigger] d.acked(z, tt, n)
            implies has_prefix(d.nodes[z].log, d.hist[tt].take(n)) || d.blocked(tt, n) by {
        if z != k {
            assert(d.nodes[z] == c.nodes[z]);
            // the step added no acknowledgement and no own entry that z could have
            if c.own_entry(tt, n) && c.acked(z, tt, n) {
                assert(c.nodes.contains_key(z) && c.own_entry(tt, n) && c.acked(z, tt, n));
                lemma_grow_own(c, d, tt, n);
                if !has_prefix(c.nodes[z].log, c.hist[tt].take(n)) {
                    lemma_grow_blocked(c, d, tt, n);
                }
            } else {
                lemma_frame_no_new_ack(c, d, k, t, z, tt, n);
            }
        }
    }
    assert forall|tt: u64, n: int| #[trigger] d.own_entry(tt, n) && #[trigger] d.blocked(tt, n)
        implies d.potential(tt, n).len() < d.majority() by {
        if c.own_entry(tt, n) && c.blocked(tt, n) {
            lemma_grow_ackers(c, d, tt, n);
        }
    }
    assert forall|g: MessageView, tt: u64, n: int|
        #[trigger] d.sent.contains(g) && is_grant(g) && tt < payload_term(g.payload)
            && #[trigger] d.own_entry(tt, n) && #[trigger] d.acked(g.from.0, tt, n) implies d.cand_holds(
        g.to.0,
        payload_term(g.payload),
        tt,
        n,
    ) by {
        let u = payload_term(g.payload);
        let z = g.from.0;
        if c.sent.contains(g) && g.to.0 != k {
            assert(c.nodes[z].current_term >= u);
            if !(c.own_entry(tt, n) && c.acked(z, tt, n)) {
                lemma_frame_no_new_ack(c, d, k, t, z, tt, n);
            }
            assert(c.sent.contains(g) && c.own_entry(tt, n) && c.acked(z, tt, n));
            assert(c.cand_holds(g.to.0, u, tt, n));
            lemma_grow_own(c, d, tt, n);
            let pre = c.hist[tt].take(n);
            if c.blocked(tt, n) {
                lemma_grow_blocked(c, d, tt, n);
            }
            assert(d.nodes[g.to.0] == c.nodes[g.to.0]);
            if d.elected.contains_key(u) && d.elected[u].0 == g.to.0 {
                assert(c.elected.contains_key(u)) by {
                    if !c.elected.contains_key(u) {
                        assert(d.elected[u].0 == k);
                    }
                }
                assert(c.hist.contains_key(u));
                if has_prefix(c.hist[u], pre) {
                    assert(d.hist[u].take(c.hist[u].len() as int) == c.hist[u]);
                    assert(d.hist[u].take(pre.len() as int) =~= c.hist[u].take(pre.len() as int));
                }
            }
        }
    }
    assert forall|j: u64| #[trigger] d.nodes.contains_key(j) implies d.nodes[j].commit_index
        <= d.nodes[j].log.len() && d.covered(d.nodes[j].log.take(d.nodes[j].commit_index as int), d.nodes[j].current_term) by {
        if j != k {
            let nj = c.nodes[j];
            assert(d.nodes[j] == nj);
            assert(c.covered(nj.log.take(nj.commit_index as int), nj.current_term));
            lemma_grow_covered(c, d, nj.log.take(nj.commit_index as int), nj.current_term, nj.current_term);
        }
    }
    assert forall|k2: u64, i: int|
        d.nodes.contains_key(k2) && d.nodes[k2].role == Role::Leader && 0 <= i < d.nodes[k2].peers.len()
            implies #[trigger] d.match_acked(k2, i) by {
        if k2 != k {
            assert(d.nodes[k2] == c.nodes[k2]);
            assert(c.match_acked(k2, i));
            let v = peer_matches(c.nodes[k2].match_index, c.nodes[k2].peers)[i];
            if v != 0 {
                lemma_grow_acked(c, d, c.nodes[k2].peers[i].0, c.nodes[k2].current_term, v as int);
            }
        }
    }
}

/// Handing queued messages to the network keeps commitment.
pub proof fn lemma_drain_commits(c: ClusterView, k: u64)
    requires
        c.consistent(),
        c.commits_ok(),
        c.nodes.contains_key(k),
    ensures
        c.drain(k).commits_ok(),
{
    let d = c.drain(k);
    assert(d.nodes.dom() =~= c.nodes.dom());
    assert(d.sent == c.sent && d.elected == c.elected && d.hist == c.hist);
    assert forall|z: u64, tt: u64, n: int| #[trigger] d.acked(z, tt, n) implies c.acked(z, tt, n) by {
    }
    assert forall|z: u64, tt: u64, n: int| #[trigger] c.acked(z, tt, n) implies d.acked(z, tt, n) by {
    }
    assert forall|tt: u64, n: int| #[trigger] d.potential(tt, n) == c.potential(tt, n) by {
        assert(d.potential(tt, n) =~= c.potential(tt, n));
    }
    assert forall|tt: u64, n: int| #[trigger] d.ackers(tt, n) == c.ackers(tt, n) by {
        assert(d.ackers(tt, n) =~= c.ackers(tt, n));
    }
    assert forall|tt: u64, n: int| #[trigger] d.committed(tt, n) == c.committed(tt, n) by {
        assert(d.ackers(tt, n) == c.ackers(tt, n));
    }
    assert forall|p: Seq<EntryView>, b: u64| #[trigger] d.covered(p, b) == c.covered(p, b) by {
        if c.covered(p, b) && p.len() > 0 {
            let (tt, n) = choose|tt: u64, n: int|
                tt <= b && #[trigger] c.committed(tt, n) && n >= p.len() && c.hist[tt].take(p.len() as int) == p;
            assert(d.committed(tt, n));
        }
        if d.covered(p, b) && p.len() > 0 {
            let (tt, n) = choose|tt: u64, n: int|
                tt <= b && #[trigger] d.committed(tt, n) && n >= p.len() && d.hist[tt].take(p.len() as int) == p;
            assert(c.committed(tt, n));
        }
    }
    assert forall|j: u64| #[trigger] d.nodes.contains_key(j) implies d.nodes[j].log == c.nodes[j].log
        && d.nodes[j].current_term == c.nodes[j].current_term && d.nodes[j].role == c.nodes[j].role
        && d.nodes[j].commit_index == c.nodes[j].commit_index && d.nodes[j].match_index == c.nodes[j].match_index
        && d.nodes[j].peers == c.nodes[j].peers by {
    }
    assert forall|tt: u64, n: int| #[trigger] d.blocked(tt, n) == c.blocked(tt, n) by {
    }
    assert forall|g: MessageView, tt: u64, n: int|
        #[trigger] d.sent.contains(g) && is_grant(g) && tt < payload_term(g.payload)
            && #[trigger] d.own_entry(tt, n) && #[trigger] d.acked(g.from.0, tt, n) implies d.cand_holds(
        g.to.0,
        payload_term(g.payload),
        tt,
        n,
    ) by {
        assert(c.sent.contains(g) && c.own_entry(tt, n) && c.acked(g.from.0, tt, n));
        assert(c.cand_holds(g.to.0, payload_term(g.payload), tt, n));
    }
    assert forall|z: u64, tt: u64, n: int|
        #[trigger] d.nodes.contains_key(z) && #[trigger] d.own_entry(tt, n) && #[trigger] d.acked(z, tt, n)
            implies has_prefix(d.nodes[z].log, d.hist[tt].take(n)) || d.blocked(tt, n) by {
        assert(c.nodes.contains_key(z) && c.own_entry(tt, n) && c.acked(z, tt, n));
    }
    assert forall|tt: u64, n: int| #[trigger] d.own_entry(tt, n) && #[trigger] d.blocked(tt, n)
        implies d.potential(tt, n).len() < d.majority() by {
        assert(c.own_entry(tt, n) && c.blocked(tt, n));
    }
    assert forall|j: u64| #[trigger] d.nodes.contains_key(j) implies d.nodes[j].commit_index
        <= d.nodes[j].log.len() && d.covered(d.nodes[j].log.take(d.nodes[j].commit_index as int), d.nodes[j].current_term) by {
        assert(c.nodes.contains_key(j));
        assert(c.covered(c.nodes[j].log.take(c.nodes[j].commit_index as int), c.nodes[j].current_term));
    }
    assert forall|k2: u64, i: int|
        d.nodes.contains_key(k2) && d.nodes[k2].role == Role::Leader && 0 <= i < d.nodes[k2].peers.len()
            implies #[trigger] d.match_acked(k2, i) by {
        assert(c.match_acked(k2, i));
    }
    assert forall|m: MessageView| #[trigger] d.sent.contains(m) implies (m.payload matches PayloadView::RequestVote(a)
        ==> d.request_ok(m.from.0, a)) by {
        if let PayloadView::RequestVote(a) = m.payload {
            assert(c.request_ok(m.from.0, a));
        }
    }
    assert forall|m: MessageView| #[trigger] d.sent.contains(m) implies (m.payload matches PayloadView::AppendEntries(a)
        ==> d.request_commit_ok(a)) by {
        if let PayloadView::AppendEntries(a) = m.payload {
            assert(c.request_commit_ok(a));
        }
    }
    assert forall|r: MessageView| #[trigger] d.sent.contains(r) implies d.reply_ok(r) by {
        assert(c.reply_ok(r));
    }
}

/// A restart from a durable store keeps commitment.
pub proof fn lemma_restart_commits(c: ClusterView, k: u64)
    requires
        c.consistent(),
        c.commits_ok(),
        c.nodes.contains_key(k),
        c.durable(k),
    ensures
        c.restart(k).commits_ok(),
{
    let d = c.restart(k);
    let s = c.nodes[k];
    let t = NodeView::recovered(s.node_id, s.peers, s.store->0);
    assert(d.nodes[k] == t);
    assert(t.outbox.to_set() =~= Set::<MessageView>::empty());
    assert(d.sent =~= c.sent);
    assert(d.nodes.dom() =~= c.nodes.dom());
    assert(d.sent == c.sent && d.elected == c.elected && d.hist == c.hist);
    assert forall|z: u64, tt: u64, n: int| #[trigger] d.acked(z, tt, n) implies c.acked(z, tt, n) by {
    }
    assert forall|z: u64, tt: u64, n: int| #[trigger] c.acked(z, tt, n) implies d.acked(z, tt, n) by {
    }
    assert forall|tt: u64, n: int| #[trigger] d.potential(tt, n) == c.potential(tt, n) by {
        assert(d.potential(tt, n) =~= c.potential(tt, n));
    }
    assert forall|tt: u64, n: int| #[trigger] d.ackers(tt, n) == c.ackers(tt, n) by {
        assert(d.ackers(tt, n) =~= c.ackers(tt, n));
    }
    assert forall|tt: u64, n: int| #[trigger] d.committed(tt, n) == c.committed(tt, n) by {
        assert(d.ackers(tt, n) == c.ackers(tt, n));
    }
    assert forall|p: Seq<EntryView>, b: u64| #[trigger] d.covered(p, b) == c.covered(p, b) by {
        if c.covered(p, b) && p.len() > 0 {
            let (tt, n) = choose|tt: u64, n: int|
                tt <= b && #[trigger] c.committed(tt, n) && n >= p.len() && c.hist[tt].take(p.len() as int) == p;
            assert(d.committed(tt, n));
        }
        if d.covered(p, b) && p.len() > 0 {
            let (tt, n) = choose|tt: u64, n: int|
                tt <= b && #[trigger] d.committed(tt, n) && n >= p.len() && d.hist[tt].take(p.len() as int) == p;
            assert(c.committed(tt, n));
        }
    }
    assert forall|j: u64| #[trigger] d.nodes.contains_key(j) implies d.nodes[j].log == c.nodes[j].log
        && d.nodes[j].current_term == c.nodes[j].current_term
        && d.nodes[j].commit_index == c.nodes[j].commit_index && d.nodes[j].peers == c.nodes[j].peers by {
    }
    assert forall|tt: u64, n: int| #[trigger] d.blocked(tt, n) == c.blocked(tt, n) by {
    }
    assert forall|g: MessageView, tt: u64, n: int|
        #[trigger] d.sent.contains(g) && is_grant(g) && tt < payload_term(g.payload)
            && #[trigger] d.own_entry(tt, n) && #[trigger] d.acked(g.from.0, tt, n) implies d.cand_holds(
        g.to.0,
        payload_term(g.payload),
        tt,
        n,
    ) by {
        assert(c.sent.contains(g) && c.own_entry(tt, n) && c.acked(g.from.0, tt, n));
        assert(c.cand_holds(g.to.0, payload_term(g.payload), tt, n));
        if g.to.0 != k {
            assert(d.nodes[g.to.0] == c.nodes[g.to.0]);
        }
    }
    assert forall|z: u64, tt: u64, n: int|
        #[trigger] d.nodes.contains_key(z) && #[trigger] d.own_entry(tt, n) && #[trigger] d.acked(z, tt, n)
            implies has_prefix(d.nodes[z].log, d.hist[tt].take(n)) || d.blocked(tt, n) by {
        assert(c.nodes.contains_key(z) && c.own_entry(tt, n) && c.acked(z, tt, n));
    }
    assert forall|tt: u64, n: int| #[trigger] d.own_entry(tt, n) && #[trigger] d.blocked(tt, n)
        implies d.potential(tt, n).len() < d.majority() by {
        assert(c.own_entry(tt, n) && c.blocked(tt, n));
    }
    assert forall|j: u64| #[trigger] d.nodes.contains_key(j) implies d.nodes[j].commit_index
        <= d.nodes[j].log.len() && d.covered(d.nodes[j].log.take(d.nodes[j].commit_index as int), d.nodes[j].current_term) by {
        assert(c.nodes.contains_key(j));
        assert(c.covered(c.nodes[j].log.take(c.nodes[j].commit_index as int), c.nodes[j].current_term));
    }
    assert forall|k2: u64, i: int|
        d.nodes.contains_key(k2) && d.nodes[k2].role == Role::Leader && 0 <= i < d.nodes[k2].peers.len()
            implies #[trigger] d.match_acked(k2, i) by {
        assert(k2 != k);
        assert(d.nodes[k2] == c.nodes[k2]);
        assert(c.match_acked(k2, i));
    }
    assert forall|m: MessageView| #[trigger] d.sent.contains(m) implies (m.payload matches PayloadView::RequestVote(a)
        ==> d.request_ok(m.from.0, a)) by {
        if let PayloadView::RequestVote(a) = m.payload {
            assert(c.request_ok(m.from.0, a));
            if m.from.0 != k {
                assert(d.nodes[m.from.0] == c.nodes[m.from.0]);
            }
        }
    }
    assert forall|m: MessageView| #[trigger] d.sent.contains(m) implies (m.payload matches PayloadView::AppendEntries(a)
        ==> d.request_commit_ok(a)) by {
        if let PayloadView::AppendEntries(a) = m.payload {
            assert(c.request_commit_ok(a));
        }
    }
    assert forall|r: MessageView| #[trigger] d.sent.contains(r) implies d.reply_ok(r) by {
        assert(c.reply_ok(r));
    }
}

/// A committed prefix is in the log of every leader of a later term.
pub proof fn law_committed_in_later_leaders(c: ClusterView, tt: u64, n: int, u: u64)
    requires
        c.safe(),
        c.committed(tt, n),
        c.hist.contains_key(u),
        u > tt,
    ensures
        has_prefix(c.hist[u], c.hist[tt].take(n)),
{
    let dom = c.nodes.dom();
    assert(c.ackers(tt, n).subset_of(c.potential(tt, n)));
    vstd::set_lib::lemma_len_subset(c.potential(tt, n), dom);
    vstd::set_lib::lemma_len_subset(c.ackers(tt, n), c.potential(tt, n));
    if !has_prefix(c.hist[u], c.hist[tt].take(n)) {
        assert(c.blocked(tt, n));
    }
}

/// Leader completeness: what a member has committed was committed in a
/// term no later than its own, and is in the log of every leader of a
/// later term than that.
pub proof fn law_leader_completeness(c: ClusterView, k: u64)
    requires
        c.safe(),
        c.nodes.contains_key(k),
    ensures
        exists|tt: u64|
            tt <= c.nodes[k].current_term && #[trigger] c.held_after(
                tt,
                c.nodes[k].log.take(c.nodes[k].commit_index as int),
            ),
{
    let nk = c.nodes[k];
    let p = nk.log.take(nk.commit_index as int);
    if p.len() == 0 {
        assert forall|u: u64| #[trigger] c.hist.contains_key(u) && u > 0 implies has_prefix(c.hist[u], p) by {
            assert(c.hist[u].take(0) =~= p);
        }
        assert(c.held_after(0, p));
    } else {
        let (tt, n) = choose|tt: u64, n: int|
            tt <= nk.current_term && #[trigger] c.committed(tt, n) && n >= p.len() && c.hist[tt].take(
                p.len() as int,
            ) == p;
        assert forall|u: u64| #[trigger] c.hist.contains_key(u) && u > tt implies has_prefix(c.hist[u], p) by {
            law_committed_in_later_leaders(c, tt, n, u);
            assert(c.hist[u].take(p.len() as int) =~= c.hist[u].take(n).take(p.len() as int));
            assert(c.hist[tt].take(n).take(p.len() as int) =~= c.hist[tt].take(p.len() as int));
        }
        assert(c.held_after(tt, p));
    }
}

/// State machine safety: what two members have committed agrees: one
/// committed prefix is the start of the other.
pub proof fn law_committed_logs_agree(c: ClusterView, i: u64, j: u64)
    requires
        c.safe(),
        c.nodes.contains_key(i),
        c.nodes.contains_key(j),
    ensures
        ({
            let pi = c.nodes[i].log.take(c.nodes[i].commit_index as int);
            let pj = c.nodes[j].log.take(c.nodes[j].commit_index as int);
            has_prefix(pi, pj) || has_prefix(pj, pi)
        }),
{
    let pi = c.nodes[i].log.take(c.nodes[i].commit_index as int);
    let pj = c.nodes[j].log.take(c.nodes[j].commit_index as int);
    if pi.len() == 0 {
        assert(pj.take(0) =~= pi);
    } else if pj.len() == 0 {
        assert(pi.take(0) =~= pj);
    } else {
        let (ti, ni) = choose|tt: u64, n: int|
            tt <= c.nodes[i].current_term && #[trigger] c.committed(tt, n) && n >= pi.len()
                && c.hist[tt].take(pi.len() as int) == pi;
        let (tj, nj) = choose|tt: u64, n: int|
            tt <= c.nodes[j].current_term && #[trigger] c.committed(tt, n) && n >= pj.len()
                && c.hist[tt].take(pj.len() as int) == pj;
        // both are prefixes of the log of the later of the two terms
        let (hi, lo, nlo) = if ti <= tj {
            (tj, ti, ni)
        } else {
            (ti, tj, nj)
        };
        let h = c.hist[hi];
        if lo < hi {
            law_committed_in_later_leaders(c, lo, nlo, hi);
        }
        assert(pi =~= h.take(pi.len() as int)) by {
            if ti < tj {
                assert(h.take(ni) == c.hist[ti].take(ni));
                assert(h.take(pi.len() as int) =~= h.take(ni).take(pi.len() as int));
                assert(c.hist[ti].take(pi.len() as int) =~= c.hist[ti].take(ni).take(pi.len() as int));
            }
        }
        assert(pj =~= h.take(pj.len() as int)) by {
            if tj < ti {
                assert(h.take(nj) == c.hist[tj].take(nj));
                assert(h.take(pj.len() as int) =~= h.take(nj).take(pj.len() as int));
                assert(c.hist[tj].take(pj.len() as int) =~= c.hist[tj].take(nj).take(pj.len() as int));
            }
        }
        if pi.len() <= pj.len() {
            assert(pj.take(pi.len() as int) =~= pi);
        } else {
            assert(pi.take(pj.len() as int) =~= pj);
        }
    }
}

/// A restart from a store that holds the member's durable state keeps a
/// cluster consistent, and its record of elections.
pub proof fn law_restart_keeps_consistent(c: ClusterView, k: u64)
    requires
        c.consistent(),
        c.nodes.contains_key(k),
        c.durable(k),
    ensures
        c.restart(k).consistent(),
        c.keeps_elections(c.restart(k)),
{
    let s = c.nodes[k];
    let t = NodeView::recovered(s.node_id, s.peers, s.store->0);
    let d = c.restart(k);
    assert(d.nodes[k] == t);
    assert(d.nodes.dom() =~= c.nodes.dom());
    assert(t.outbox =~= Seq::<MessageView>::empty());
    assert(t.outbox.to_set() =~= Set::<MessageView>::empty());
    assert(d.sent =~= c.sent);
    assert(d.elected == c.elected);
    assert(d.hist == c.hist);
    law_votes_tallied_elsewhere(s.node_id, s.peers, s.store->0, s, false, Seq::empty());
    crate::laws::law_next_index_positive(s.node_id, s.peers, s.store->0, s, arbitrary(), 0, false, Seq::empty());
    assert(d.members_ok());
    assert forall|j: u64, i: int|
        d.nodes.contains_key(j) && 0 <= i < d.nodes[j].outbox.len() implies d.sent.contains(
        #[trigger] d.nodes[j].outbox[i],
    ) by {
        assert(j != k);
        assert(d.nodes[j] == c.nodes[j]);
    }
    assert(d.sent_ok());
    assert(d.grants_ok());
    assert forall|j: u64| #[trigger] d.nodes.contains_key(j) implies {
        let n = d.nodes[j];
        &&& votes_tallied(n)
        &&& n.role != Role::Follower ==> n.voted_for == Some(n.node_id)
        &&& n.role != Role::Follower ==> forall|i: int|
            0 <= i < n.voters.len() ==> d.granted(#[trigger] n.voters[i], n.node_id, n.current_term)
        &&& n.role == Role::Leader ==> n.voters.len() + 1 >= quorum(n.peers)
    } by {
        if j != k {
            assert(d.nodes[j] == c.nodes[j]);
        }
    }
    assert(d.candidates_ok());
    assert forall|tt: u64| #[trigger] d.elected.contains_key(tt) implies d.election_ok(tt) by {
        assert(c.election_ok(tt));
    }
    assert(d.elections_ok());
    assert forall|j: u64| #[trigger] d.nodes.contains_key(j) implies well_indexed(d.nodes[j].log)
        && d.traces(d.nodes[j].log) && d.nodes[j].wf() && (d.nodes[j].role != Role::Follower
        ==> d.nodes[j].current_term >= 1) by {
        if j != k {
            assert(d.nodes[j] == c.nodes[j]);
        }
    }
    assert(d.logs_ok());
}

/// A cluster of new nodes, member `k` knowing `peers_of[k]`, before any
/// message is sent.
pub open spec fn fresh_cluster(ids: Set<u64>, peers_of: Map<u64, Seq<RaftNodeId>>) -> ClusterView {
    ClusterView {
        nodes: Map::new(|k: u64| ids.contains(k), |k: u64| NodeView::initial(RaftNodeId(k), peers_of[k])),
        sent: Set::empty(),
        elected: Map::empty(),
        hist: Map::empty(),
    }
}

/// A cluster of new nodes, each knowing every other member once as a peer,
/// is consistent; with the laws above, so is every state it reaches.
pub proof fn law_fresh_cluster_consistent(ids: Set<u64>, peers_of: Map<u64, Seq<RaftNodeId>>)
    requires
        ids.finite(),
        forall|k: u64|
            #[trigger] ids.contains(k) ==> {
                &&& peers_of[k].no_duplicates()
                &&& peer_ids(peers_of[k]) == ids.remove(k)
                &&& peers_of[k].len() + 1 == ids.len()
            },
    ensures
        fresh_cluster(ids, peers_of).consistent(),
{
    let c = fresh_cluster(ids, peers_of);
    assert(c.nodes.dom() =~= ids);
    assert forall|k: u64| #[trigger] c.nodes.contains_key(k) implies votes_tallied(c.nodes[k]) by {
        law_votes_tallied_elsewhere(RaftNodeId(k), peers_of[k], arbitrary(), c.nodes[k], false, Seq::empty());
    }
}


/// A cluster of new nodes is safe.
pub proof fn law_fresh_cluster_safe(ids: Set<u64>, peers_of: Map<u64, Seq<RaftNodeId>>)
    requires
        ids.finite(),
        forall|k: u64|
            #[trigger] ids.contains(k) ==> {
                &&& peers_of[k].no_duplicates()
                &&& peer_ids(peers_of[k]) == ids.remove(k)
                &&& peers_of[k].len() + 1 == ids.len()
            },
    ensures
        fresh_cluster(ids, peers_of).safe(),
{
    let c = fresh_cluster(ids, peers_of);
    law_fresh_cluster_consistent(ids, peers_of);
    assert(c.nodes.dom() =~= ids);
    assert forall|z: u64, tt: u64, n: int| !(#[trigger] c.acked(z, tt, n)) by {
    }
    assert forall|k: u64| #[trigger] c.nodes.contains_key(k) implies c.nodes[k].commit_index
        <= c.nodes[k].log.len() && c.covered(c.nodes[k].log.take(c.nodes[k].commit_index as int), c.nodes[k].current_term) by {
        assert(c.nodes[k].log.take(0).len() == 0);
    }
}

/// Handling a delivered message (with the commit candidate the node's own
/// rule picks) keeps a cluster safe.
pub proof fn law_deliver_keeps_safe(c: ClusterView, k: u64, m: MessageView, nci: u64)
    requires
        c.safe(),
        c.nodes.contains_key(k),
        c.sent.contains(m),
        m.to == RaftNodeId(k),
        c.nodes[k].step_ok(m),
        c.nodes[k].step_candidate(m, nci),
    ensures
        c.deliver(k, m, nci).safe(),
{
    law_deliver_keeps_consistent(c, k, m, nci);
    lemma_deliver_commits(c, k, m, nci);
}

/// A timer tick keeps a cluster safe.
pub proof fn law_tick_keeps_safe(c: ClusterView, k: u64, timed_out: bool)
    requires
        c.safe(),
        c.nodes.contains_key(k),
        c.nodes[k].role != Role::Leader && timed_out ==> c.nodes[k].current_term < u64::MAX,
    ensures
        c.tick(k, timed_out).safe(),
{
    law_tick_keeps_consistent(c, k, timed_out);
    lemma_local_commits(c, k, c.nodes[k].on_tick(timed_out), c.tick(k, timed_out), false, Seq::empty(), timed_out);
}

/// Taking a client command keeps a cluster safe.
pub proof fn law_append_keeps_safe(c: ClusterView, k: u64, payload: Seq<u8>)
    requires
        c.safe(),
        c.nodes.contains_key(k),
        c.nodes[k].role == Role::Leader ==> last_index_of(c.nodes[k].log) < u64::MAX,
    ensures
        c.append(k, payload).safe(),
{
    law_append_keeps_consistent(c, k, payload);
    lemma_local_commits(c, k, c.nodes[k].append_local_entry(payload), c.append(k, payload), true, payload, false);
}

/// Handing queued messages to the network keeps a cluster safe.
pub proof fn law_drain_keeps_safe(c: ClusterView, k: u64)
    requires
        c.safe(),
        c.nodes.contains_key(k),
    ensures
        c.drain(k).safe(),
{
    law_drain_keeps_consistent(c, k);
    lemma_drain_commits(c, k);
}

/// A restart from a durable store keeps a cluster safe.
pub proof fn law_restart_keeps_safe(c: ClusterView, k: u64)
    requires
        c.safe(),
        c.nodes.contains_key(k),
        c.durable(k),
    ensures
        c.restart(k).safe(),
{
    law_restart_keeps_consistent(c, k);
    lemma_restart_commits(c, k);
}

} // verus!
