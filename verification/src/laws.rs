//! Properties of the protocol that span operations, proved over its model.
use vstd::prelude::*;
use crate::node::apply_outcome;
use crate::protocol::{ascending, is_commit_candidate, peer_ids, peer_matches, quorum, NodeView};
use crate::rpc::{payload_term, AppendEntriesView, MessageView, PayloadView};
use crate::store::{entries_before, StoreModel};
use crate::types::{last_index_of, well_indexed, EntryView, RaftNodeId, Role};

verus! {

/// Whether replicated entries carry the indices of the positions they are
/// meant for: the entry after `prev` has index `prev + 1`, and so on.
pub open spec fn entries_follow(entries: Seq<EntryView>, prev: int) -> bool {
    forall|k: int| 0 <= k < entries.len() ==> #[trigger] entries[k].index == prev + k + 1
}

/// Whether a message's replicated entries, if it carries any, follow the
/// position they are meant for.
pub open spec fn message_entries_follow(m: MessageView) -> bool {
    match m.payload {
        PayloadView::AppendEntries(a) => entries_follow(a.entries, a.prev_log_index as int),
        _ => true,
    }
}

proof fn lemma_entries_before_all(log: Seq<EntryView>, from: u64)
    requires
        well_indexed(log),
        from > log.len(),
    ensures
        entries_before(log, from) == log,
    decreases log.len(),
{
    if log.len() > 0 {
        lemma_entries_before_all(log.drop_last(), from);
        assert(log.drop_last().push(log.last()) =~= log);
    }
}

/// In a log whose entries sit at the positions their indices name, dropping
/// the entries from index `n + 1` on keeps the first `n` entries.
pub proof fn lemma_entries_before_prefix(log: Seq<EntryView>, n: int)
    requires
        well_indexed(log),
        0 <= n < log.len(),
    ensures
        entries_before(log, (n + 1) as u64) == log.take(n),
    decreases log.len(),
{
    let last = log.len() - 1;
    assert(log[last].index == last + 1);
    if n == last {
        lemma_entries_before_all(log.drop_last(), (n + 1) as u64);
        assert(log.drop_last() =~= log.take(n));
    } else {
        lemma_entries_before_prefix(log.drop_last(), n);
        assert(log.drop_last().take(n) =~= log.take(n));
    }
}

/// Taking replicated entries in keeps the store in step with the log.
pub proof fn lemma_merge_keeps_sync(s: NodeView, at: int, entries: Seq<EntryView>)
    requires
        s.synced(),
        well_indexed(s.log),
        0 <= at <= s.log.len(),
        entries_follow(entries, at),
    ensures
        s.merge_entries(at, entries).synced(),
        well_indexed(s.merge_entries(at, entries).log),
        s.merge_entries(at, entries).current_term == s.current_term,
        s.merge_entries(at, entries).voted_for == s.voted_for,
        s.merge_entries(at, entries).commit_index == s.commit_index,
        s.merge_entries(at, entries).role == s.role,
        s.merge_entries(at, entries).next_index == s.next_index,
    decreases entries.len(),
{
    if entries.len() > 0 {
        let e = entries[0];
        assert(e.index == at + 1);
        let t = if at < s.log.len() {
            if s.log[at].term != e.term {
                assert(s.log[at].index == at + 1);
                lemma_entries_before_prefix(s.log, at);
                NodeView {
                    log: s.log.take(at).push(e),
                    ..s.persist_truncate(s.log[at].index).persist_append(e)
                }
            } else {
                s
            }
        } else {
            NodeView { log: s.log.push(e), ..s.persist_append(e) }
        };
        assert(t.synced());
        assert(well_indexed(t.log));
        assert(entries_follow(entries.drop_first(), at + 1));
        lemma_merge_keeps_sync(t, at + 1, entries.drop_first());
    }
}

/// Durability: every message handler writes through to the store, so a
/// store that held the node's term, vote, log and commit index still does
/// after the message, for any commit candidate. The log must keep each entry
/// at the position its index names, and replicated entries must follow their
/// position.
pub proof fn law_step_keeps_store_synced(s: NodeView, m: MessageView, nci: u64)
    requires
        s.synced(),
        well_indexed(s.log),
        message_entries_follow(m),
    ensures
        s.step(m, nci).synced(),
        well_indexed(s.step(m, nci).log),
{
    let s1 = s.observe_term(payload_term(m.payload));
    assert(s1.synced());
    match m.payload {
        PayloadView::AppendEntries(a) => {
            if a.term == s1.current_term {
                let f = NodeView { role: Role::Follower, ..s1 };
                if f.prev_matches(a) {
                    lemma_merge_keeps_sync(f, a.prev_log_index as int, a.entries);
                }
            }
        },
        _ => {},
    }
}

/// Durability of timer ticks: an election or a heartbeat keeps the store in
/// step with the node.
pub proof fn law_tick_keeps_store_synced(s: NodeView, timed_out: bool)
    requires
        s.synced(),
        well_indexed(s.log),
    ensures
        s.on_tick(timed_out).synced(),
        well_indexed(s.on_tick(timed_out).log),
{
}

/// Durability of client writes: a leader's new entry reaches the store.
pub proof fn law_append_keeps_store_synced(s: NodeView, payload: Seq<u8>)
    requires
        s.synced(),
        well_indexed(s.log),
        last_index_of(s.log) < u64::MAX,
    ensures
        s.append_local_entry(payload).synced(),
        well_indexed(s.append_local_entry(payload).log),
{
    if s.role == Role::Leader {
        let t = s.append_local_entry(payload);
        assert forall|i: int| 0 <= i < t.log.len() implies #[trigger] t.log[i].index == i + 1 by {
            if i < s.log.len() {
                assert(t.log[i] == s.log[i]);
            }
        }
    }
}

/// Recovery: a node restarted from the store of a node whose store was in
/// step holds that node's term, vote, log and commit index, and resumes
/// applying after the entries the store records as applied.
pub proof fn law_restart_recovers(s: NodeView, node_id: RaftNodeId, peers: Seq<RaftNodeId>)
    requires
        s.synced(),
        s.store is Some,
    ensures
        ({
            let r = NodeView::recovered(node_id, peers, s.store->0);
            &&& r.current_term == s.current_term
            &&& r.voted_for == s.voted_for
            &&& r.log == s.log
            &&& r.commit_index == s.commit_index
            &&& r.last_applied == s.store->0.applied
            &&& r.synced()
        }),
{
}

/// Terms never go back: handling a message leaves the term at least where
/// it was.
pub proof fn law_step_term_monotonic(s: NodeView, m: MessageView, nci: u64)
    ensures
        s.step(m, nci).current_term >= s.current_term,
{
    let s1 = s.observe_term(payload_term(m.payload));
    match m.payload {
        PayloadView::AppendEntries(a) => {
            if a.term == s1.current_term {
                let f = NodeView { role: Role::Follower, ..s1 };
                if f.prev_matches(a) {
                    lemma_merge_fields(f, a.prev_log_index as int, a.entries);
                }
            }
        },
        _ => {},
    }
}

/// A message's term is taken up: after handling it the node's term is the
/// larger of its own and the message's, and a node that saw a newer term is
/// a follower that has voted, in that term, at most for the candidate whose
/// request it has just granted.
pub proof fn law_step_takes_up_term(s: NodeView, m: MessageView, nci: u64)
    ensures
        ({
            let t = s.step(m, nci);
            let mt = payload_term(m.payload);
            &&& t.current_term == if mt > s.current_term {
                mt
            } else {
                s.current_term
            }
            &&& mt > s.current_term ==> {
                &&& t.role == Role::Follower
                &&& (t.voted_for is None || (m.payload matches PayloadView::RequestVote(a)
                    && t.voted_for == Some(a.candidate_id)))
            }
        }),
{
    let s1 = s.observe_term(payload_term(m.payload));
    match m.payload {
        PayloadView::AppendEntries(a) => {
            if a.term == s1.current_term {
                let f = NodeView { role: Role::Follower, ..s1 };
                if f.prev_matches(a) {
                    lemma_merge_fields(f, a.prev_log_index as int, a.entries);
                }
            }
        },
        _ => {},
    }
}

/// Every next index a node holds stays at least 1 in every state reached
/// from a new or recovered node by its operations (on inputs on which no
/// counter overflows): it holds at the start and each operation keeps it.
pub proof fn law_next_index_positive(
    node_id: RaftNodeId,
    peers: Seq<RaftNodeId>,
    stored: StoreModel,
    s: NodeView,
    m: MessageView,
    nci: u64,
    timed_out: bool,
    payload: Seq<u8>,
)
    requires
        s.wf(),
    ensures
        NodeView::initial(node_id, peers).wf(),
        NodeView::recovered(node_id, peers, stored).wf(),
        s.step_ok(m) ==> s.step(m, nci).wf(),
        s.on_tick(timed_out).wf(),
        s.append_local_entry(payload).wf(),
{
    if s.step_ok(m) {
        law_step_keeps_wf(s, m, nci);
    }
}

pub proof fn lemma_merge_fields(s: NodeView, at: int, entries: Seq<EntryView>)
    ensures
        s.merge_entries(at, entries).outbox == s.outbox,
        s.merge_entries(at, entries).current_term == s.current_term,
        s.merge_entries(at, entries).voted_for == s.voted_for,
        s.merge_entries(at, entries).commit_index == s.commit_index,
        s.merge_entries(at, entries).role == s.role,
        s.merge_entries(at, entries).next_index == s.next_index,
        s.merge_entries(at, entries).match_index == s.match_index,
        s.merge_entries(at, entries).node_id == s.node_id,
        s.merge_entries(at, entries).peers == s.peers,
        s.merge_entries(at, entries).voters == s.voters,
        s.merge_entries(at, entries).votes_received == s.votes_received,
    decreases entries.len(),
{
    if entries.len() > 0 {
        let e = entries[0];
        let t = if at < s.log.len() {
            if s.log[at].term != e.term {
                NodeView {
                    log: s.log.take(at).push(e),
                    ..s.persist_truncate(s.log[at].index).persist_append(e)
                }
            } else {
                s
            }
        } else {
            NodeView { log: s.log.push(e), ..s.persist_append(e) }
        };
        lemma_merge_fields(t, at + 1, entries.drop_first());
    }
}

/// One vote per term: while the term stays the same, a vote once cast is
/// never moved to another candidate.
pub proof fn law_step_vote_once_per_term(s: NodeView, m: MessageView, nci: u64)
    requires
        s.voted_for is Some,
        s.step(m, nci).current_term == s.current_term,
    ensures
        s.step(m, nci).voted_for == s.voted_for,
{
    law_step_term_monotonic(s, m, nci);
    let s1 = s.observe_term(payload_term(m.payload));
    match m.payload {
        PayloadView::AppendEntries(a) => {
            if a.term == s1.current_term {
                let f = NodeView { role: Role::Follower, ..s1 };
                if f.prev_matches(a) {
                    lemma_merge_fields(f, a.prev_log_index as int, a.entries);
                }
            }
        },
        _ => {},
    }
}

/// The invariant on next indices holds after every message that can be
/// handled without overflow.
pub proof fn law_step_keeps_wf(s: NodeView, m: MessageView, nci: u64)
    requires
        s.wf(),
        s.step_ok(m),
    ensures
        s.step(m, nci).wf(),
{
    let s1 = s.observe_term(payload_term(m.payload));
    match m.payload {
        PayloadView::AppendEntries(a) => {
            if a.term == s1.current_term {
                let f = NodeView { role: Role::Follower, ..s1 };
                if f.prev_matches(a) {
                    lemma_merge_fields(f, a.prev_log_index as int, a.entries);
                }
            }
        },
        _ => {},
    }
}

/// Exactly once, in order: two apply passes, the second after the commit
/// index moved from `c1` to `c2` without changing the entries committed
/// before, deliver together exactly the entries a single pass over the
/// second state delivers, and end at the same applied index.
pub proof fn law_apply_exactly_once(
    la0: u64,
    c1: u64,
    log1: Seq<EntryView>,
    c2: u64,
    log2: Seq<EntryView>,
)
    requires
        c1 <= c2 <= log2.len(),
        c1 <= log1.len(),
        la0 <= c2,
        log1.take(c1 as int) == log2.take(c1 as int),
    ensures
        ({
            let (la1, first) = apply_outcome(la0, c1, log1);
            let (la2, second) = apply_outcome(la1, c2, log2);
            let (la_once, once) = apply_outcome(la0, c2, log2);
            &&& la2 == la_once
            &&& first + second == once
        }),
{
    let (la1, first) = apply_outcome(la0, c1, log1);
    let (la2, second) = apply_outcome(la1, c2, log2);
    let (la_once, once) = apply_outcome(la0, c2, log2);
    if la0 < c1 {
        assert(first =~= log2.subrange(la0 as int, c1 as int)) by {
            assert forall|i: int| 0 <= i < first.len() implies first[i] == log2.subrange(
                la0 as int,
                c1 as int,
            )[i] by {
                assert(log1.take(c1 as int)[la0 + i] == log2.take(c1 as int)[la0 + i]);
            }
        }
        assert(first + second =~= once);
    } else {
        assert(first + second =~= once);
    }
}

/// What successive apply passes from `la` yield, the `i`-th against commit
/// index `commits[i]` and log `logs[i]`: the final applied index and the
/// entries delivered, in order.
pub open spec fn apply_all(la: u64, commits: Seq<u64>, logs: Seq<Seq<EntryView>>) -> (
    u64,
    Seq<EntryView>,
)
    decreases commits.len(),
{
    if commits.len() == 0 || logs.len() == 0 {
        (la, Seq::empty())
    } else {
        let (la1, first) = apply_outcome(la, commits[0], logs[0]);
        let (la2, rest) = apply_all(la1, commits.drop_first(), logs.drop_first());
        (la2, first + rest)
    }
}

/// Any number of apply passes deliver each committed entry exactly once and
/// in index order: while commit indices never fall and the committed part
/// of the log never changes, the passes together deliver the log from the
/// starting point up to the last commit index.
pub proof fn law_apply_all_exactly_once(la: u64, commits: Seq<u64>, logs: Seq<Seq<EntryView>>)
    requires
        commits.len() == logs.len(),
        commits.len() > 0,
        la <= commits[0],
        forall|i: int, j: int| 0 <= i <= j < commits.len() ==> commits[i] <= commits[j],
        forall|i: int| 0 <= i < commits.len() ==> commits[i] <= (#[trigger] logs[i]).len(),
        forall|i: int|
            0 <= i < commits.len() ==> (#[trigger] logs[i]).take(commits[i] as int) == logs.last().take(
                commits[i] as int,
            ),
    ensures
        apply_all(la, commits, logs) == (commits.last(), logs.last().subrange(
            la as int,
            commits.last() as int,
        )),
    decreases commits.len(),
{
    let c0 = commits[0];
    let l0 = logs[0];
    let last = logs.last();
    let (la1, first) = apply_outcome(la, c0, l0);
    assert(la1 == c0);
    assert(first =~= last.subrange(la as int, c0 as int)) by {
        assert forall|k: int| 0 <= k < first.len() implies first[k] == last.subrange(
            la as int,
            c0 as int,
        )[k] by {
            assert(l0.take(c0 as int)[la + k] == last.take(c0 as int)[la + k]);
        }
    }
    if commits.len() == 1 {
        assert(apply_all(la1, commits.drop_first(), logs.drop_first()) == (la1, Seq::<EntryView>::empty()));
        assert(first + Seq::<EntryView>::empty() =~= first);
    } else {
        let cs = commits.drop_first();
        let ls = logs.drop_first();
        assert(ls.last() == last);
        assert forall|i: int| 0 <= i < cs.len() implies (#[trigger] ls[i]).take(cs[i] as int) == ls.last().take(
            cs[i] as int,
        ) by {
            assert(ls[i] == logs[i + 1]);
            assert(cs[i] == commits[i + 1]);
        }
        assert forall|i: int| 0 <= i < cs.len() implies cs[i] <= (#[trigger] ls[i]).len() by {
            assert(ls[i] == logs[i + 1]);
        }
        law_apply_all_exactly_once(la1, cs, ls);
        assert(cs.last() == commits.last());
        assert(first + last.subrange(c0 as int, commits.last() as int) =~= last.subrange(
            la as int,
            commits.last() as int,
        ));
    }
}

/// What a node's vote tally stands for: each counted voter is a distinct
/// peer, and a candidate's count is those voters and its own vote.
pub open spec fn votes_tallied(s: NodeView) -> bool {
    &&& s.voters.no_duplicates()
    &&& forall|i: int| 0 <= i < s.voters.len() ==> peer_ids(s.peers).contains(#[trigger] s.voters[i])
    &&& s.role == Role::Candidate ==> s.votes_received == s.voters.len() + 1
}

/// Handling a message (on which no counter overflows) keeps the vote tally
/// honest: a repeated reply, or one from a node outside the peer list, is
/// not counted.
pub proof fn law_step_keeps_votes_tallied(s: NodeView, m: MessageView, nci: u64)
    requires
        votes_tallied(s),
        s.step_ok(m),
    ensures
        votes_tallied(s.step(m, nci)),
{
    let s1 = s.observe_term(payload_term(m.payload));
    match m.payload {
        PayloadView::AppendEntries(a) => {
            if a.term == s1.current_term {
                let f = NodeView { role: Role::Follower, ..s1 };
                if f.prev_matches(a) {
                    lemma_merge_fields(f, a.prev_log_index as int, a.entries);
                }
            }
        },
        PayloadView::RequestVoteReply(r) => {
            if s1.counts_vote(m.from, r) {
                let v = s1.voters.push(m.from.0);
                assert forall|i: int, j: int| 0 <= i < j < v.len() implies v[i] != v[j] by {
                    if j == v.len() - 1 {
                        assert(v[i] == s1.voters[i]);
                        assert(s1.voters.contains(s1.voters[i]));
                    } else {
                        assert(v[i] == s1.voters[i] && v[j] == s1.voters[j]);
                    }
                }
                assert forall|i: int| 0 <= i < v.len() implies peer_ids(s1.peers).contains(
                    #[trigger] v[i],
                ) by {
                    if i < v.len() - 1 {
                        assert(v[i] == s1.voters[i]);
                    }
                }
                assert(v.no_duplicates());
            }
        },
        _ => {},
    }
}

/// The vote tally is honest from the start and stays so under ticks and
/// local appends.
pub proof fn law_votes_tallied_elsewhere(
    node_id: RaftNodeId,
    peers: Seq<RaftNodeId>,
    stored: StoreModel,
    s: NodeView,
    timed_out: bool,
    payload: Seq<u8>,
)
    requires
        votes_tallied(s),
    ensures
        votes_tallied(NodeView::initial(node_id, peers)),
        votes_tallied(NodeView::recovered(node_id, peers, stored)),
        votes_tallied(s.on_tick(timed_out)),
        votes_tallied(s.append_local_entry(payload)),
{
}

/// Elections need a majority of distinct members: a node with an honest
/// tally that becomes leader on a message has the votes of distinct peers
/// that, with its own, make a majority of the cluster.
pub proof fn law_step_leader_has_majority(s: NodeView, m: MessageView, nci: u64)
    requires
        s.role != Role::Leader,
        votes_tallied(s),
        s.step_ok(m),
        s.step(m, nci).role == Role::Leader,
    ensures
        ({
            let t = s.step(m, nci);
            &&& t.voters.to_set().subset_of(peer_ids(t.peers))
            &&& t.voters.to_set().len() + 1 >= quorum(t.peers)
            &&& t.votes_received * 2 > t.peers.len() + 1
        }),
{
    law_step_keeps_votes_tallied(s, m, nci);
    let s1 = s.observe_term(payload_term(m.payload));
    match m.payload {
        PayloadView::AppendEntries(a) => {
            if a.term == s1.current_term {
                let f = NodeView { role: Role::Follower, ..s1 };
                if f.prev_matches(a) {
                    lemma_merge_fields(f, a.prev_log_index as int, a.entries);
                }
            }
        },
        _ => {},
    }
    let t = s.step(m, nci);
    t.voters.unique_seq_to_set();
    assert forall|k: u64| t.voters.to_set().contains(k) implies peer_ids(t.peers).contains(k) by {
        let i = choose|i: int| 0 <= i < t.voters.len() && t.voters[i] == k;
        assert(peer_ids(t.peers).contains(t.voters[i]));
    }
}

/// A leader commits only what a majority holds: when handling a message
/// raises the commit index of a node that is leader before and after, the
/// entry at the new commit index is of the current term, and a majority of
/// the distinct members of the cluster (the leader by its last index, each
/// peer by its recorded match index) holds the log up to it. Replies from
/// nodes outside the peer list count for nothing.
pub proof fn law_step_commit_needs_majority(s: NodeView, m: MessageView, nci: u64)
    requires
        s.role == Role::Leader,
        distinct_members(s),
        s.step_candidate(m, nci),
        s.step(m, nci).role == Role::Leader,
        s.step(m, nci).commit_index > s.commit_index,
    ensures
        ({
            let t = s.step(m, nci);
            &&& 1 <= t.commit_index <= t.log.len()
            &&& t.log[t.commit_index - 1].term == t.current_term
            &&& holders(t, t.commit_index).subset_of(
                peer_ids(t.peers).insert(t.node_id.0),
            )
            &&& holders(t, t.commit_index).len() >= quorum(t.peers)
        }),
{
    let s1 = s.observe_term(payload_term(m.payload));
    match m.payload {
        PayloadView::AppendEntries(a) => {
            if a.term == s1.current_term {
                let f = NodeView { role: Role::Follower, ..s1 };
                if f.prev_matches(a) {
                    lemma_merge_fields(f, a.prev_log_index as int, a.entries);
                }
            }
        },
        PayloadView::AppendEntriesReply(r) => {
            if s1.role == Role::Leader && r.term == s1.current_term && r.success {
                let rm = s1.record_match(m.from, r);
                law_commit_candidate_held(rm.member_matches(), quorum(rm.peers), nci);
                let t = s.step(m, nci);
                assert(t.commit_index == nci);
                assert(t.match_index == rm.match_index);
                assert(t.log == rm.log && t.peers == rm.peers && t.node_id == rm.node_id);
                assert(t.member_matches() == rm.member_matches());
                lemma_holders_count(t, nci);
            }
        },
        _ => {},
    }
}

/// Any two majorities of a cluster share a node. Since a node votes at most
/// once per term, two candidates cannot both win a majority in one term;
/// and an entry held by one majority is held by a member of every other.
pub proof fn law_quorums_intersect(
    cluster: Set<u64>,
    peers: Seq<RaftNodeId>,
    a: Set<u64>,
    b: Set<u64>,
)
    requires
        cluster.finite(),
        cluster.len() == peers.len() + 1,
        a.subset_of(cluster),
        b.subset_of(cluster),
        a.len() >= quorum(peers),
        b.len() >= quorum(peers),
    ensures
        exists|x: u64| a.contains(x) && b.contains(x),
{
    vstd::set_lib::lemma_len_subset(a, cluster);
    vstd::set_lib::lemma_len_subset(b, cluster);
    vstd::set_lib::lemma_len_subset(a.union(b), cluster);
    vstd::set_lib::lemma_set_intersect_union_lens(a, b);
    let i = a.intersect(b);
    assert(i.len() > 0);
    if i =~= Set::empty() {
        assert(i.len() == 0);
    }
    let x = i.choose();
    assert(i.contains(x));
}

/// Votes follow Raft's rule: a node asked for its vote in a term at least
/// its own grants it exactly when it has not voted for another candidate
/// in that term and the candidate's log is at least as up to date as its
/// own (a later last term wins; with equal last terms, the longer log);
/// a request of an older term is refused. The answer goes back to the
/// requester, and a granted vote is recorded.
pub proof fn law_vote_rule(s: NodeView, m: MessageView, nci: u64, a: crate::rpc::RequestVoteArgs)
    requires
        m.payload == PayloadView::RequestVote(a),
    ensures
        ({
            let t = s.step(m, nci);
            let free = a.term > s.current_term || s.voted_for is None || s.voted_for == Some(
                a.candidate_id,
            );
            let lt = if s.log.len() == 0 {
                0
            } else {
                s.log[s.log.len() - 1].term
            };
            let li = if s.log.len() == 0 {
                0
            } else {
                s.log[s.log.len() - 1].index
            };
            let fresher = a.last_log_term > lt || (a.last_log_term == lt && a.last_log_index >= li);
            let granted = a.term >= s.current_term && free && fresher;
            &&& t.outbox == s.outbox.push(
                MessageView {
                    from: s.node_id,
                    to: m.from,
                    payload: PayloadView::RequestVoteReply(
                        crate::rpc::RequestVoteReply { term: t.current_term, vote_granted: granted },
                    ),
                },
            )
            &&& granted ==> t.voted_for == Some(a.candidate_id)
            &&& !granted ==> t.voted_for == (if a.term > s.current_term {
                None
            } else {
                s.voted_for
            })
        }),
{
}

/// A quorum is the smallest majority of the cluster (the node and its
/// peers): more than half of it, and one fewer is not.
pub proof fn law_quorum_is_smallest_majority(peers: Seq<RaftNodeId>)
    ensures
        quorum(peers) * 2 > peers.len() + 1,
        (quorum(peers) - 1) * 2 <= peers.len() + 1,
{
    let n = (peers.len() + 1) as int;
    assert((n / 2 + 1) * 2 > n && (n / 2) * 2 <= n) by (nonlinear_arith)
        requires
            n >= 1,
    ;
}

/// Elections are won by a strict majority: a candidate that counts a vote
/// becomes leader exactly when its votes, its own included, are more than
/// half of the cluster.
pub proof fn law_election_needs_strict_majority(
    s: NodeView,
    m: MessageView,
    nci: u64,
    r: crate::rpc::RequestVoteReply,
)
    requires
        m.payload == PayloadView::RequestVoteReply(r),
        s.counts_vote(m.from, r),
        s.votes_received < usize::MAX,
    ensures
        (s.step(m, nci).role == Role::Leader) == ((s.votes_received + 1) * 2 > s.peers.len() + 1),
        s.step(m, nci).votes_received == s.votes_received + 1,
{
    law_quorum_is_smallest_majority(s.peers);
    let s1 = s.observe_term(payload_term(m.payload));
    assert(s1 == s);
    let v = s.votes_received + 1;
    let q = quorum(s.peers);
    let n = s.peers.len() + 1;
    assert((v >= q) == (v * 2 > n)) by (nonlinear_arith)
        requires
            q * 2 > n,
            (q - 1) * 2 <= n,
    ;
}

/// A leader commits the largest index that a majority of members reaches:
/// a majority reaches the commit candidate, and no larger index is reached
/// by a majority.
pub proof fn law_commit_candidate_is_majority_max(s: NodeView, nci: u64, v: u64)
    requires
        s.commit_candidate(nci),
        count_at_least(s.member_matches(), v) * 2 > s.peers.len() + 1,
    ensures
        count_at_least(s.member_matches(), nci) * 2 > s.peers.len() + 1,
        v <= nci,
{
    let vals = s.member_matches();
    let q = quorum(s.peers);
    law_quorum_is_smallest_majority(s.peers);
    law_commit_candidate_held(vals, q, nci);
    let sorted = choose|sorted: Seq<u64>|
        {
            &&& ascending(sorted)
            &&& sorted.to_multiset() == vals.to_multiset()
            &&& 1 <= q <= sorted.len()
            &&& nci == sorted[sorted.len() - q]
        };
    assert(vals.len() == s.peers.len() + 1);
    vstd::seq_lib::to_multiset_len(sorted);
    vstd::seq_lib::to_multiset_len(vals);
    if v > nci {
        let k = sorted.len() - q + 1;
        assert forall|i: int| 0 <= i < k implies sorted[i] < v by {
            assert(sorted[i] <= sorted[sorted.len() - q]);
        }
        lemma_count_prefix_below(sorted, k, v);
        lemma_count_same_multiset(sorted, vals, v);
    }
}

/// How a replication request is answered: the node takes up the request's
/// term if it is later; a request of its (new) current term makes it a
/// follower, and is accepted exactly when its previous index is 0 or names
/// an entry of the log with the previous term; an accepted request keeps
/// the log before the previous index, places entries of the sent terms
/// after it, and raises the commit index to the leader's, bounded by the
/// last index of the log; a refused one changes neither. The answer goes
/// back to the sender with the node's term, whether it was accepted, and
/// (if so) the index of the last entry sent.
pub proof fn law_append_entries_answer(s: NodeView, m: MessageView, nci: u64, a: AppendEntriesView)
    requires
        m.payload == PayloadView::AppendEntries(a),
    ensures
        ({
            let t = s.step(m, nci);
            let p = a.prev_log_index as int;
            let cur = if a.term > s.current_term {
                a.term
            } else {
                s.current_term
            };
            let ok = a.term == cur && (p == 0 || (p <= s.log.len() && s.log[p - 1].term
                == a.prev_log_term));
            &&& t.current_term == cur
            &&& t.outbox == s.outbox.push(
                MessageView {
                    from: s.node_id,
                    to: m.from,
                    payload: PayloadView::AppendEntriesReply(
                        crate::rpc::AppendEntriesReply {
                            term: cur,
                            success: ok,
                            match_index: if ok {
                                (a.prev_log_index + a.entries.len()) as u64
                            } else {
                                0
                            },
                        },
                    ),
                },
            )
            &&& a.term == cur ==> t.role == Role::Follower
            &&& !ok ==> t.log == s.log && t.commit_index == s.commit_index
            &&& ok ==> {
                &&& t.log.len() >= p + a.entries.len()
                &&& t.log.take(p) == s.log.take(p)
                &&& forall|k: int| 0 <= k < a.entries.len() ==> #[trigger] t.log[p + k].term == a.entries[k].term
                &&& t.commit_index == if a.leader_commit > s.commit_index {
                    if a.leader_commit <= last_index_of(t.log) {
                        a.leader_commit
                    } else {
                        last_index_of(t.log)
                    }
                } else {
                    s.commit_index
                }
            }
        }),
{
    let s1 = s.observe_term(a.term);
    assert(s1.log == s.log && s1.commit_index == s.commit_index && s1.outbox == s.outbox);
    if a.term == s1.current_term {
        let f = NodeView { role: Role::Follower, ..s1 };
        if f.prev_matches(a) {
            lemma_merge_matches(f, a.prev_log_index as int, a.entries);
            lemma_merge_fields(f, a.prev_log_index as int, a.entries);
        }
    }
}

/// Timer ticks never make a leader.
pub proof fn law_tick_never_elects(s: NodeView, timed_out: bool)
    requires
        s.role != Role::Leader,
    ensures
        s.on_tick(timed_out).role != Role::Leader,
{
}

/// How many elements of `s` are at least `v`.
pub open spec fn count_at_least(s: Seq<u64>, v: u64) -> nat
    decreases s.len(),
{
    if s.len() == 0 {
        0
    } else {
        count_at_least(s.drop_last(), v) + if s.last() >= v {
            1nat
        } else {
            0nat
        }
    }
}

proof fn lemma_count_remove(s: Seq<u64>, j: int, v: u64)
    requires
        0 <= j < s.len(),
    ensures
        count_at_least(s, v) == count_at_least(s.remove(j), v) + if s[j] >= v {
            1nat
        } else {
            0nat
        },
    decreases s.len(),
{
    if j == s.len() - 1 {
        assert(s.remove(j) =~= s.drop_last());
    } else {
        lemma_count_remove(s.drop_last(), j, v);
        assert(s.remove(j).drop_last() =~= s.drop_last().remove(j));
        assert(s.remove(j).last() == s.last());
    }
}

proof fn lemma_count_same_multiset(s1: Seq<u64>, s2: Seq<u64>, v: u64)
    requires
        s1.to_multiset() == s2.to_multiset(),
    ensures
        count_at_least(s1, v) == count_at_least(s2, v),
    decreases s1.len(),
{
    vstd::seq_lib::to_multiset_len(s1);
    vstd::seq_lib::to_multiset_len(s2);
    if s1.len() > 0 {
        let x = s1.last();
        assert(s1.drop_last().push(x) =~= s1);
        vstd::seq_lib::to_multiset_build(s1.drop_last(), x);
        vstd::seq_lib::to_multiset_contains(s2, x);
        vstd::seq_lib::to_multiset_contains(s1, x);
        assert(s1.contains(x)) by {
            assert(s1[s1.len() - 1] == x);
        }
        let j = choose|j: int| 0 <= j < s2.len() && s2[j] == x;
        vstd::seq_lib::to_multiset_remove(s2, j);
        assert(s1.drop_last().to_multiset() =~= s2.remove(j).to_multiset());
        lemma_count_same_multiset(s1.drop_last(), s2.remove(j), v);
        lemma_count_remove(s2, j, v);
    }
}

proof fn lemma_count_suffix(s: Seq<u64>, k: int, v: u64)
    requires
        0 <= k <= s.len(),
        forall|i: int| k <= i < s.len() ==> s[i] >= v,
    ensures
        count_at_least(s, v) >= s.len() - k,
    decreases s.len(),
{
    if s.len() > k {
        lemma_count_suffix(s.drop_last(), k, v);
    }
}

/// The commit candidate at position `len - q` is reached by at least `q`
/// of the values it is chosen from.
pub proof fn law_commit_candidate_held(vals: Seq<u64>, q: int, v: u64)
    requires
        is_commit_candidate(vals, q, v),
    ensures
        count_at_least(vals, v) >= q,
{
    let sorted = choose|sorted: Seq<u64>|
        {
            &&& ascending(sorted)
            &&& sorted.to_multiset() == vals.to_multiset()
            &&& 1 <= q <= sorted.len()
            &&& v == sorted[sorted.len() - q]
        };
    let k = sorted.len() - q;
    assert forall|i: int| k <= i < sorted.len() implies sorted[i] >= v by {
        assert(sorted[k] <= sorted[i]);
    }
    lemma_count_suffix(sorted, k, v);
    lemma_count_same_multiset(sorted, vals, v);
}

/// The peers among `peers` whose recorded match index reaches `c`.
pub open spec fn peer_holders(m: Map<u64, u64>, peers: Seq<RaftNodeId>, c: u64) -> Set<u64> {
    Set::new(
        |k: u64|
            peer_ids(peers).contains(k) && (if m.contains_key(k) {
                m[k]
            } else {
                0
            }) >= c,
    )
}

/// The members of a leader's cluster that hold its log up to `c`: the
/// leader by its last index, each peer by the match index recorded for it.
pub open spec fn holders(s: NodeView, c: u64) -> Set<u64> {
    peer_holders(s.match_index, s.peers, c).union(
        if last_index_of(s.log) >= c {
            set![s.node_id.0]
        } else {
            Set::empty()
        },
    )
}

proof fn lemma_peer_holders_count(m: Map<u64, u64>, peers: Seq<RaftNodeId>, c: u64)
    requires
        peers.no_duplicates(),
    ensures
        peer_holders(m, peers, c).finite(),
        peer_holders(m, peers, c).len() == count_at_least(peer_matches(m, peers), c),
    decreases peers.len(),
{
    let h = peer_holders(m, peers, c);
    if peers.len() == 0 {
        assert(h =~= Set::empty());
        assert(peer_matches(m, peers) =~= Seq::<u64>::empty());
    } else {
        let init = peers.drop_last();
        let p = peers.last();
        assert(init.no_duplicates());
        lemma_peer_holders_count(m, init, c);
        let hi = peer_holders(m, init, c);
        assert(peer_matches(m, peers).drop_last() =~= peer_matches(m, init));
        let v = if m.contains_key(p.0) {
            m[p.0]
        } else {
            0
        };
        assert(peer_matches(m, peers).last() == v);
        assert forall|k: u64| #[trigger] peer_ids(peers).contains(k) <==> (peer_ids(init).contains(k)
            || k == p.0) by {
            if peer_ids(peers).contains(k) {
                let i = choose|i: int| 0 <= i < peers.len() && (#[trigger] peers[i]).0 == k;
                if i < peers.len() - 1 {
                    assert(init[i] == peers[i]);
                }
            }
            if peer_ids(init).contains(k) {
                let i = choose|i: int| 0 <= i < init.len() && (#[trigger] init[i]).0 == k;
                assert(peers[i] == init[i]);
            }
            if k == p.0 {
                assert(peers[peers.len() - 1].0 == k);
            }
        }
        assert(!peer_ids(init).contains(p.0)) by {
            if peer_ids(init).contains(p.0) {
                let i = choose|i: int| 0 <= i < init.len() && (#[trigger] init[i]).0 == p.0;
                assert(peers[i] == init[i]);
                assert(peers[i].0 == peers[peers.len() - 1].0);
                assert(peers[i] == peers[peers.len() - 1]);
            }
        }
        if v >= c {
            assert(h =~= hi.insert(p.0));
        } else {
            assert(h =~= hi);
        }
    }
}

/// Whether a leader's peer list names distinct nodes other than itself.
pub open spec fn distinct_members(s: NodeView) -> bool {
    s.peers.no_duplicates() && !peer_ids(s.peers).contains(s.node_id.0)
}

/// How many members hold the log up to `c` is what the leader counts:
/// each peer's recorded match index and its own last index, each once.
pub proof fn lemma_holders_count(s: NodeView, c: u64)
    requires
        distinct_members(s),
    ensures
        holders(s, c).finite(),
        holders(s, c).len() == count_at_least(s.member_matches(), c),
{
    lemma_peer_holders_count(s.match_index, s.peers, c);
    let ph = peer_holders(s.match_index, s.peers, c);
    assert(s.member_matches().drop_last() =~= peer_matches(s.match_index, s.peers));
    assert(!ph.contains(s.node_id.0));
    if last_index_of(s.log) >= c {
        assert(holders(s, c) =~= ph.insert(s.node_id.0));
    } else {
        assert(holders(s, c) =~= ph);
    }
}

/// Taking in replicated entries at `at` keeps the log before `at`, and
/// leaves at each following position an entry of the term the replicated
/// entry has there.
pub proof fn lemma_merge_matches(s: NodeView, at: int, entries: Seq<EntryView>)
    requires
        0 <= at <= s.log.len(),
    ensures
        ({
            let r = s.merge_entries(at, entries).log;
            &&& r.len() >= at + entries.len()
            &&& r.take(at) == s.log.take(at)
            &&& forall|k: int| 0 <= k < entries.len() ==> #[trigger] r[at + k].term == entries[k].term
        }),
    decreases entries.len(),
{
    if entries.len() > 0 {
        let e = entries[0];
        let t = if at < s.log.len() {
            if s.log[at].term != e.term {
                NodeView {
                    log: s.log.take(at).push(e),
                    ..s.persist_truncate(s.log[at].index).persist_append(e)
                }
            } else {
                s
            }
        } else {
            NodeView { log: s.log.push(e), ..s.persist_append(e) }
        };
        assert(t.log.take(at) =~= s.log.take(at));
        assert(t.log[at].term == e.term);
        lemma_merge_matches(t, at + 1, entries.drop_first());
        let r = t.merge_entries(at + 1, entries.drop_first()).log;
        assert(r.take(at) =~= t.log.take(at)) by {
            assert forall|i: int| 0 <= i < at implies r[i] == t.log[i] by {
                assert(r.take(at + 1)[i] == t.log.take(at + 1)[i]);
            }
        }
        assert(r[at] == t.log[at]) by {
            assert(r.take(at + 1)[at] == t.log.take(at + 1)[at]);
        }
        assert forall|k: int| 0 <= k < entries.len() implies #[trigger] r[at + k].term
            == entries[k].term by {
            if k > 0 {
                assert(entries.drop_first()[k - 1] == entries[k]);
                assert(r[(at + 1) + (k - 1)].term == entries.drop_first()[k - 1].term);
            }
        }
    }
}

/// Log matching: a follower that accepts a replication request keeps its
/// log up to the request's previous entry and then holds, position by
/// position, entries of the terms the request carries.
pub proof fn law_append_entries_log_matching(s: NodeView, from: RaftNodeId, a: AppendEntriesView)
    requires
        a.term == s.current_term,
        s.prev_matches(a),
    ensures
        ({
            let r = s.on_append_entries(from, a).log;
            let p = a.prev_log_index as int;
            &&& r.len() >= p + a.entries.len()
            &&& r.take(p) == s.log.take(p)
            &&& forall|k: int| 0 <= k < a.entries.len() ==> #[trigger] r[p + k].term == a.entries[k].term
        }),
{
    let f = NodeView { role: Role::Follower, ..s };
    lemma_merge_matches(f, a.prev_log_index as int, a.entries);
}

proof fn lemma_count_prefix_below(s: Seq<u64>, k: int, w: u64)
    requires
        0 <= k <= s.len(),
        forall|i: int| 0 <= i < k ==> s[i] < w,
    ensures
        count_at_least(s, w) <= s.len() - k,
    decreases s.len(),
{
    if s.len() > 0 {
        if s.len() - 1 >= k {
            lemma_count_prefix_below(s.drop_last(), k, w);
        } else {
            lemma_count_prefix_below(s.drop_last(), s.len() - 1, w);
        }
    }
}

/// The commit candidate is determined by the values it is chosen from: two
/// candidates of one list and quorum size are equal. Handling a message is
/// therefore a function of the node's state and the message.
pub proof fn law_commit_candidate_unique(vals: Seq<u64>, q: int, v1: u64, v2: u64)
    requires
        is_commit_candidate(vals, q, v1),
        is_commit_candidate(vals, q, v2),
    ensures
        v1 == v2,
{
    let sorted1 = choose|sorted: Seq<u64>|
        {
            &&& ascending(sorted)
            &&& sorted.to_multiset() == vals.to_multiset()
            &&& 1 <= q <= sorted.len()
            &&& v1 == sorted[sorted.len() - q]
        };
    let sorted2 = choose|sorted: Seq<u64>|
        {
            &&& ascending(sorted)
            &&& sorted.to_multiset() == vals.to_multiset()
            &&& 1 <= q <= sorted.len()
            &&& v2 == sorted[sorted.len() - q]
        };
    if v1 != v2 {
        let (lo, hi, s_lo, s_hi) = if v1 < v2 {
            (v1, v2, sorted1, sorted2)
        } else {
            (v2, v1, sorted2, sorted1)
        };
        let k_lo = s_lo.len() - q;
        let k_hi = s_hi.len() - q;
        assert forall|i: int| k_hi <= i < s_hi.len() implies s_hi[i] >= hi by {
            assert(s_hi[k_hi] <= s_hi[i]);
        }
        lemma_count_suffix(s_hi, k_hi, hi);
        assert forall|i: int| 0 <= i < k_lo + 1 implies s_lo[i] < hi by {
            assert(s_lo[i] <= s_lo[k_lo]);
        }
        lemma_count_prefix_below(s_lo, k_lo + 1, hi);
        lemma_count_same_multiset(s_lo, s_hi, hi);
    }
}

/// Handling a message is deterministic: any two commit candidates that the
/// step contract admits give the same next state.
pub proof fn law_step_deterministic(s: NodeView, m: MessageView, n1: u64, n2: u64)
    requires
        s.step_candidate(m, n1),
        s.step_candidate(m, n2),
    ensures
        s.step(m, n1) == s.step(m, n2),
{
    let s1 = s.observe_term(payload_term(m.payload));
    match m.payload {
        PayloadView::AppendEntriesReply(r) => {
            if s1.role == Role::Leader && r.term == s1.current_term && r.success {
                let t = s1.record_match(m.from, r);
                law_commit_candidate_unique(t.member_matches(), quorum(t.peers), n1, n2);
            }
        },
        _ => {},
    }
}

} // verus!
