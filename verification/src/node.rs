//! A Raft consensus node: elections, log replication and commitment, with
//! its durable state written through to an optional store.
use vstd::prelude::*;
use std::collections::HashMap;
use std::time::{Duration, Instant};
use crate::clock::{deadline_after, instant_after, instant_at_or_after, instant_now, instant_reached};
use crate::protocol::{
    ascending, enumerates, for_peers, is_commit_candidate, peer_ids, peer_matches, quorum,
    NodeView,
};
use vstd::std_specs::hash::spec_hash_map_iter;
use vstd::std_specs::iter::IteratorSpec;
use crate::rpc::{
    message_term, messages_view, payload_term, AppendEntriesArgs, AppendEntriesReply, MessagePayload,
    RaftMessage, RequestVoteArgs, RequestVoteReply,
};
use crate::store::{InMemoryStateStore, RaftStateStore};
use crate::types::{
    clone_entries_from, entries_view, last_index_of, last_term_of, EntryView, LogEntry, RaftNodeId,
    Role,
};

verus! {

broadcast use vstd::std_specs::hash::group_hash_axioms;

/// One member of a Raft cluster. Messages it wants to send collect in
/// `outbox`; the caller delivers them.
pub struct RaftNode<S = InMemoryStateStore> {
    pub node_id: RaftNodeId,
    pub peers: Vec<RaftNodeId>,
    pub current_term: u64,
    pub voted_for: Option<RaftNodeId>,
    pub commit_index: u64,
    pub last_applied: u64,
    pub role: Role,
    pub election_timeout: Duration,
    pub election_deadline: Instant,
    pub log: Vec<LogEntry>,
    /// Leader state, keyed by the peer's id number.
    pub next_index: HashMap<u64, u64>,
    pub match_index: HashMap<u64, u64>,
    /// Candidate state.
    pub votes_received: usize,
    /// The ids of the peers whose votes the candidate has counted.
    voters: Vec<u64>,
    pub outbox: Vec<RaftMessage>,
    store: Option<S>,
}

impl<S: RaftStateStore> View for RaftNode<S> {
    type V = NodeView;

    closed spec fn view(&self) -> NodeView {
        NodeView {
            node_id: self.node_id,
            peers: self.peers@,
            current_term: self.current_term,
            voted_for: self.voted_for,
            commit_index: self.commit_index,
            last_applied: self.last_applied,
            role: self.role,
            log: entries_view(self.log@),
            next_index: self.next_index@,
            match_index: self.match_index@,
            votes_received: self.votes_received,
            voters: self.voters@,
            outbox: messages_view(self.outbox@),
            store: match self.store {
                Some(b) => Some(b.persisted()),
                None => None,
            },
        }
    }
}

/// The instant `timeout` after now; the reading itself where that instant
/// cannot be represented.
fn deadline_from_now(timeout: Duration) -> (r: Instant)
    ensures
        exists|now: Instant| r == deadline_after(now, timeout),
{
    let now = instant_now();
    let r = match instant_after(now, timeout) {
        Some(d) => d,
        None => now,
    };
    assert(r == deadline_after(now, timeout));
    r
}

proof fn lemma_for_peers_extend(base: Map<u64, u64>, peers: Seq<RaftNodeId>, i: int, v: u64)
    requires
        0 <= i < peers.len(),
    ensures
        base.union_prefer_right(for_peers(peers.take(i), v)).insert(peers[i].0, v)
            == base.union_prefer_right(for_peers(peers.take(i + 1), v)),
{
    let a = base.union_prefer_right(for_peers(peers.take(i), v)).insert(peers[i].0, v);
    let b = base.union_prefer_right(for_peers(peers.take(i + 1), v));
    assert forall|k: u64| peer_ids(peers.take(i + 1)).contains(k) <==> (peer_ids(
        peers.take(i),
    ).contains(k) || k == peers[i].0) by {
        if peer_ids(peers.take(i + 1)).contains(k) {
            let j = choose|j: int| 0 <= j < peers.take(i + 1).len() && (#[trigger] peers.take(
                i + 1,
            )[j]).0 == k;
            if j < i {
                assert(peers.take(i)[j] == peers.take(i + 1)[j]);
            }
        }
        if peer_ids(peers.take(i)).contains(k) {
            let j = choose|j: int| 0 <= j < peers.take(i).len() && (#[trigger] peers.take(
                i,
            )[j]).0 == k;
            assert(peers.take(i)[j] == peers.take(i + 1)[j]);
        }
        if k == peers[i].0 {
            assert(peers.take(i + 1)[i] == peers[i]);
        }
    }
    assert forall|k: u64| #[trigger] a.contains_key(k) <==> b.contains_key(k) by {
        assert(for_peers(peers.take(i), v).contains_key(k) <==> peer_ids(peers.take(i)).contains(k));
        assert(for_peers(peers.take(i + 1), v).contains_key(k) <==> peer_ids(peers.take(i + 1)).contains(k));
    }
    assert forall|k: u64| #[trigger] a.contains_key(k) implies a[k] == b[k] by {
        assert(for_peers(peers.take(i), v).contains_key(k) <==> peer_ids(peers.take(i)).contains(k));
        assert(for_peers(peers.take(i + 1), v).contains_key(k) <==> peer_ids(peers.take(i + 1)).contains(k));
    }
    assert(a =~= b);
}

/// The values held in `m`, one for each key, in the map's own order.
fn collect_values(m: &HashMap<u64, u64>) -> (r: Vec<u64>)
    ensures
        enumerates(r@, m@),
{
    let mut r: Vec<u64> = Vec::new();
    let ghost mut keys: Seq<u64> = Seq::empty();
    for p in it: m.iter()
        invariant
            r.len() == it.index(),
            keys.len() == it.index(),
            it.seq() == spec_hash_map_iter(m).remaining(),
            forall|i: int| 0 <= i < it.index() ==> keys[i] == *(#[trigger] it.seq()[i]).0 && r@[i] == *it.seq()[i].1,
    {
        r.push(*p.1);
        proof {
            keys = keys.push(*p.0);
        }
    }
    proof {
        let pairs = spec_hash_map_iter(m).remaining();
        assert(keys.len() == pairs.len());
        assert(pairs.len() == m@.dom().len());
        assert forall|i: int| 0 <= i < keys.len() implies m@.contains_key(#[trigger] keys[i]) && r@[i]
            == m@[keys[i]] by {
            assert(m@.contains_key(*pairs[i].0));
        }
        assert(pairs.no_duplicates());
        assert forall|i: int, j: int| 0 <= i < keys.len() && 0 <= j < keys.len() && i != j implies keys[i]
            != keys[j] by {
            assert(m@.contains_key(*pairs[i].0));
            assert(m@.contains_key(*pairs[j].0));
            if keys[i] == keys[j] {
                assert(pairs[i] == pairs[j]);
            }
        }
        assert forall|k: u64| #[trigger] m@.dom().contains(k) implies keys.contains(k) by {
            assert(pairs.contains((&k, &m@[k])));
            let i = choose|i: int| 0 <= i < pairs.len() && pairs[i] == (&k, &m@[k]);
            assert(keys[i] == k);
        }
        assert(keys.to_set() =~= m@.dom());
        assert(keys.no_duplicates());
        assert(forall|i: int| 0 <= i < keys.len() ==> r@[i] == m@[#[trigger] keys[i]]);
        assert(keys.len() == r@.len());
        assert(enumerates(r@, m@));
    }
    r
}

/// Sorts with `slice::sort_unstable`, which orders the values ascending and
/// keeps each of them (it neither adds nor drops one).
#[verifier::external_body]
fn sort_ascending(v: &mut Vec<u64>)
    ensures
        final(v)@.to_multiset() == old(v)@.to_multiset(),
        ascending(final(v)@),
{
    v.sort_unstable();
}

proof fn lemma_wf_from_next_index(s: NodeView, m: Map<u64, u64>, ok: bool)
    requires
        s.next_index == m,
        ok == (forall|k: u64| #[trigger] m.contains_key(k) ==> m[k] >= 1),
    ensures
        ok == s.wf(),
{
    if ok {
        assert forall|k: u64| #[trigger] s.next_index.contains_key(k) implies s.next_index[k] >= 1 by {
            assert(m.contains_key(k));
        }
    } else {
        let k = choose|k: u64| m.contains_key(k) && !(m[k] >= 1);
        assert(s.next_index.contains_key(k));
    }
}

/// Whether every value in a map of next indices is at least one.
fn all_at_least_one(m: &HashMap<u64, u64>) -> (r: bool)
    ensures
        r == (forall|k: u64| #[trigger] m@.contains_key(k) ==> m@[k] >= 1),
{
    let vals = collect_values(m);
    assert(enumerates(vals@, m@));
    let ghost keys = choose|keys: Seq<u64>|
        {
            &&& keys.len() == vals@.len()
            &&& keys.no_duplicates()
            &&& keys.to_set() == m@.dom()
            &&& forall|i: int| 0 <= i < keys.len() ==> vals@[i] == m@[#[trigger] keys[i]]
        };
    let mut i: usize = 0;
    while i < vals.len()
        invariant
            i <= vals.len(),
            forall|j: int| 0 <= j < i ==> vals@[j] >= 1,
            keys.len() == vals@.len(),
            keys.to_set() == m@.dom(),
            forall|j: int| 0 <= j < keys.len() ==> vals@[j] == m@[#[trigger] keys[j]],
        decreases vals.len() - i,
    {
        if vals[i] == 0 {
            proof {
                assert(keys.to_set().contains(keys[i as int]));
                assert(m@.contains_key(keys[i as int]));
            }
            return false;
        }
        i = i + 1;
    }
    proof {
        assert forall|k: u64| #[trigger] m@.contains_key(k) implies m@[k] >= 1 by {
            assert(m@.dom().contains(k));
            assert(keys.to_set().contains(k));
            let j = choose|j: int| 0 <= j < keys.len() && keys[j] == k;
            assert(vals@[j] == m@[keys[j]]);
        }
    }
    true
}

/// Whether `x` is among `v`.
fn contains_id(v: &Vec<u64>, x: u64) -> (r: bool)
    ensures
        r == v@.contains(x),
{
    let mut i: usize = 0;
    while i < v.len()
        invariant
            i <= v.len(),
            forall|j: int| 0 <= j < i ==> v@[j] != x,
        decreases v.len() - i,
    {
        if v[i] == x {
            return true;
        }
        i = i + 1;
    }
    false
}

/// Whether `x` is the id of one of `peers`.
fn is_peer(peers: &Vec<RaftNodeId>, x: u64) -> (r: bool)
    ensures
        r == peer_ids(peers@).contains(x),
{
    let mut i: usize = 0;
    while i < peers.len()
        invariant
            i <= peers.len(),
            forall|j: int| 0 <= j < i ==> peers@[j].0 != x,
        decreases peers.len() - i,
    {
        if peers[i].0 == x {
            assert(peers@[i as int].0 == x);
            return true;
        }
        i = i + 1;
    }
    false
}

impl RaftNode<InMemoryStateStore> {
    /// Create a new in-memory node (for tests and backward compatibility).
    pub fn new(node_id: RaftNodeId, peers: Vec<RaftNodeId>, election_timeout: Duration) -> (r:
        Self)
        ensures
            r@ == NodeView::initial(node_id, peers@),
            r.timeout_of() == election_timeout,
            exists|now: Instant| r.deadline_of() == deadline_after(now, election_timeout),
    {
        let deadline = deadline_from_now(election_timeout);
        let r = RaftNode {
            node_id,
            peers,
            current_term: 0,
            voted_for: None,
            commit_index: 0,
            last_applied: 0,
            role: Role::Follower,
            election_timeout,
            election_deadline: deadline,
            log: Vec::new(),
            next_index: HashMap::new(),
            match_index: HashMap::new(),
            votes_received: 0,
            voters: Vec::new(),
            outbox: Vec::new(),
            store: None,
        };
        assert(r@ =~= NodeView::initial(node_id, peers@));
        r
    }
}

impl<S: RaftStateStore> RaftNode<S> {
    /// Create a node backed by a persistent store. Recovers term, votedFor,
    /// log, and commit_index from the store on startup.
    pub fn new_with_store(
        node_id: RaftNodeId,
        peers: Vec<RaftNodeId>,
        election_timeout: Duration,
        store: S,
    ) -> (r: Self)
        ensures
            r@ == NodeView::recovered(node_id, peers@, store.persisted()),
            r.timeout_of() == election_timeout,
            exists|now: Instant| r.deadline_of() == deadline_after(now, election_timeout),
    {
        let deadline = deadline_from_now(election_timeout);
        let current_term = store.current_term();
        let voted_for = store.voted_for();
        let log = clone_entries_from(store.entries(), 0);
        let commit_index = store.commit_index();
        let last_applied = store.applied_index();
        let ghost m = store.persisted();

        let r = RaftNode {
            node_id,
            peers,
            current_term,
            voted_for,
            commit_index,
            last_applied,
            role: Role::Follower,
            election_timeout,
            election_deadline: deadline,
            log,
            next_index: HashMap::new(),
            match_index: HashMap::new(),
            votes_received: 0,
            voters: Vec::new(),
            outbox: Vec::new(),
            store: Some(store),
        };
        assert(entries_view(r.log@) =~= m.log);
        assert(r@ =~= NodeView::recovered(node_id, peers@, m));
        r
    }

    /// The role this node plays now.
    pub fn role(&self) -> (r: Role)
        ensures
            r == self@.role,
    {
        self.role
    }

    /// The current term.
    pub fn term(&self) -> (r: u64)
        ensures
            r == self@.current_term,
    {
        self.current_term
    }

    /// The index up to which entries are committed.
    pub fn committed(&self) -> (r: u64)
        ensures
            r == self@.commit_index,
    {
        self.commit_index
    }

    /// The store this node writes its durable state to, if it has one.
    pub fn state_store(&self) -> (r: Option<&S>)
        ensures
            match r {
                Some(st) => self@.store == Some(st.persisted()),
                None => self@.store is None,
            },
    {
        match &self.store {
            Some(st) => Some(st),
            None => None,
        }
    }

    /// Whether `step(msg)` can run here: the next-index invariant holds and
    /// handling `msg` overflows no counter and reads no missing next index.
    pub fn can_step(&self, msg: &RaftMessage) -> (r: bool)
        ensures
            r == (self@.wf() && self@.step_ok(msg@)),
    {
        let ok = all_at_least_one(&self.next_index);
        proof {
            lemma_wf_from_next_index(self@, self.next_index@, ok);
        }
        if !ok {
            return false;
        }
        let t = message_term(&msg.payload);
        let raised = t > self.current_term;
        let role = if raised { Role::Follower } else { self.role };
        let term = if raised { t } else { self.current_term };
        let n = self.peers.len();
        let q = n / 2 + n % 2 + 1;
        assert(q == quorum(self@.peers));
        let last: u64 = if self.log.len() == 0 { 0 } else { self.log[self.log.len() - 1].index };
        let ghost s1 = self@.observe_term(payload_term(msg@.payload));
        assert(s1.role == role && s1.current_term == term && s1.log == self@.log);
        assert(s1.match_index == self@.match_index && s1.next_index == self@.next_index);
        assert(s1.votes_received == self@.votes_received && s1.peers == self@.peers);
        assert(s1.voters == self@.voters);
        match &msg.payload {
            MessagePayload::RequestVote(_) => true,
            MessagePayload::RequestVoteReply(r) => {
                if role == Role::Candidate && r.term == term && r.vote_granted && is_peer(
                    &self.peers,
                    msg.from.0,
                ) && !contains_id(&self.voters, msg.from.0) {
                    self.votes_received < usize::MAX && (self.votes_received + 1 < q || last
                        < u64::MAX)
                } else {
                    true
                }
            },
            MessagePayload::AppendEntries(a) => {
                let len: u64 = self.log.len() as u64;
                let prev = a.prev_log_index;
                let prev_ok = prev == 0 || (prev <= len && self.log[(prev - 1) as usize].term
                    == a.prev_log_term);
                if a.term == term && prev_ok {
                    prev <= u64::MAX - prev && (a.entries.len() as u64) <= u64::MAX - prev - prev
                } else {
                    true
                }
            },
            MessagePayload::AppendEntriesReply(r) => {
                if role == Role::Leader && r.term == term {
                    if r.success {
                        r.match_index < u64::MAX
                    } else {
                        self.next_index.contains_key(&msg.from.0)
                    }
                } else {
                    true
                }
            },
            MessagePayload::InstallSnapshot(_) => true,
            MessagePayload::InstallSnapshotReply(_) => true,
        }
    }

    /// Whether `tick(now)` can run here: the next-index invariant holds and,
    /// where the tick starts an election, the term can still grow.
    pub fn can_tick(&self, now: &Instant) -> (r: bool)
        ensures
            r == (self@.wf() && (self.times_out(*now) ==> self@.current_term < u64::MAX)),
    {
        let ok = all_at_least_one(&self.next_index);
        proof {
            lemma_wf_from_next_index(self@, self.next_index@, ok);
        }
        let times_out = self.role != Role::Leader && instant_reached(now, &self.election_deadline);
        ok && (!times_out || self.current_term < u64::MAX)
    }

    /// Whether `append_local_entry` can run here: the next-index invariant
    /// holds and, on a leader, the next entry index exists.
    pub fn can_append(&self) -> (r: bool)
        ensures
            r == (self@.wf() && (self@.role == Role::Leader ==> last_index_of(self@.log)
                < u64::MAX)),
    {
        let last: u64 = if self.log.len() == 0 { 0 } else { self.log[self.log.len() - 1].index };
        let ok = all_at_least_one(&self.next_index);
        proof {
            lemma_wf_from_next_index(self@, self.next_index@, ok);
        }
        ok && (self.role != Role::Leader || last < u64::MAX)
    }

    /// Persist current term to the store (if present).
    fn persist_term(&mut self)
        ensures
            final(self)@ == old(self)@.persist_term(),
            final(self).keeps_timer(*old(self)),
    {
        let t = self.current_term;
        match &mut self.store {
            Some(st) => st.set_current_term(t),
            None => {},
        }
    }

    /// Persist voted_for to the store (if present).
    fn persist_voted_for(&mut self)
        ensures
            final(self)@ == old(self)@.persist_voted_for(),
            final(self).keeps_timer(*old(self)),
    {
        let v = self.voted_for;
        match &mut self.store {
            Some(st) => st.set_voted_for(v),
            None => {},
        }
    }

    /// Persist a log entry to the store (if present).
    fn persist_log_append(&mut self, entry: &LogEntry)
        ensures
            final(self)@ == old(self)@.persist_append(entry@),
            final(self).keeps_timer(*old(self)),
    {
        match &mut self.store {
            Some(st) => st.append_entry(entry.clone()),
            None => {},
        }
    }

    /// Persist log truncation to the store (if present).
    fn persist_log_truncate(&mut self, from_index: u64)
        ensures
            final(self)@ == old(self)@.persist_truncate(from_index),
            final(self).keeps_timer(*old(self)),
    {
        match &mut self.store {
            Some(st) => st.truncate_from(from_index),
            None => {},
        }
    }

    /// Persist commit_index to the store (if present).
    fn persist_commit_index(&mut self)
        ensures
            final(self)@ == old(self)@.persist_commit(),
            final(self).keeps_timer(*old(self)),
    {
        let c = self.commit_index;
        match &mut self.store {
            Some(st) => st.set_commit_index(c),
            None => {},
        }
    }

    /// Records in the store (if present) the index up to which committed
    /// entries have been applied, once the state machine holds them.
    pub fn persist_applied(&mut self)
        ensures
            final(self)@ == old(self)@.persist_applied(),
            final(self).keeps_timer(*old(self)),
    {
        let a = self.last_applied;
        match &mut self.store {
            Some(st) => st.set_applied_index(a),
            None => {},
        }
    }

    /// How long the node waits for a leader before it stands for election.
    pub closed spec fn timeout_of(&self) -> Duration {
        self.election_timeout
    }

    /// When the current election timer runs out.
    pub closed spec fn deadline_of(&self) -> Instant {
        self.election_deadline
    }

    /// Whether this node's election timer is that of `before`.
    pub open spec fn keeps_timer(self, before: Self) -> bool {
        self.timeout_of() == before.timeout_of() && self.deadline_of() == before.deadline_of()
    }

    /// Whether this node's election timer was started afresh with the
    /// timeout of `before`: its deadline is that timeout after a reading of
    /// the clock, or the reading itself where that cannot be represented.
    pub open spec fn restarted_timer(self, before: Self) -> bool {
        &&& self.timeout_of() == before.timeout_of()
        &&& exists|now: Instant| self.deadline_of() == deadline_after(now, before.timeout_of())
    }

    /// Restart the election timer from the current time.
    pub fn reset_election_deadline(&mut self)
        ensures
            final(self)@ == old(self)@,
            final(self).restarted_timer(*old(self)),
    {
        // In a real system we'd add some random jitter to the timeout.
        self.election_deadline = deadline_from_now(self.election_timeout);
    }

    fn send_message(&mut self, to: RaftNodeId, payload: MessagePayload)
        ensures
            final(self)@ == old(self)@.send(to, payload@),
            final(self).keeps_timer(*old(self)),
    {
        let m = RaftMessage { from: self.node_id, to, payload };
        self.outbox.push(m);
        assert(messages_view(self.outbox@) =~= messages_view(old(self).outbox@).push(m@));
    }

    pub fn become_follower(&mut self, term: u64)
        ensures
            final(self)@ == old(self)@.become_follower(term),
            final(self).restarted_timer(*old(self)),
    {
        self.role = Role::Follower;
        self.current_term = term;
        self.voted_for = None;
        self.persist_term();
        self.persist_voted_for();
        self.reset_election_deadline();
    }

    pub fn become_candidate(&mut self)
        requires
            old(self)@.current_term < u64::MAX,
        ensures
            final(self)@ == old(self)@.become_candidate(),
            final(self).restarted_timer(*old(self)),
    {
        self.current_term = self.current_term + 1;
        self.role = Role::Candidate;
        self.voted_for = Some(self.node_id);
        self.votes_received = 1;
        self.voters = Vec::new();
        self.persist_term();
        self.persist_voted_for();
        self.reset_election_deadline();

        let lli: u64 = if self.log.len() == 0 { 0 } else { self.log[self.log.len() - 1].index };
        let llt: u64 = if self.log.len() == 0 { 0 } else { self.log[self.log.len() - 1].term };
        let ghost s0 = self@;
        let ghost req = s0.vote_request();
        let ghost mid = *self;
        let mut i: usize = 0;
        while i < self.peers.len()
            invariant
                i <= self.peers.len(),
                self.keeps_timer(mid),
                mid.restarted_timer(*old(self)),
                s0.peers == self.peers@,
                req == s0.vote_request(),
                lli == last_index_of(s0.log),
                llt == last_term_of(s0.log),
                self@ == (NodeView {
                    outbox: s0.outbox + Seq::new(
                        i as nat,
                        |j: int| crate::rpc::MessageView { from: s0.node_id, to: s0.peers[j], payload: req },
                    ),
                    ..s0
                }),
            decreases self.peers.len() - i,
        {
            let peer = self.peers[i];
            let args = RequestVoteArgs {
                term: self.current_term,
                candidate_id: self.node_id,
                last_log_index: lli,
                last_log_term: llt,
            };
            self.send_message(peer, MessagePayload::RequestVote(args));
            i = i + 1;
            assert(self@.outbox =~= s0.outbox + Seq::new(
                i as nat,
                |j: int| crate::rpc::MessageView { from: s0.node_id, to: s0.peers[j], payload: req },
            ));
        }
        assert(self@ =~= s0.request_votes());
    }

    pub fn become_leader(&mut self)
        requires
            old(self)@.wf(),
            last_index_of(old(self)@.log) < u64::MAX,
        ensures
            final(self)@ == old(self)@.become_leader(),
            final(self)@.wf(),
            final(self).keeps_timer(*old(self)),
    {
        self.role = Role::Leader;
        let next_idx: u64 = if self.log.len() == 0 {
            1
        } else {
            self.log[self.log.len() - 1].index + 1
        };
        let ghost s0 = self@;
        let mut i: usize = 0;
        assert(for_peers(s0.peers.take(0), next_idx) =~= Map::empty());
        assert(for_peers(s0.peers.take(0), 0) =~= Map::empty());
        assert(s0.next_index.union_prefer_right(Map::empty()) =~= s0.next_index);
        assert(s0.match_index.union_prefer_right(Map::empty()) =~= s0.match_index);
        while i < self.peers.len()
            invariant
                i <= self.peers.len(),
                s0.peers == self.peers@,
                s0.wf(),
                next_idx >= 1,
                self.keeps_timer(*old(self)),
                self@ == (NodeView {
                    next_index: s0.next_index.union_prefer_right(
                        for_peers(s0.peers.take(i as int), next_idx),
                    ),
                    match_index: s0.match_index.union_prefer_right(
                        for_peers(s0.peers.take(i as int), 0),
                    ),
                    ..s0
                }),
            decreases self.peers.len() - i,
        {
            let p = self.peers[i];
            self.next_index.insert(p.0, next_idx);
            self.match_index.insert(p.0, 0);
            proof {
                lemma_for_peers_extend(s0.next_index, s0.peers, i as int, next_idx);
                lemma_for_peers_extend(s0.match_index, s0.peers, i as int, 0);
            }
            i = i + 1;
        }
        assert(s0.peers.take(s0.peers.len() as int) =~= s0.peers);
        proof {
            let n = self@.next_index;
            assert forall|k: u64| #[trigger] n.contains_key(k) implies n[k] >= 1 by {
                if for_peers(s0.peers, next_idx).contains_key(k) {
                } else {
                    assert(s0.next_index.contains_key(k));
                }
            }
        }
        self.broadcast_append_entries();
    }

    pub fn broadcast_append_entries(&mut self)
        requires
            forall|i: int|
                0 <= i < old(self)@.peers.len() ==> #[trigger] old(self)@.next_index_for(
                    old(self)@.peers[i],
                ) >= 1,
        ensures
            final(self)@ == old(self)@.broadcast_append_entries(),
            old(self)@.wf() ==> final(self)@.wf(),
            final(self).keeps_timer(*old(self)),
    {
        let ghost s0 = self@;
        let mut i: usize = 0;
        while i < self.peers.len()
            invariant
                i <= self.peers.len(),
                s0.peers == self.peers@,
                forall|j: int| 0 <= j < s0.peers.len() ==> #[trigger] s0.next_index_for(s0.peers[j]) >= 1,
                self@ == (NodeView { outbox: s0.outbox + s0.heartbeats().take(i as int), ..s0 }),
                self.keeps_timer(*old(self)),
            decreases self.peers.len() - i,
        {
            let p = self.peers[i];
            let ghost before = self@;
            assert(before.append_entries_to(p) == s0.append_entries_to(p));
            assert(s0.next_index_for(s0.peers[i as int]) >= 1);
            self.send_append_entries(p);
            i = i + 1;
            assert(self@.outbox =~= s0.outbox + s0.heartbeats().take(i as int));
        }
        assert(s0.heartbeats().take(s0.peers.len() as int) =~= s0.heartbeats());
    }

    pub fn send_append_entries(&mut self, peer: RaftNodeId)
        requires
            old(self)@.next_index_for(peer) >= 1,
        ensures
            final(self)@ == old(self)@.send_append_entries(peer),
            final(self).keeps_timer(*old(self)),
    {
        let nidx: u64 = match self.next_index.get(&peer.0) {
            Some(v) => *v,
            None => 1,
        };
        let prev_log_index: u64 = if nidx > 0 {
            nidx - 1
        } else {
            0
        };
        let len: u64 = self.log.len() as u64;
        let prev_log_term: u64 = if prev_log_index > 0 && prev_log_index <= len {
            self.log[(prev_log_index - 1) as usize].term
        } else {
            0
        };
        let entries: Vec<LogEntry> = if nidx <= len {
            clone_entries_from(self.log.as_slice(), (nidx - 1) as usize)
        } else {
            Vec::new()
        };
        proof {
            if nidx > len {
                assert(entries_view(entries@) =~= Seq::empty());
            }
        }
        let args = AppendEntriesArgs {
            term: self.current_term,
            leader_id: self.node_id,
            prev_log_index,
            prev_log_term,
            entries,
            leader_commit: self.commit_index,
        };
        self.send_message(peer, MessagePayload::AppendEntries(args));
    }

    /// Whether a tick at `now` starts an election: the node is not leader
    /// and `now` is at or past its election deadline.
    pub open spec fn times_out(self, now: Instant) -> bool {
        self@.role != Role::Leader && instant_at_or_after(now, self.deadline_of())
    }

    /// A timer tick at instant `now`. A node that is not leader starts an
    /// election once its election deadline has passed; a leader sends
    /// heartbeats.
    pub fn tick(&mut self, now: Instant)
        requires
            old(self)@.wf(),
            old(self).times_out(now) ==> old(self)@.current_term < u64::MAX,
        ensures
            final(self)@ == old(self)@.on_tick(old(self).times_out(now)),
            if old(self).times_out(now) {
                final(self).restarted_timer(*old(self))
            } else {
                final(self).keeps_timer(*old(self))
            },
            final(self)@.wf(),
    {
        let timed_out = if self.role != Role::Leader {
            instant_reached(&now, &self.election_deadline)
        } else {
            false
        };
        self.on_tick(timed_out);
    }

    /// A timer tick, given whether the election deadline has passed.
    pub fn on_tick(&mut self, election_timed_out: bool)
        requires
            old(self)@.wf(),
            (old(self)@.role != Role::Leader && election_timed_out) ==> old(self)@.current_term
                < u64::MAX,
        ensures
            final(self)@ == old(self)@.on_tick(election_timed_out),
            final(self)@.wf(),
            if old(self)@.role != Role::Leader && election_timed_out {
                final(self).restarted_timer(*old(self))
            } else {
                final(self).keeps_timer(*old(self))
            },
    {
        if self.role != Role::Leader && election_timed_out {
            self.become_candidate();
        } else if self.role == Role::Leader {
            self.broadcast_append_entries();
        }
    }

    /// Append a client command to the log of a leader and replicate it.
    /// Returns the new entry's index, or `None` on a node that is not leader.
    pub fn append_local_entry(&mut self, payload: Vec<u8>) -> (r: Option<u64>)
        requires
            old(self)@.wf(),
            old(self)@.role == Role::Leader ==> last_index_of(old(self)@.log) < u64::MAX,
        ensures
            final(self)@ == old(self)@.append_local_entry(payload@),
            final(self).keeps_timer(*old(self)),
            r == (if old(self)@.role == Role::Leader {
                Some(old(self)@.next_entry(payload@).index)
            } else {
                None::<u64>
            }),
            final(self)@.wf(),
    {
        if self.role != Role::Leader {
            return None;
        }
        let index: u64 = if self.log.len() == 0 {
            1
        } else {
            self.log[self.log.len() - 1].index + 1
        };
        let entry = LogEntry { index, term: self.current_term, payload };
        self.persist_log_append(&entry);
        let ghost before = self@;
        self.log.push(entry);
        assert(entries_view(self.log@) =~= before.log.push(entry@));
        self.broadcast_append_entries();
        Some(index)
    }

    /// Hands over the queued messages, leaving the outbox empty.
    pub fn take_outbox(&mut self) -> (r: Vec<RaftMessage>)
        ensures
            messages_view(r@) == old(self)@.outbox,
            final(self)@ == (NodeView { outbox: Seq::empty(), ..old(self)@ }),
            final(self).keeps_timer(*old(self)),
    {
        let mut out: Vec<RaftMessage> = Vec::new();
        std::mem::swap(&mut out, &mut self.outbox);
        assert(messages_view(self.outbox@) =~= Seq::empty());
        out
    }

    /// Handle one message from another node.
    pub fn step(&mut self, msg: RaftMessage)
        requires
            old(self)@.wf(),
            old(self)@.step_ok(msg@),
        ensures
            exists|nci: u64|
                old(self)@.step_candidate(msg@, nci) && final(self)@ == old(self)@.step(msg@, nci),
            final(self)@.wf(),
            if old(self)@.step_restarts_timer(msg@) {
                final(self).restarted_timer(*old(self))
            } else {
                final(self).keeps_timer(*old(self))
            },
    {
        // Update term if needed
        let msg_term = message_term(&msg.payload);
        if msg_term > self.current_term {
            self.become_follower(msg_term);
        }
        let ghost s1 = self@;
        let from = msg.from;
        match msg.payload {
            MessagePayload::RequestVote(args) => {
                self.handle_request_vote(from, args);
                assert(old(self)@.step_candidate(msg@, 0));
            },
            MessagePayload::RequestVoteReply(reply) => {
                self.handle_vote_reply(from, reply);
                assert(old(self)@.step_candidate(msg@, 0));
            },
            MessagePayload::AppendEntries(args) => {
                self.handle_append_entries(from, args);
                assert(old(self)@.step_candidate(msg@, 0));
            },
            MessagePayload::AppendEntriesReply(reply) => {
                let Ghost(nci) = self.handle_append_entries_reply(from, reply);
                assert(old(self)@.step_candidate(msg@, nci));
            },
            MessagePayload::InstallSnapshot(_) => {
                // Snapshot messages act only through their term.
                assert(old(self)@.step_candidate(msg@, 0));
            },
            MessagePayload::InstallSnapshotReply(_) => {
                // Snapshot messages act only through their term.
                assert(old(self)@.step_candidate(msg@, 0));
            },
        }
    }

    fn handle_request_vote(&mut self, from: RaftNodeId, args: RequestVoteArgs)
        ensures
            final(self)@ == old(self)@.on_request_vote(from, args),
            if old(self)@.grants_vote(args) {
                final(self).restarted_timer(*old(self))
            } else {
                final(self).keeps_timer(*old(self))
            },
    {
        let current_term = self.current_term;
        let mut vote_granted = false;
        let lli: u64 = if self.log.len() == 0 { 0 } else { self.log[self.log.len() - 1].index };
        let llt: u64 = if self.log.len() == 0 { 0 } else { self.log[self.log.len() - 1].term };
        let log_ok = args.last_log_term > llt || (args.last_log_term == llt && args.last_log_index
            >= lli);
        let vote_free = match self.voted_for {
            None => true,
            Some(c) => c == args.candidate_id,
        };
        if args.term == current_term && vote_free && log_ok {
            vote_granted = true;
            self.voted_for = Some(args.candidate_id);
            self.persist_voted_for();
            self.reset_election_deadline();
        }
        let ghost before_reply = *self;
        self.send_message(
            from,
            MessagePayload::RequestVoteReply(RequestVoteReply { term: current_term, vote_granted }),
        );
        proof {
            if vote_granted {
                let now = choose|now: Instant|
                    before_reply.deadline_of() == deadline_after(now, old(self).timeout_of());
                assert(self.deadline_of() == deadline_after(now, old(self).timeout_of()));
            }
        }
    }

    fn handle_vote_reply(&mut self, from: RaftNodeId, reply: RequestVoteReply)
        requires
            old(self)@.wf(),
            old(self)@.counts_vote(from, reply) ==> {
                &&& old(self)@.votes_received < usize::MAX
                &&& (old(self)@.votes_received + 1 >= quorum(old(self)@.peers) ==> last_index_of(
                    old(self)@.log,
                ) < u64::MAX)
            },
        ensures
            final(self)@ == old(self)@.on_vote_reply(from, reply),
            final(self)@.wf(),
            final(self).keeps_timer(*old(self)),
    {
        if self.role == Role::Candidate && reply.term == self.current_term && reply.vote_granted
            && is_peer(&self.peers, from.0) && !contains_id(&self.voters, from.0) {
            self.votes_received = self.votes_received + 1;
            self.voters.push(from.0);
            let n = self.peers.len();
            let q = n / 2 + n % 2;
            assert(q + 1 == quorum(self@.peers));
            if self.votes_received > q {
                self.become_leader();
            }
        }
    }

    fn handle_append_entries(&mut self, from: RaftNodeId, args: AppendEntriesArgs)
        requires
            old(self)@.wf(),
            (args.term == old(self)@.current_term && NodeView {
                role: Role::Follower,
                ..old(self)@
            }.prev_matches(args@)) ==> args.prev_log_index + args.prev_log_index
                + args@.entries.len() <= u64::MAX,
        ensures
            final(self)@ == old(self)@.on_append_entries(from, args@),
            final(self)@.wf(),
            if args.term == old(self)@.current_term {
                final(self).restarted_timer(*old(self))
            } else {
                final(self).keeps_timer(*old(self))
            },
    {
        let mut success = false;
        let mut match_index: u64 = 0;
        if args.term == self.current_term {
            self.role = Role::Follower; // recognize leader
            let ghost pre = *self;
            self.reset_election_deadline();
            let ghost s = self@;
            let ghost mid = *self;
            proof {
                assert(pre.timeout_of() == old(self).timeout_of());
                let now = choose|now: Instant| mid.deadline_of() == deadline_after(now, pre.timeout_of());
                assert(mid.deadline_of() == deadline_after(now, old(self).timeout_of()));
                assert(mid.restarted_timer(*old(self)));
            }
            let len: u64 = self.log.len() as u64;
            let prev = args.prev_log_index;
            // Check prev log
            let prev_ok = prev == 0 || (prev <= len && self.log[(prev - 1) as usize].term
                == args.prev_log_term);
            assert(prev_ok == s.prev_matches(args@));
            if prev_ok {
                success = true;
                let ghost entries_v = args@.entries;
                let ghost target = s.merge_entries(prev as int, entries_v);
                let entries = args.entries;
                let mut insert_idx: usize = prev as usize;
                let mut k: usize = 0;
                assert(entries_v.skip(0) =~= entries_v);
                while k < entries.len()
                    invariant
                        k <= entries.len(),
                        entries_v == entries_view(entries@),
                        insert_idx == prev + k,
                        insert_idx <= self.log.len(),
                        self@.merge_entries(insert_idx as int, entries_v.skip(k as int)) == target,
                        self@.next_index == s.next_index,
                        self@.current_term == s.current_term,
                        s.wf(),
                        self.keeps_timer(mid),
                        mid.restarted_timer(*old(self)),
                    decreases entries.len() - k,
                {
                    let ghost before = self@;
                    assert(entries_v.skip(k as int).drop_first() =~= entries_v.skip(k as int + 1));
                    assert(entries_v.skip(k as int)[0] == entries_v[k as int]);
                    let entry = entries[k].clone();
                    assert(entry@ == entries_v[k as int]);
                    if insert_idx < self.log.len() {
                        if self.log[insert_idx].term != entry.term {
                            // Truncate conflicting entries — persist first
                            let truncate_from = self.log[insert_idx].index;
                            self.persist_log_truncate(truncate_from);
                            self.log.truncate(insert_idx);
                            assert(entries_view(self.log@) =~= before.log.take(insert_idx as int));
                            self.persist_log_append(&entry);
                            self.log.push(entry);
                            assert(entries_view(self.log@) =~= before.log.take(insert_idx as int).push(
                                entries_v[k as int],
                            ));
                        }
                    } else {
                        self.persist_log_append(&entry);
                        self.log.push(entry);
                        assert(entries_view(self.log@) =~= before.log.push(entries_v[k as int]));
                    }
                    assert(insert_idx < self.log.len());
                    insert_idx = insert_idx + 1;
                    k = k + 1;
                }
                assert(entries_v.skip(k as int) =~= Seq::empty());
                match_index = args.prev_log_index + insert_idx as u64 - args.prev_log_index;
                if args.leader_commit > self.commit_index {
                    let last: u64 = if self.log.len() == 0 { 0 } else { self.log[self.log.len() - 1].index };
                    self.commit_index = if args.leader_commit <= last { args.leader_commit } else { last };
                    self.persist_commit_index();
                }
            }
            proof {
                let now = choose|now: Instant|
                    mid.deadline_of() == deadline_after(now, old(self).timeout_of());
                assert(self.deadline_of() == deadline_after(now, old(self).timeout_of()));
            }
        }
        let ghost before_reply = *self;
        self.send_message(
            from,
            MessagePayload::AppendEntriesReply(
                AppendEntriesReply { term: self.current_term, success, match_index },
            ),
        );
        proof {
            if args.term == old(self)@.current_term {
                let now = choose|now: Instant|
                    before_reply.deadline_of() == deadline_after(now, old(self).timeout_of());
                assert(self.deadline_of() == deadline_after(now, old(self).timeout_of()));
            }
        }
    }

    fn handle_append_entries_reply(&mut self, from: RaftNodeId, reply: AppendEntriesReply) -> (nci:
        Ghost<u64>)
        requires
            old(self)@.wf(),
            (old(self)@.role == Role::Leader && reply.term == old(self)@.current_term) ==> if reply.success {
                reply.match_index < u64::MAX
            } else {
                old(self)@.next_index.contains_key(from.0)
            },
        ensures
            final(self)@ == old(self)@.on_append_entries_reply(from, reply, nci@),
            (old(self)@.role == Role::Leader && reply.term == old(self)@.current_term
                && reply.success) ==> old(self)@.record_match(from, reply).commit_candidate(nci@),
            final(self)@.wf(),
            final(self).keeps_timer(*old(self)),
    {
        if self.role == Role::Leader && reply.term == self.current_term {
            if reply.success {
                self.match_index.insert(from.0, reply.match_index);
                self.next_index.insert(from.0, reply.match_index + 1);
                let ghost s = self@;
                assert(s == old(self)@.record_match(from, reply));
                // Update commit index from the copies the members hold
                let ghost pm = peer_matches(s.match_index, s.peers);
                let mut matches: Vec<u64> = Vec::new();
                let mut i: usize = 0;
                while i < self.peers.len()
                    invariant
                        i <= self.peers.len(),
                        self@ == s,
                        pm == peer_matches(s.match_index, s.peers),
                        matches@ == pm.take(i as int),
                    decreases self.peers.len() - i,
                {
                    let m: u64 = match self.match_index.get(&self.peers[i].0) {
                        Some(v) => *v,
                        None => 0,
                    };
                    matches.push(m);
                    i = i + 1;
                    assert(matches@ =~= pm.take(i as int));
                }
                assert(pm.take(pm.len() as int) =~= pm);
                let last: u64 = if self.log.len() == 0 { 0 } else { self.log[self.log.len() - 1].index };
                matches.push(last); // self
                let ghost unsorted = matches@;
                sort_ascending(&mut matches);
                let n = self.peers.len();
                let q = n / 2 + n % 2 + 1;
                proof {
                    assert(q == quorum(s.peers));
                    vstd::seq_lib::to_multiset_len(unsorted);
                    vstd::seq_lib::to_multiset_len(matches@);
                    assert(unsorted == s.member_matches());
                }
                let nci = matches[matches.len() - q];
                assert(is_commit_candidate(s.member_matches(), quorum(s.peers), nci));
                let len: u64 = self.log.len() as u64;
                if nci > self.commit_index && nci <= len && self.log[(nci - 1) as usize].term
                    == self.current_term {
                    self.commit_index = nci;
                    self.persist_commit_index();
                }
                return Ghost(nci);
            } else {
                // decrement next_index and retry
                let nidx: u64 = match self.next_index.get(&from.0) {
                    Some(v) => *v,
                    None => 1,
                };
                if nidx > 1 {
                    self.next_index.insert(from.0, nidx - 1);
                    self.send_append_entries(from);
                }
            }
        }
        Ghost(0)
    }
}

/// Hands committed entries to the state machine, each exactly once and in
/// log order.
pub struct DeterministicApplyLoop {
    pub last_applied: u64,
}

/// What an apply pass yields from `last_applied`, given a commit index and a
/// log: the new applied index and the entries delivered.
pub open spec fn apply_outcome(last_applied: u64, commit_index: u64, log: Seq<EntryView>) -> (
    u64,
    Seq<EntryView>,
) {
    if last_applied < commit_index {
        (commit_index, log.subrange(last_applied as int, commit_index as int))
    } else {
        (last_applied, Seq::empty())
    }
}

impl DeterministicApplyLoop {
    pub fn new() -> (r: Self)
        ensures
            r.last_applied == 0,
    {
        DeterministicApplyLoop { last_applied: 0 }
    }

    /// Create an apply loop that starts from a given index (for restart recovery).
    pub fn new_from(last_applied: u64) -> (r: Self)
        ensures
            r.last_applied == last_applied,
    {
        DeterministicApplyLoop { last_applied }
    }

    /// Whether `apply` can run on `node`: every entry it would deliver is in
    /// the node's log.
    pub fn can_apply<S: RaftStateStore>(&self, node: &RaftNode<S>) -> (r: bool)
        ensures
            r == (self.last_applied < node@.commit_index ==> node@.commit_index <= node@.log.len()),
    {
        self.last_applied >= node.commit_index || node.commit_index <= node.log.len() as u64
    }

    /// Deliver the entries committed since the last pass, and record on the
    /// node that they are applied.
    pub fn apply<S: RaftStateStore>(&mut self, node: &mut RaftNode<S>) -> (r: Vec<LogEntry>)
        requires
            old(self).last_applied < old(node)@.commit_index ==> old(node)@.commit_index <= old(
                node,
            )@.log.len(),
        ensures
            ({
                let (la, delivered) = apply_outcome(
                    old(self).last_applied,
                    old(node)@.commit_index,
                    old(node)@.log,
                );
                &&& final(self).last_applied == la
                &&& entries_view(r@) == delivered
                &&& final(node)@ == (if old(self).last_applied < old(node)@.commit_index {
                    NodeView { last_applied: la, ..old(node)@ }
                } else {
                    old(node)@
                })
            }),
            final(node).keeps_timer(*old(node)),
    {
        let mut applied: Vec<LogEntry> = Vec::new();
        let ghost la0 = self.last_applied;
        let ghost n0 = node@;
        while self.last_applied < node.commit_index
            invariant
                la0 <= self.last_applied,
                la0 < n0.commit_index ==> n0.commit_index <= n0.log.len(),
                self.last_applied <= n0.commit_index || self.last_applied == la0,
                node@ == (if self.last_applied == la0 {
                    n0
                } else {
                    NodeView { last_applied: self.last_applied, ..n0 }
                }),
                applied@.len() == self.last_applied - la0,
                node.keeps_timer(*old(node)),
                forall|i: int| 0 <= i < applied@.len() ==> #[trigger] applied@[i]@ == n0.log[la0 + i],
            decreases node.commit_index - self.last_applied,
        {
            assert(node.commit_index == n0.commit_index);
            assert(node.log.len() == n0.log.len());
            self.last_applied = self.last_applied + 1;
            node.last_applied = self.last_applied;
            assert(self.last_applied <= node.log.len());
            let entry = node.log[(self.last_applied - 1) as usize].clone();
            assert(entries_view(node.log@)[self.last_applied - 1] == node.log@[self.last_applied - 1]@);
            assert(node@.log == n0.log);
            assert(entry@ == n0.log[self.last_applied - 1]);
            let ghost old_applied = applied@;
            applied.push(entry);
            assert forall|i: int| 0 <= i < applied@.len() implies #[trigger] applied@[i]@ == n0.log[la0 + i] by {
                if i < old_applied.len() {
                    assert(applied@[i] == old_applied[i]);
                }
            }
        }
        proof {
            if la0 >= n0.commit_index {
                assert(entries_view(applied@) =~= Seq::empty());
            } else {
                assert(entries_view(applied@) =~= n0.log.subrange(la0 as int, self.last_applied as int));
            }
        }
        applied
    }
}

} // verus!
