use std::collections::VecDeque;
use std::time::{Duration, Instant};
use titan::node::{DeterministicApplyLoop, RaftNode};
use titan::rpc::{
    AppendEntriesArgs, AppendEntriesReply, MessagePayload, RaftMessage, RequestVoteArgs,
    RequestVoteReply,
};
use titan::store::{InMemoryStateStore, RaftStateStore};
use titan::types::{LogEntry, RaftNodeId, Role};

fn deliver(msgs: &mut VecDeque<RaftMessage>, nodes: &mut [&mut RaftNode]) {
    while let Some(msg) = msgs.pop_front() {
        for node in nodes.iter_mut() {
            if node.node_id == msg.to {
                node.step(msg.clone());
                msgs.extend(node.take_outbox());
            }
        }
    }
}

#[test]
fn single_node_bootstrap() {
    let r = RaftNode::new(RaftNodeId(1), vec![], Duration::from_millis(300));
    assert_eq!(r.role, Role::Follower);
}

#[test]
fn three_node_cluster_election_and_replicate() {
    let mut n1 = RaftNode::new(RaftNodeId(1), vec![RaftNodeId(2), RaftNodeId(3)], Duration::from_millis(100));
    let mut n2 = RaftNode::new(RaftNodeId(2), vec![RaftNodeId(1), RaftNodeId(3)], Duration::from_millis(150));
    let mut n3 = RaftNode::new(RaftNodeId(3), vec![RaftNodeId(1), RaftNodeId(2)], Duration::from_millis(200));

    // Node 1 times out first
    n1.tick(Instant::now() + Duration::from_millis(110));
    assert_eq!(n1.role, Role::Candidate);

    let mut msgs = VecDeque::new();
    msgs.extend(n1.take_outbox());

    deliver(&mut msgs, &mut [&mut n1, &mut n2, &mut n3]);

    assert_eq!(n1.role, Role::Leader);
    assert_eq!(n2.role, Role::Follower);
    assert_eq!(n3.role, Role::Follower);
    assert_eq!(n1.current_term, 1);

    // Client appends an entry to Leader n1
    let idx = n1.append_local_entry(b"SET x=1".to_vec()).unwrap();
    assert_eq!(idx, 1);

    msgs.extend(n1.take_outbox());
    deliver(&mut msgs, &mut [&mut n1, &mut n2, &mut n3]);

    // Tick leader to send heartbeat and propagate the new commit_index
    n1.tick(Instant::now());
    msgs.extend(n1.take_outbox());
    deliver(&mut msgs, &mut [&mut n1, &mut n2, &mut n3]);

    assert_eq!(n1.commit_index, 1);
    assert_eq!(n2.commit_index, 1);
    assert_eq!(n3.commit_index, 1);

    let mut applier = DeterministicApplyLoop::new();
    let applied = applier.apply(&mut n2);
    assert_eq!(applied.len(), 1);
    assert_eq!(applied[0].payload, b"SET x=1");
}

#[test]
fn test_leader_failover_and_recovery() {
    let mut n1 = RaftNode::new(RaftNodeId(1), vec![RaftNodeId(2), RaftNodeId(3)], Duration::from_millis(100));
    let mut n2 = RaftNode::new(RaftNodeId(2), vec![RaftNodeId(1), RaftNodeId(3)], Duration::from_millis(150));
    let mut n3 = RaftNode::new(RaftNodeId(3), vec![RaftNodeId(1), RaftNodeId(2)], Duration::from_millis(200));

    // N1 becomes leader
    n1.tick(Instant::now() + Duration::from_millis(110));
    let mut msgs = VecDeque::new();
    msgs.extend(n1.take_outbox());

    deliver(&mut msgs, &mut [&mut n1, &mut n2, &mut n3]);
    assert_eq!(n1.role, Role::Leader);
    assert_eq!(n1.current_term, 1);

    // Failover! Node 1 is killed. Node 2 times out.
    n2.tick(Instant::now() + Duration::from_millis(300));
    msgs.extend(n2.take_outbox());

    // Deliver just between n2 and n3
    deliver(&mut msgs, &mut [&mut n2, &mut n3]);

    assert_eq!(n2.role, Role::Leader);
    assert_eq!(n2.current_term, 2);

    // Node 1 comes back up and ticks.
    n1.tick(Instant::now() + Duration::from_millis(400));
    msgs.extend(n1.take_outbox());

    // Let N2 heartbeat out so N1 sees N2 is leader
    n2.tick(Instant::now());
    msgs.extend(n2.take_outbox());
    deliver(&mut msgs, &mut [&mut n1, &mut n2, &mut n3]);

    assert_eq!(n1.role, Role::Follower);
    assert_eq!(n1.current_term, 2);
}

#[test]
fn test_network_partition_chaos() {
    let mut n1 = RaftNode::new(RaftNodeId(1), vec![RaftNodeId(2), RaftNodeId(3)], Duration::from_millis(100));
    let mut n2 = RaftNode::new(RaftNodeId(2), vec![RaftNodeId(1), RaftNodeId(3)], Duration::from_millis(150));
    let mut n3 = RaftNode::new(RaftNodeId(3), vec![RaftNodeId(1), RaftNodeId(2)], Duration::from_millis(200));

    // Initial Leader N1
    n1.tick(Instant::now() + Duration::from_millis(110));
    let mut msgs = VecDeque::new();
    msgs.extend(n1.take_outbox());

    deliver(&mut msgs, &mut [&mut n1, &mut n2, &mut n3]);
    assert_eq!(n1.role, Role::Leader);

    // N1 is partitioned from N2 and N3
    // So N2 times out and can't reach N1. N2 and N3 elect N2.
    n2.tick(Instant::now() + Duration::from_millis(300));
    msgs.extend(n2.take_outbox());
    deliver(&mut msgs, &mut [&mut n2, &mut n3]);

    assert_eq!(n2.role, Role::Leader);
    assert_eq!(n2.current_term, 2);

    // N1 still thinks it's leader because no news arrived, but it can't commit.
    n1.append_local_entry(b"lost".to_vec());
    msgs.extend(n1.take_outbox());
    // partition drops msgs
    msgs.clear();

    // Partition heals. N2 appends a new entry as the true leader.
    n2.append_local_entry(b"found".to_vec());
    msgs.extend(n2.take_outbox());
    deliver(&mut msgs, &mut [&mut n1, &mut n2, &mut n3]);

    assert_eq!(n1.role, Role::Follower);
    // N1's log should have been truncated and overwritten by N2's entry
    assert_eq!(n1.log.len(), 1);
    assert_eq!(n1.log[0].payload, b"found");
}

// ── Further scenarios ──

fn entry(index: u64, term: u64, payload: &[u8]) -> LogEntry {
    LogEntry { index, term, payload: payload.to_vec() }
}

#[test]
fn follower_rejects_client_writes() {
    let mut n = RaftNode::new(RaftNodeId(1), vec![RaftNodeId(2)], Duration::from_millis(100));
    assert_eq!(n.append_local_entry(b"x".to_vec()), None);
    assert!(n.log.is_empty());
    assert!(n.take_outbox().is_empty());
}

#[test]
fn candidate_requests_votes_from_every_peer() {
    let mut n = RaftNode::new(RaftNodeId(1), vec![RaftNodeId(2), RaftNodeId(3)], Duration::from_millis(100));
    n.become_candidate();
    assert_eq!(n.current_term, 1);
    assert_eq!(n.voted_for, Some(RaftNodeId(1)));
    assert_eq!(n.votes_received, 1);
    let out = n.take_outbox();
    assert_eq!(out.len(), 2);
    assert_eq!(out[0].to, RaftNodeId(2));
    assert_eq!(out[1].to, RaftNodeId(3));
    match &out[0].payload {
        MessagePayload::RequestVote(a) => {
            assert_eq!(a.term, 1);
            assert_eq!(a.candidate_id, RaftNodeId(1));
            assert_eq!(a.last_log_index, 0);
            assert_eq!(a.last_log_term, 0);
        }
        _ => panic!("expected a vote request"),
    }
    assert!(n.take_outbox().is_empty());
}

#[test]
fn vote_granted_once_per_term() {
    let mut n = RaftNode::new(RaftNodeId(3), vec![RaftNodeId(1), RaftNodeId(2)], Duration::from_millis(100));
    let ask = |from: u64| RaftMessage {
        from: RaftNodeId(from),
        to: RaftNodeId(3),
        payload: MessagePayload::RequestVote(RequestVoteArgs {
            term: 1,
            candidate_id: RaftNodeId(from),
            last_log_index: 0,
            last_log_term: 0,
        }),
    };
    n.step(ask(1));
    assert_eq!(n.current_term, 1);
    assert_eq!(n.voted_for, Some(RaftNodeId(1)));
    n.step(ask(2));
    assert_eq!(n.voted_for, Some(RaftNodeId(1)));
    let out = n.take_outbox();
    assert_eq!(out.len(), 2);
    match (&out[0].payload, &out[1].payload) {
        (MessagePayload::RequestVoteReply(a), MessagePayload::RequestVoteReply(b)) => {
            assert!(a.vote_granted);
            assert!(!b.vote_granted);
            assert_eq!(b.term, 1);
        }
        _ => panic!("expected vote replies"),
    }
}

#[test]
fn vote_refused_to_stale_log() {
    let mut n = RaftNode::new(RaftNodeId(2), vec![RaftNodeId(1)], Duration::from_millis(100));
    // Give the node an entry of term 1 through a leader of term 1.
    n.step(RaftMessage {
        from: RaftNodeId(1),
        to: RaftNodeId(2),
        payload: MessagePayload::AppendEntries(AppendEntriesArgs {
            term: 1,
            leader_id: RaftNodeId(1),
            prev_log_index: 0,
            prev_log_term: 0,
            entries: vec![entry(1, 1, b"a")],
            leader_commit: 0,
        }),
    });
    n.take_outbox();
    // A candidate of term 2 with an empty log does not get the vote.
    n.step(RaftMessage {
        from: RaftNodeId(1),
        to: RaftNodeId(2),
        payload: MessagePayload::RequestVote(RequestVoteArgs {
            term: 2,
            candidate_id: RaftNodeId(1),
            last_log_index: 0,
            last_log_term: 0,
        }),
    });
    assert_eq!(n.current_term, 2);
    assert_eq!(n.voted_for, None);
    let out = n.take_outbox();
    match &out[0].payload {
        MessagePayload::RequestVoteReply(RequestVoteReply { term, vote_granted }) => {
            assert_eq!(*term, 2);
            assert!(!*vote_granted);
        }
        _ => panic!("expected a vote reply"),
    }
}

#[test]
fn append_entries_conflict_truncates_and_commits() {
    let mut n = RaftNode::new(RaftNodeId(2), vec![RaftNodeId(1)], Duration::from_millis(100));
    let ae = |term: u64, prev: u64, prev_term: u64, entries: Vec<LogEntry>, commit: u64| RaftMessage {
        from: RaftNodeId(1),
        to: RaftNodeId(2),
        payload: MessagePayload::AppendEntries(AppendEntriesArgs {
            term,
            leader_id: RaftNodeId(1),
            prev_log_index: prev,
            prev_log_term: prev_term,
            entries,
            leader_commit: commit,
        }),
    };
    n.step(ae(1, 0, 0, vec![entry(1, 1, b"a"), entry(2, 1, b"b"), entry(3, 1, b"c")], 1));
    assert_eq!(n.log.len(), 3);
    assert_eq!(n.commit_index, 1);
    // A leader of term 2 replaces entries 2 and 3.
    n.step(ae(2, 1, 1, vec![entry(2, 2, b"B")], 5));
    assert_eq!(n.log.len(), 2);
    assert_eq!(n.log[1].payload, b"B");
    assert_eq!(n.log[1].term, 2);
    // Commit index is the leader's, capped at the last entry.
    assert_eq!(n.commit_index, 2);
    let out = n.take_outbox();
    match &out[1].payload {
        MessagePayload::AppendEntriesReply(AppendEntriesReply { term, success, match_index }) => {
            assert_eq!(*term, 2);
            assert!(*success);
            assert_eq!(*match_index, 2);
        }
        _ => panic!("expected a replication reply"),
    }
    // A request whose previous entry does not match is refused.
    n.step(ae(2, 2, 1, vec![], 5));
    let out = n.take_outbox();
    match &out[0].payload {
        MessagePayload::AppendEntriesReply(r) => {
            assert!(!r.success);
            assert_eq!(r.match_index, 0);
        }
        _ => panic!("expected a replication reply"),
    }
}

#[test]
fn leader_retries_with_lower_next_index() {
    let mut n = RaftNode::new(RaftNodeId(1), vec![RaftNodeId(2)], Duration::from_millis(100));
    n.become_candidate();
    n.become_leader();
    n.append_local_entry(b"a".to_vec());
    n.append_local_entry(b"b".to_vec());
    n.take_outbox();
    assert_eq!(n.next_index.get(&2), Some(&1));
    // A refusal when next index is 1 leaves it there.
    n.step(RaftMessage {
        from: RaftNodeId(2),
        to: RaftNodeId(1),
        payload: MessagePayload::AppendEntriesReply(AppendEntriesReply { term: 1, success: false, match_index: 0 }),
    });
    assert_eq!(n.next_index.get(&2), Some(&1));
    assert!(n.take_outbox().is_empty());
    // A success records the match and commits entries of the current term.
    n.step(RaftMessage {
        from: RaftNodeId(2),
        to: RaftNodeId(1),
        payload: MessagePayload::AppendEntriesReply(AppendEntriesReply { term: 1, success: true, match_index: 2 }),
    });
    assert_eq!(n.match_index.get(&2), Some(&2));
    assert_eq!(n.next_index.get(&2), Some(&3));
    assert_eq!(n.commit_index, 2);
    // A refusal now steps next index back and resends.
    n.step(RaftMessage {
        from: RaftNodeId(2),
        to: RaftNodeId(1),
        payload: MessagePayload::AppendEntriesReply(AppendEntriesReply { term: 1, success: false, match_index: 0 }),
    });
    assert_eq!(n.next_index.get(&2), Some(&2));
    let out = n.take_outbox();
    assert_eq!(out.len(), 1);
    match &out[0].payload {
        MessagePayload::AppendEntries(a) => {
            assert_eq!(a.prev_log_index, 1);
            assert_eq!(a.prev_log_term, 1);
            assert_eq!(a.entries.len(), 1);
            assert_eq!(a.entries[0].payload, b"b");
            assert_eq!(a.leader_commit, 2);
        }
        _ => panic!("expected a replication request"),
    }
}

#[test]
fn higher_term_demotes_leader() {
    let mut n = RaftNode::new(RaftNodeId(1), vec![RaftNodeId(2)], Duration::from_millis(100));
    n.become_candidate();
    n.become_leader();
    assert_eq!(n.role, Role::Leader);
    n.take_outbox();
    n.step(RaftMessage {
        from: RaftNodeId(2),
        to: RaftNodeId(1),
        payload: MessagePayload::RequestVoteReply(RequestVoteReply { term: 7, vote_granted: false }),
    });
    assert_eq!(n.role, Role::Follower);
    assert_eq!(n.current_term, 7);
    assert_eq!(n.voted_for, None);
}

#[test]
fn heartbeat_carries_no_entries_when_peer_is_current() {
    let mut n = RaftNode::new(RaftNodeId(1), vec![RaftNodeId(2)], Duration::from_millis(100));
    n.become_candidate();
    n.take_outbox();
    n.become_leader();
    let out = n.take_outbox();
    assert_eq!(out.len(), 1);
    match &out[0].payload {
        MessagePayload::AppendEntries(a) => {
            assert_eq!(a.term, 1);
            assert_eq!(a.prev_log_index, 0);
            assert_eq!(a.prev_log_term, 0);
            assert!(a.entries.is_empty());
        }
        _ => panic!("expected a heartbeat"),
    }
}

#[test]
fn apply_delivers_each_committed_entry_once() {
    let mut n = RaftNode::new(RaftNodeId(2), vec![RaftNodeId(1)], Duration::from_millis(100));
    n.step(RaftMessage {
        from: RaftNodeId(1),
        to: RaftNodeId(2),
        payload: MessagePayload::AppendEntries(AppendEntriesArgs {
            term: 1,
            leader_id: RaftNodeId(1),
            prev_log_index: 0,
            prev_log_term: 0,
            entries: vec![entry(1, 1, b"a"), entry(2, 1, b"b"), entry(3, 1, b"c")],
            leader_commit: 2,
        }),
    });
    let mut apply = DeterministicApplyLoop::new();
    let first = apply.apply(&mut n);
    assert_eq!(first.len(), 2);
    assert_eq!(first[0].payload, b"a");
    assert_eq!(first[1].payload, b"b");
    assert_eq!(apply.last_applied, 2);
    assert_eq!(n.last_applied, 2);
    n.persist_applied();
    assert!(apply.apply(&mut n).is_empty());
    n.commit_index = 3;
    let second = apply.apply(&mut n);
    assert_eq!(second.len(), 1);
    assert_eq!(second[0].index, 3);
    let mut resumed = DeterministicApplyLoop::new_from(3);
    assert!(resumed.apply(&mut n).is_empty());
}

#[test]
fn store_reads_back_writes() {
    let mut s = InMemoryStateStore::default();
    assert_eq!(s.current_term(), 0);
    assert_eq!(s.voted_for(), None);
    assert_eq!(s.last_log_index(), 0);
    s.set_current_term(5);
    s.set_voted_for(Some(RaftNodeId(3)));
    s.set_commit_index(42);
    s.append_entry(entry(1, 1, b"a"));
    s.append_entry(entry(2, 1, b"b"));
    s.append_entry(entry(3, 2, b"c"));
    assert_eq!(s.current_term(), 5);
    assert_eq!(s.voted_for(), Some(RaftNodeId(3)));
    assert_eq!(s.commit_index(), 42);
    assert_eq!(s.entries().len(), 3);
    assert_eq!(s.last_log_index(), 3);
    s.truncate_from(2);
    assert_eq!(s.entries().len(), 1);
    assert_eq!(s.entries()[0].payload, b"a");
    assert_eq!(s.last_log_index(), 1);
}

#[test]
fn node_writes_through_and_recovers_from_store() {
    let mut n = RaftNode::new_with_store(
        RaftNodeId(1),
        vec![RaftNodeId(2)],
        Duration::from_millis(100),
        InMemoryStateStore::default(),
    );
    n.become_candidate();
    n.become_leader();
    n.append_local_entry(b"x".to_vec());
    n.step(RaftMessage {
        from: RaftNodeId(2),
        to: RaftNodeId(1),
        payload: MessagePayload::AppendEntriesReply(AppendEntriesReply { term: 1, success: true, match_index: 1 }),
    });
    assert_eq!(n.commit_index, 1);
    let st = n.state_store().unwrap();
    assert_eq!(st.current_term(), n.current_term);
    assert_eq!(st.voted_for(), n.voted_for);
    assert_eq!(st.commit_index(), n.commit_index);
    assert_eq!(st.entries().len(), n.log.len());
    assert_eq!(st.entries()[0].payload, n.log[0].payload);
    assert_eq!(st.applied_index(), 0);
    // Applying records how far the state machine got.
    let mut apply = DeterministicApplyLoop::new();
    assert_eq!(apply.apply(&mut n).len(), 1);
    n.persist_applied();
    assert_eq!(n.state_store().unwrap().applied_index(), 1);
    // Restart from a store holding what the node persisted.
    let mut copy = InMemoryStateStore::default();
    copy.set_current_term(n.current_term);
    copy.set_voted_for(n.voted_for);
    for e in &n.log {
        copy.append_entry(e.clone());
    }
    copy.set_commit_index(n.commit_index);
    // Nothing was applied yet: the restarted node applies entry 1 again.
    assert_eq!(copy.applied_index(), 0);
    let r0 = RaftNode::new_with_store(RaftNodeId(1), vec![RaftNodeId(2)], Duration::from_millis(100), copy);
    assert_eq!(r0.last_applied, 0);
    let mut copy = InMemoryStateStore::default();
    copy.set_current_term(n.current_term);
    copy.set_voted_for(n.voted_for);
    for e in &n.log {
        copy.append_entry(e.clone());
    }
    copy.set_commit_index(n.commit_index);
    copy.set_applied_index(1);
    let r = RaftNode::new_with_store(RaftNodeId(1), vec![RaftNodeId(2)], Duration::from_millis(100), copy);
    assert_eq!(r.role, Role::Follower);
    assert_eq!(r.current_term, 1);
    assert_eq!(r.voted_for, Some(RaftNodeId(1)));
    assert_eq!(r.log.len(), 1);
    assert_eq!(r.log[0].payload, b"x");
    assert_eq!(r.commit_index, 1);
    assert_eq!(r.last_applied, 1);
}

#[test]
fn on_tick_decides_by_timeout() {
    let mut n = RaftNode::new(RaftNodeId(1), vec![RaftNodeId(2)], Duration::from_millis(100));
    n.on_tick(false);
    assert_eq!(n.role, Role::Follower);
    assert!(n.take_outbox().is_empty());
    n.on_tick(true);
    assert_eq!(n.role, Role::Candidate);
    assert_eq!(n.take_outbox().len(), 1);
}

#[test]
fn message_clone_keeps_content() {
    let m = RaftMessage {
        from: RaftNodeId(1),
        to: RaftNodeId(2),
        payload: MessagePayload::AppendEntries(AppendEntriesArgs {
            term: 3,
            leader_id: RaftNodeId(1),
            prev_log_index: 4,
            prev_log_term: 2,
            entries: vec![entry(5, 3, b"z")],
            leader_commit: 4,
        }),
    };
    let c = m.clone();
    assert_eq!(c.to, RaftNodeId(2));
    match c.payload {
        MessagePayload::AppendEntries(a) => {
            assert_eq!(a.prev_log_index, 4);
            assert_eq!(a.entries[0].payload, b"z");
        }
        _ => panic!("clone changed the kind"),
    }
}

#[test]
fn commit_follows_the_quorum_rule() {
    // Three nodes: an entry commits once the leader and one peer hold it.
    let mut n = RaftNode::new(RaftNodeId(1), vec![RaftNodeId(2), RaftNodeId(3)], Duration::from_millis(100));
    n.become_candidate();
    n.become_leader();
    n.append_local_entry(b"a".to_vec());
    n.take_outbox();
    let ack = |from: u64, idx: u64| RaftMessage {
        from: RaftNodeId(from),
        to: RaftNodeId(1),
        payload: MessagePayload::AppendEntriesReply(AppendEntriesReply { term: 1, success: true, match_index: idx }),
    };
    n.step(ack(2, 0));
    assert_eq!(n.match_index.get(&2), Some(&0));
    assert_eq!(n.commit_index, 0);
    n.step(ack(2, 1));
    assert_eq!(n.commit_index, 1);
    // Five nodes: three copies are needed.
    let peers = vec![RaftNodeId(2), RaftNodeId(3), RaftNodeId(4), RaftNodeId(5)];
    let mut m = RaftNode::new(RaftNodeId(1), peers, Duration::from_millis(100));
    m.become_candidate();
    m.become_leader();
    m.append_local_entry(b"a".to_vec());
    m.append_local_entry(b"b".to_vec());
    m.step(ack(2, 0));
    assert_eq!(m.commit_index, 0);
    m.step(ack(3, 1));
    assert_eq!(m.commit_index, 0);
    m.step(ack(4, 2));
    assert_eq!(m.commit_index, 1);
    m.step(ack(5, 2));
    assert_eq!(m.commit_index, 2);
}

#[test]
fn tick_starts_election_only_past_the_deadline() {
    let mut n = RaftNode::new(RaftNodeId(1), vec![RaftNodeId(2), RaftNodeId(3)], Duration::from_millis(500));
    n.tick(Instant::now());
    assert_eq!(n.role, Role::Follower);
    assert_eq!(n.current_term, 0);
    assert!(n.outbox.is_empty());
    let before = n.election_deadline;
    n.tick(Instant::now() + Duration::from_millis(600));
    assert_eq!(n.role, Role::Candidate);
    assert_eq!(n.current_term, 1);
    assert!(n.election_deadline > before);
}

#[test]
fn votes_count_once_per_member() {
    let peers = vec![RaftNodeId(2), RaftNodeId(3), RaftNodeId(4), RaftNodeId(5)];
    let mut n = RaftNode::new(RaftNodeId(1), peers, Duration::from_millis(100));
    n.become_candidate();
    let vote = |from: u64| RaftMessage {
        from: RaftNodeId(from),
        to: RaftNodeId(1),
        payload: MessagePayload::RequestVoteReply(RequestVoteReply { term: 1, vote_granted: true }),
    };
    // A repeated reply and one from outside the cluster count for nothing.
    n.step(vote(2));
    n.step(vote(2));
    n.step(vote(9));
    assert_eq!(n.votes_received, 2);
    assert_eq!(n.role, Role::Candidate);
    n.step(vote(3));
    assert_eq!(n.votes_received, 3);
    assert_eq!(n.role, Role::Leader);
}

#[test]
fn replies_from_outside_the_cluster_do_not_commit() {
    let mut n = RaftNode::new(RaftNodeId(1), vec![RaftNodeId(2), RaftNodeId(3)], Duration::from_millis(100));
    n.become_candidate();
    n.become_leader();
    n.append_local_entry(b"a".to_vec());
    n.step(RaftMessage {
        from: RaftNodeId(9),
        to: RaftNodeId(1),
        payload: MessagePayload::AppendEntriesReply(AppendEntriesReply { term: 1, success: true, match_index: 1 }),
    });
    assert_eq!(n.commit_index, 0);
    n.step(RaftMessage {
        from: RaftNodeId(3),
        to: RaftNodeId(1),
        payload: MessagePayload::AppendEntriesReply(AppendEntriesReply { term: 1, success: true, match_index: 1 }),
    });
    assert_eq!(n.commit_index, 1);
}
