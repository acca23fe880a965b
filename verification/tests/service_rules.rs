use std::time::Duration;
use titan::health::{role_name, HealthResponse};
use titan::metrics::Metrics;
use titan::service::{
    election_timeout_ms, http_port, is_authorized, parse_client_sql, parse_peer_list, peer_address,
    udp_bind_host, udp_port, PeerSpec,
    wrap_transaction,
};
use titan::reply::{execute_reply, refuse_write, transaction_reply, WriteOutcome};
use titan::snapshot::{parse_snapshot_file_name, pick_latest_snapshot, snapshot_file_name};
use titan::text::NumberError;
use titan::{RaftNode, RaftNodeId, Role};

#[test]
fn ports_and_timeouts() {
    assert_eq!(http_port(1), 8001);
    assert_eq!(udp_port(3), 5003);
    assert_eq!(election_timeout_ms(1), 300);
    assert_eq!(election_timeout_ms(2), 550);
    assert_eq!(election_timeout_ms(3), 600);
}

#[test]
fn peer_list() {
    let local = |id: u64| PeerSpec { id: RaftNodeId(id), addr: None };
    let remote = |id: u64, a: &str| PeerSpec { id: RaftNodeId(id), addr: Some(a.to_string()) };
    assert_eq!(parse_peer_list(1, "2,3"), Some(vec![local(2), local(3)]));
    assert_eq!(parse_peer_list(1, "7"), Some(vec![local(7)]));
    assert_eq!(
        parse_peer_list(1, "2@10.0.1.11:5002,3@10.0.1.12:5003"),
        Some(vec![remote(2, "10.0.1.11:5002"), remote(3, "10.0.1.12:5003")])
    );
    assert_eq!(parse_peer_list(2, "1@10.0.1.10:5001,3"), Some(vec![remote(1, "10.0.1.10:5001"), local(3)]));
    assert_eq!(parse_peer_list(1, "2, 3"), None);
    assert_eq!(parse_peer_list(1, ""), None);
    assert_eq!(parse_peer_list(1, "2@"), None);
    assert_eq!(parse_peer_list(1, "2@a@b"), None);
    assert_eq!(parse_peer_list(1, "x@10.0.1.11:5002"), None);
    // Each node once, and never the node itself.
    assert_eq!(parse_peer_list(1, "2,3,2"), None);
    assert_eq!(parse_peer_list(1, "2,1@10.0.1.10:5001"), None);
    assert_eq!(parse_peer_list(1, "1"), None);
}

#[test]
fn peer_addresses() {
    let peers = parse_peer_list(1, "2@10.0.1.11:5002,3").unwrap();
    assert_eq!(peer_address(&peers, RaftNodeId(2)), "10.0.1.11:5002");
    assert_eq!(peer_address(&peers, RaftNodeId(3)), "127.0.0.1:5003");
    assert_eq!(peer_address(&peers, RaftNodeId(9)), "127.0.0.1:5009");
    assert_eq!(udp_bind_host(&peers), "0.0.0.0");
    assert_eq!(udp_bind_host(&parse_peer_list(1, "2,3").unwrap()), "127.0.0.1");
}

#[test]
fn client_datagrams() {
    assert_eq!(parse_client_sql("SQL:INSERT INTO t VALUES (1)"), Some("INSERT INTO t VALUES (1)".to_string()));
    assert_eq!(parse_client_sql("SQL:"), Some(String::new()));
    assert_eq!(parse_client_sql("{\"from\":1}"), None);
    assert_eq!(parse_client_sql("SQ"), None);
}

#[test]
fn authorisation() {
    // Dashboard and status are always open.
    assert!(is_authorized("/", Some("k"), "", None));
    assert!(is_authorized("/status", Some("k"), "", None));
    // Without a key, everything is open.
    assert!(is_authorized("/execute", None, "", None));
    // With a key, the bearer header or the query parameter must carry it.
    assert!(is_authorized("/execute", Some("k1"), "Bearer k1", None));
    assert!(!is_authorized("/execute", Some("k1"), "Bearer k2", None));
    assert!(!is_authorized("/execute", Some("k1"), "bearer k1", None));
    assert!(is_authorized("/query", Some("k1"), "", Some("sql=x&api_key=k1")));
    assert!(!is_authorized("/query", Some("k1"), "", Some("sql=x&api_key=k2")));
    assert!(!is_authorized("/query", Some("k1"), "", None));
    // The key must be the whole value of an `api_key` parameter.
    assert!(!is_authorized("/query", Some("k1"), "", Some("x_api_key=k1")));
    assert!(!is_authorized("/query", Some("k1"), "", Some("api_key=k12")));
    assert!(is_authorized("/query", Some("k1"), "", Some("api_key=k1")));
}

#[test]
fn transaction_wrapping() {
    let stmts = vec![
        "INSERT INTO demo (msg) VALUES ('A');;".to_string(),
        "INSERT INTO demo (msg) VALUES ('B')".to_string(),
    ];
    assert_eq!(
        wrap_transaction(&stmts),
        "BEGIN TRANSACTION;\nINSERT INTO demo (msg) VALUES ('A');\nINSERT INTO demo (msg) VALUES ('B');\nCOMMIT;"
    );
    assert_eq!(wrap_transaction(&vec![]), "BEGIN TRANSACTION;\nCOMMIT;");
}

#[test]
fn snapshot_names() {
    assert_eq!(snapshot_file_name(42), "snapshot_42.bin");
    assert_eq!(snapshot_file_name(0), "snapshot_0.bin");
    assert_eq!(parse_snapshot_file_name("snapshot_42.bin"), Some(42));
    assert_eq!(parse_snapshot_file_name("snapshot_.bin"), None);
    assert_eq!(parse_snapshot_file_name("snapshot_4x.bin"), None);
    assert_eq!(parse_snapshot_file_name("snapshot_42.txt"), None);
    assert_eq!(parse_snapshot_file_name("snap_42.bin"), None);
    let names = vec![
        "snapshot_3.bin".to_string(),
        "other".to_string(),
        "snapshot_9.bin".to_string(),
        "snapshot_9.bin".to_string(),
        "snapshot_5.bin".to_string(),
    ];
    assert_eq!(pick_latest_snapshot(&names), Some((2, 9)));
    assert_eq!(pick_latest_snapshot(&vec!["snapshot_0.bin".to_string()]), None);
    assert_eq!(pick_latest_snapshot(&vec![]), None);
}

#[test]
fn health_summary() {
    let node = RaftNode::new(RaftNodeId(1), vec![], Duration::from_millis(300));
    let metrics = Metrics::new();
    metrics.inc_ops();
    metrics.inc_ops();
    metrics.inc_leader_changes();
    metrics.inc_snapshot_installs();
    assert_eq!(metrics.counts(), (2, 1, 1));
    let h = HealthResponse::from_node(&node, &metrics);
    assert_eq!(h.status, "OK");
    assert_eq!(h.role, "Follower");
    assert_eq!(h.term, 0);
    assert_eq!(h.commit_index, 0);
    assert_eq!(h.ops_applied, 2);
    assert_eq!(role_name(Role::Leader), "Leader");
    assert_eq!(role_name(Role::Candidate), "Candidate");
}

#[test]
fn number_error_messages() {
    assert_eq!(NumberError::Empty.to_string(), "cannot parse integer from empty string");
    assert_eq!(NumberError::InvalidDigit.to_string(), "invalid digit found in string");
    assert_eq!(NumberError::Overflow.to_string(), "number too large to fit in target type");
}

#[test]
fn write_replies() {
    let r = execute_reply(&WriteOutcome::NotLeader(Role::Follower));
    assert!(!r.success && r.log_index.is_none() && !r.committed);
    assert_eq!(r.message, "This node is not the Leader. Current role: Follower. Try another node.");
    let r = execute_reply(&WriteOutcome::Invalid { statement: 1, message: "no such table: t".to_string() });
    assert_eq!(r.message, "no such table: t");
    assert!(!r.success);
    let r = execute_reply(&WriteOutcome::AppendRefused);
    assert_eq!(r.message, "Failed to append entry. Node may have lost leadership.");
    let r = execute_reply(&WriteOutcome::Accepted(7));
    assert!(r.success && !r.committed);
    assert_eq!(r.log_index, Some(7));
    assert_eq!(r.message, "SQL accepted and replicating across cluster (log index 7)");
    let r = execute_reply(&WriteOutcome::Committed(12));
    assert!(r.success && r.committed);
    assert_eq!(r.message, "✅ SQL committed across cluster at log index 12");
    let r = execute_reply(&WriteOutcome::ConfirmationDropped(3));
    assert_eq!(r.message, "SQL accepted (log index 3), but confirmation channel dropped. Entry may still commit.");
    assert!(r.success && !r.committed);
    let r = execute_reply(&WriteOutcome::TimedOut(4));
    assert_eq!(
        r.message,
        "SQL accepted (log index 4), but commit confirmation timed out after 5s. Entry is still replicating."
    );

    let r = transaction_reply(&WriteOutcome::Empty, 0);
    assert_eq!(r.message, "No statements provided");
    assert!(!r.success);
    let r = transaction_reply(&WriteOutcome::Invalid { statement: 2, message: "bad".to_string() }, 3);
    assert_eq!(r.message, "Statement 2 failed validation: bad");
    let r = transaction_reply(&WriteOutcome::NotLeader(Role::Candidate), 3);
    assert_eq!(r.message, "This node is not the Leader. Current role: Candidate.");
    let r = transaction_reply(&WriteOutcome::AppendRefused, 3);
    assert_eq!(r.message, "Failed to append entry.");
    let r = transaction_reply(&WriteOutcome::Accepted(9), 3);
    assert_eq!(r.message, "Transaction (3 statements) accepted at log index 9");
    assert_eq!(r.log_index, Some(9));
    let r = transaction_reply(&WriteOutcome::Committed(9), 2);
    assert_eq!(r.message, "Transaction (2 statements) committed at log index 9");
    assert!(r.committed);
    let r = transaction_reply(&WriteOutcome::ConfirmationDropped(9), 2);
    assert_eq!(r.message, "Transaction accepted but confirmation channel dropped.");
    let r = transaction_reply(&WriteOutcome::TimedOut(9), 2);
    assert_eq!(r.message, "Transaction accepted but commit timed out.");
    assert!(r.success && !r.committed);
}

#[test]
fn write_refusals_in_order() {
    assert!(matches!(refuse_write(0, None, Role::Follower), Some(WriteOutcome::Empty)));
    match refuse_write(3, Some((2, "bad".to_string())), Role::Follower) {
        Some(WriteOutcome::Invalid { statement, message }) => {
            assert_eq!(statement, 2);
            assert_eq!(message, "bad");
        }
        other => panic!("unexpected {:?}", other),
    }
    assert!(matches!(refuse_write(1, None, Role::Candidate), Some(WriteOutcome::NotLeader(Role::Candidate))));
    assert!(refuse_write(1, None, Role::Leader).is_none());
}
