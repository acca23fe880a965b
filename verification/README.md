# titan

A replicated SQLite layer built around a Raft consensus engine, written in
Verus. The library (`src/`) holds the logic and its proofs; the program
(`app/`) runs a cluster member: UDP transport, HTTP API, SQLite files.

## Library modules

- `types`, `rpc` — node ids, roles, log entries and the messages nodes
  exchange, each with a mathematical view.
- `protocol` — the protocol as mathematics: `NodeView` and the transition
  of every operation (elections, replication, commitment, and the writes
  each makes to the node's store).
- `node` — `RaftNode`, whose operations are proved to follow `protocol`,
  and `DeterministicApplyLoop`.
- `store` — the `RaftStateStore` trait (term, vote, log, commit index and
  the index applied to the state machine), whose contracts say that every
  write has reached the store's state when the call returns, and a verified
  in-memory store. The SQLite store in `app/` promises those contracts for
  its file; that promise is not checked.
- `laws` — properties across operations: the store's state stays in step
  with the node, a restart recovers it, terms never decrease, one
  vote per term, votes are counted once per distinct peer, leaders hold a
  majority of votes, leaders commit only what
  a majority holds, any two majorities meet, committed entries are applied
  exactly once and in order.
- `cluster` — a cluster of nodes, every message they have sent (which the
  network may lose, repeat or reorder), restarts from the store, and an
  invariant that every reachable state keeps. From it: at most one leader
  per term, matching logs, leader completeness (what is committed is in the
  log of every later leader) and state machine safety (what two members
  have committed agrees).
- `wal` — parsers for frame batches and binary SQLite WAL files.
- `text` — trimming, splitting, decimal parsing and formatting on
  characters.
- `service` — ports, timeouts, peer lists (`id` or `id@host:port`),
  client datagrams, request authorisation and transaction batching.
- `reply` — what a client's write request is answered.
- `snapshot`, `health`, `metrics`, `clock` — snapshot file names, health
  summaries, counters, and access to the clock.

## Program

`app/main.rs` provides `run <id> <peers>` (for example
`run 1 2@10.0.1.11:5002,3@10.0.1.12:5003`), `client <port> <sql>`,
`parse-fixture <file>`, `generate-wal-fixture <file>` and `inspect`.
