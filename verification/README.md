# one_file_raft

A compact Raft core verified with Verus: leader election decided by the
partial order of `Vote`, log replication that binary-searches the point where
a follower's log matches the leader's, joint-consensus quorums, membership
changes that take effect once appended, and commit by quorum.

Layout:

- `src/ordering.rs` — `LeaderId`, `Vote`, `LogId` and their orders.
- `src/quorum.rs` — `is_quorum`, `node_ids`, and the quorum laws.
- `src/store.rs` — log entries and the local store (append, truncate, reads).
- `src/raft.rs` — the node: election, writes, request and reply handling,
  commit, metrics; each operation is specified by a transition function on
  the node's view.
- `src/laws.rs` — properties spanning operations (votes and commit indexes only
  move forward, leaders are elected by a quorum, log matching on requests,
  appends that are idempotent and read back, the ready flag as the token of
  the one request in flight).
- `src/text.rs` — text renderings used for logging.
- `app/lib.rs` — the tokio driver: channels between nodes, the event loop
  (which hands each event to `Raft::handle_event` after checking its
  preconditions, `Raft::is_leader_well_formed` among them), metrics
  publication, delivery of write answers.

A node never performs I/O: what it sends is queued in `Raft::net.outbox`, and
the reply handles of committed writes come out of `Raft::net.resolved` in log
order; the driver in `app/` delivers both.
