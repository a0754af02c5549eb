//! A compact Raft consensus core: leader election by `Vote` ordering, log
//! replication with a binary search for the matching point, joint-consensus
//! quorums and commit tracking.
//!
//! Every decision a node takes is made by the verified functions of this
//! crate; the messages a node wants to send are queued in its `Net` outbox
//! and the reply handles of committed writes are handed back in order, so
//! that a driver can deliver them.

pub mod ordering;
pub mod quorum;
pub mod store;
pub mod raft;
pub mod commit;
pub mod laws;
pub mod text;

pub use ordering::{LeaderId, LogId, Vote};

pub use quorum::{is_quorum, node_ids};
pub use raft::{Envelope, Event, Leading, Message, Metrics, Net, Progress, Raft, Reply, Request};
pub use store::{Log, Store};
pub use text::Display;
