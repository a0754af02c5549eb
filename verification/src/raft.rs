//! A Raft node: election, log replication with a binary search for the point
//! where a follower's log matches the leader's, commit by quorum, and the
//! handling of the requests and replies that carry all of it.
//!
//! A node never talks to the network itself: whatever it sends is queued in
//! its `Net`, and the reply handles of committed writes are handed back there,
//! in log order, for a driver to deliver.

use vstd::prelude::*;
use std::collections::{BTreeMap, BTreeSet};

use crate::ordering::{LeaderId, LogId, Vote, vote_gt, log_id_ge, zero_log_id};
use crate::quorum::{all_members, config_view, increasing, is_quorum, lemma_increasing_keys, lemma_push_to_set, lemma_sorted_ids_unique, node_ids, quorum_granted, sorted_ids};
use vstd::std_specs::iter::IteratorSpec;
use crate::store::{Log, LogView, Store, StoreView, logs_view, max_key};
use crate::commit::{find_max_committed, max_committed};

verus! {

broadcast use vstd::std_specs::btree::group_btree_axioms;

/// What a leader knows of the replication to one node: `acked` is the last
/// entry known to match, `len` bounds the matching prefix from above, and
/// `ready` is `Some` when no request to that node is in flight.
#[derive(Debug, Clone, Copy, PartialEq, Eq)]
pub struct Progress {
    pub acked: LogId,
    pub len: u64,
    pub ready: Option<()>,
}

impl Progress {
    /// A progress made of its three parts.
    pub fn new(acked: LogId, len: u64, ready: Option<()>) -> (p: Progress)
        ensures
            p == (Progress { acked, len, ready }),
    {
        Progress { acked, len, ready }
    }
}

/// The progress of a node nothing is known of: no entry matched yet, ready to
/// be sent to.
pub open spec fn fresh_progress() -> Progress {
    Progress { acked: zero_log_id(), len: 0, ready: Some(()) }
}

impl Default for Progress {
    fn default() -> (p: Self)
        ensures
            p == fresh_progress(),
    {
        Progress { acked: LogId::default(), len: 0, ready: Some(()) }
    }
}

/// The state a node keeps while it leads: the nodes that granted its vote,
/// the replication progress of every member, and the index of its first
/// (noop) entry together with the index its next entry will take.
#[derive(Debug)]
pub struct Leading {
    pub granted_by: BTreeSet<u64>,
    pub progresses: BTreeMap<u64, Progress>,
    pub log_index_range: (u64, u64),
}

/// The state of a `Leading`, as values.
pub struct LeadingView {
    pub granted_by: Set<u64>,
    pub progresses: Map<u64, Progress>,
    pub log_index_range: (u64, u64),
}

impl View for Leading {
    type V = LeadingView;

    open spec fn view(&self) -> LeadingView {
        LeadingView {
            granted_by: self.granted_by@,
            progresses: self.progresses@,
            log_index_range: self.log_index_range,
        }
    }
}

/// The view of an optional `Leading`.
pub open spec fn opt_leading_view(l: Option<Leading>) -> Option<LeadingView> {
    match l {
        Some(l) => Some(l@),
        None => None,
    }
}

/// A replication request: the sender's vote and last log id, which the
/// receiver checks, the id of the entry right before the carried entries, the
/// carried entries, and the sender's commit index.
#[derive(Debug)]
pub struct Request {
    pub vote: Vote,
    pub last_log_id: LogId,
    pub prev: LogId,
    pub logs: Vec<Log>,
    pub commit: u64,
}

/// The state of a `Request`, as values.
pub struct RequestView {
    pub vote: Vote,
    pub last_log_id: LogId,
    pub prev: LogId,
    pub logs: Seq<LogView>,
    pub commit: u64,
}

impl View for Request {
    type V = RequestView;

    open spec fn view(&self) -> RequestView {
        RequestView {
            vote: self.vote,
            last_log_id: self.last_log_id,
            prev: self.prev,
            logs: logs_view(self.logs@),
            commit: self.commit,
        }
    }
}

/// The answer to a replication request: whether the sender's vote and log
/// were accepted, the receiver's vote, and either the id of the last entry the
/// receiver now shares with the sender or an index the matching prefix ends
/// before.
#[derive(Debug, Clone, Copy)]
pub struct Reply {
    pub granted: bool,
    pub vote: Vote,
    pub log: Result<LogId, u64>,
}

/// Something a node sends: a replication request, a reply, or an entry it
/// proposes to itself.
#[derive(Debug)]
pub enum Message {
    Request(Request),
    Reply(Reply),
    Write(Log),
}

/// The state of a `Message`, as values.
pub enum MessageView {
    Request(RequestView),
    Reply(Reply),
    Write(LogView),
}

impl View for Message {
    type V = MessageView;

    open spec fn view(&self) -> MessageView {
        match self {
            Message::Request(r) => MessageView::Request(r@),
            Message::Reply(r) => MessageView::Reply(*r),
            Message::Write(l) => MessageView::Write(l@),
        }
    }
}

/// A message on its way from one node to another.
#[derive(Debug)]
pub struct Envelope {
    pub from: u64,
    pub target: u64,
    pub msg: Message,
}

/// The state of an `Envelope`, as values.
pub struct EnvelopeView {
    pub from: u64,
    pub target: u64,
    pub msg: MessageView,
}

impl View for Envelope {
    type V = EnvelopeView;

    open spec fn view(&self) -> EnvelopeView {
        EnvelopeView { from: self.from, target: self.target, msg: self.msg@ }
    }
}

/// Everything a node hands to the outside world: the messages to deliver, in
/// the order they were sent, and the reply handles of committed writes with
/// their log indexes, in the order they were committed.
#[derive(Debug)]
pub struct Net<R> {
    pub outbox: Vec<Envelope>,
    pub resolved: Vec<(u64, R)>,
}

/// The state of a `Net`, as values.
pub struct NetView<R> {
    pub outbox: Seq<EnvelopeView>,
    pub resolved: Seq<(u64, R)>,
}

impl<R> View for Net<R> {
    type V = NetView<R>;

    open spec fn view(&self) -> NetView<R> {
        NetView {
            outbox: self.outbox@.map_values(|e: Envelope| e@),
            resolved: self.resolved@,
        }
    }
}

impl<R> Net<R> {
    /// A network with nothing queued.
    pub fn new() -> (n: Self)
        ensures
            n@.outbox.len() == 0,
            n@.resolved.len() == 0,
    {
        Net { outbox: Vec::new(), resolved: Vec::new() }
    }

    /// Queues `ev` for delivery from `from` to `target`.
    pub fn send(&mut self, from: u64, target: u64, ev: Message)
        ensures
            final(self)@.outbox == old(self)@.outbox.push(EnvelopeView { from, target, msg: ev@ }),
            final(self)@.resolved == old(self)@.resolved,
    {
        let ghost before = self@.outbox;
        self.outbox.push(Envelope { from, target, msg: ev });
        proof {
            assert(self@.outbox =~= before.push(EnvelopeView { from, target, msg: ev@ }));
        }
    }
}

/// The keys of `m` that are at most `i`.
pub open spec fn keys_upto<R>(m: Map<u64, R>, i: u64) -> Set<u64> {
    m.dom().filter(|k: u64| k <= i)
}

/// The entries of `m` whose keys are at most `i`, in increasing key order.
pub open spec fn due_replies<R>(m: Map<u64, R>, i: u64) -> Seq<(u64, R)> {
    sorted_ids(keys_upto(m, i)).map_values(|k: u64| (k, m[k]))
}

/// A Raft node.
pub struct Raft<R> {
    pub id: u64,
    pub leading: Option<Leading>,
    pub commit: u64,
    pub net: Net<R>,
    pub sto: Store<R>,
}

/// The state of a `Raft` node, as values.
pub struct RaftView<R> {
    pub id: u64,
    pub leading: Option<LeadingView>,
    pub commit: u64,
    pub net: NetView<R>,
    pub sto: StoreView<R>,
}

impl<R> View for Raft<R> {
    type V = RaftView<R>;

    open spec fn view(&self) -> RaftView<R> {
        RaftView {
            id: self.id,
            leading: opt_leading_view(self.leading),
            commit: self.commit,
            net: self.net@,
            sto: self.sto@,
        }
    }
}

/// At most `n` entries of `logs` from position `i` on.
pub open spec fn read_range(logs: Seq<LogView>, i: int, n: u64) -> Seq<LogView> {
    if n == 0 {
        Seq::empty()
    } else {
        logs.subrange(i, if i + n <= logs.len() { i + n } else { logs.len() as int })
    }
}

impl<R> RaftView<R> {
    /// The node after seeing `vote`: a vote above its own replaces it, and a
    /// node that adopts another leader's vote stops leading.
    pub open spec fn check_vote(self, vote: Vote) -> RaftView<R> {
        if vote_gt(vote, self.sto.vote) {
            RaftView {
                sto: StoreView { vote, ..self.sto },
                leading: if vote.voted_for != LeaderId(self.id) { None } else { self.leading },
                ..self
            }
        } else {
            self
        }
    }

    /// The node after committing up to index `i`: a larger index becomes the
    /// commit index, and the reply handles of writes at or below it are handed
    /// out in index order.
    pub open spec fn commit_upto(self, i: u64) -> RaftView<R> {
        if i > self.commit {
            RaftView {
                commit: i,
                sto: StoreView { replies: self.sto.replies.remove_keys(keys_upto(self.sto.replies, i)), ..self.sto },
                net: NetView { resolved: self.net.resolved + due_replies(self.sto.replies, i), ..self.net },
                ..self
            }
        } else {
            self
        }
    }

    /// The progress the leader keeps for `target`.
    pub open spec fn progress(self, target: u64) -> Progress {
        self.leading->0.progresses[target]
    }

    /// Whether an entry that `reply` acknowledges lies within the log.
    pub open spec fn acked_within(self, reply: Reply) -> bool {
        reply.log matches Ok(acked) ==> acked.index < self.sto.logs.len()
    }

    /// The request a leader sends to a node of progress `p`, carrying at most
    /// `n` entries: it starts right after the middle of the range where the
    /// node's log may stop matching.
    pub open spec fn request_for(self, p: Progress, n: u64) -> RequestView {
        let prev = (p.acked.index + p.len) / 2;
        RequestView {
            vote: self.sto.vote,
            last_log_id: self.sto.last(),
            prev: self.sto.logs[prev].log_id,
            logs: read_range(self.sto.logs, prev + 1, n),
            commit: self.commit,
        }
    }

    /// Whether a request can be built for `target` without leaving the log.
    pub open spec fn can_send(self, target: u64) -> bool {
        &&& self.leading is Some
        &&& self.leading->0.progresses.contains_key(target)
        &&& self.progress(target).ready is Some ==> {
            &&& self.progress(target).acked.index + self.progress(target).len <= u64::MAX
            &&& (self.progress(target).acked.index + self.progress(target).len) / 2 < self.sto.logs.len()
        }
    }

    /// The node after trying to send to `target`: nothing happens while a
    /// request to it is in flight; otherwise a request with at most `n`
    /// entries is queued and `target` is marked busy.
    pub open spec fn send_if_idle(self, target: u64, n: u64) -> RaftView<R> {
        let l = self.leading->0;
        let p = l.progresses[target];
        if p.ready is None {
            self
        } else {
            RaftView {
                leading: Some(LeadingView { progresses: l.progresses.insert(target, Progress { ready: None, ..p }), ..l }),
                net: NetView {
                    outbox: self.net.outbox.push(EnvelopeView {
                        from: self.id,
                        target,
                        msg: MessageView::Request(self.request_for(p, n)),
                    }),
                    ..self.net
                },
                ..self
            }
        }
    }

    /// The invariant of a node: its store is well formed, its log is short
    /// enough for index arithmetic, and while it leads it holds its own vote,
    /// its next index is the length of its log, every member of the current
    /// config has a progress, and every progress lies within the log.
    pub open spec fn leader_wf(self) -> bool {
        &&& self.sto.wf()
        &&& self.sto.logs.len() <= max_log_len()
        &&& match self.leading {
            None => true,
            Some(l) => {
                &&& self.sto.vote.voted_for == LeaderId(self.id)
                &&& 1 <= l.log_index_range.0 <= l.log_index_range.1
                &&& l.log_index_range.1 == self.sto.logs.len()
                &&& all_members(self.sto.config()).subset_of(l.progresses.dom())
                &&& forall|id: u64| #[trigger] l.progresses.contains_key(id)
                    ==> progress_within(l.progresses[id], self.sto.logs.len() as int)
            },
        }
    }

    /// The node after starting an election: it votes for itself in the next
    /// term, leads with a progress for every member that knows nothing yet of
    /// the entries from its next index on, and sends an empty request to every
    /// member in increasing id order.
    pub open spec fn elect(self) -> RaftView<R> {
        let vote = Vote { term: (self.sto.vote.term + 1) as u64, committed: None, voted_for: LeaderId(self.id) };
        let noop = (self.sto.last().index + 1) as u64;
        let members = all_members(self.sto.config());
        let started = RaftView {
            sto: StoreView { vote, ..self.sto },
            leading: Some(LeadingView {
                granted_by: Set::empty(),
                progresses: Map::new(
                    |id: u64| members.contains(id),
                    |id: u64| Progress { acked: zero_log_id(), len: noop, ready: Some(()) },
                ),
                log_index_range: (noop, noop),
            }),
            ..self
        };
        started.send_to_all(sorted_ids(members), 0)
    }

    /// The node after being asked to propose `log` with reply handle `tx`:
    /// nothing happens unless it leads with a vote granted by a quorum;
    /// otherwise the entry takes the leader's term and next index, a new
    /// membership immediately replaces the kept members (keeping the
    /// progress of those that stay), the entry is appended with its handle
    /// recorded, the leader marks itself as holding it, and every member of
    /// the resulting config is sent up to 10 entries. The second part is the
    /// id given to the entry.
    pub open spec fn write(self, tx: R, log: LogView) -> (RaftView<R>, Option<LogId>) {
        if self.sto.vote.committed is None || self.leading is None {
            (self, None)
        } else {
            let proposed = self.write_proposed(tx, log);
            (
                proposed.send_to_all(sorted_ids(all_members(proposed.sto.config())), 10),
                Some(self.next_log_id()),
            )
        }
    }

    /// The id a leader gives to the next entry it proposes.
    pub open spec fn next_log_id(self) -> LogId {
        LogId { term: self.sto.vote.term, index: self.leading->0.log_index_range.1 }
    }

    /// A leader right after proposing `log`, before it sends anything.
    pub open spec fn write_proposed(self, tx: R, log: LogView) -> RaftView<R> {
        let l = self.leading->0;
        let log_id = self.next_log_id();
        let entry = LogView { log_id, ..log };
        let kept = match log.config {
            Some(m) => rebuilt_progresses(l.progresses, all_members(m)),
            None => l.progresses,
        };
        RaftView {
            sto: StoreView { replies: self.sto.replies.insert(log_id.index, tx), ..self.sto }.append_all(seq![entry]),
            leading: Some(LeadingView {
                progresses: kept.insert(self.id, Progress { acked: log_id, len: log_id.index, ready: None }),
                log_index_range: (l.log_index_range.0, (l.log_index_range.1 + 1) as u64),
                ..l
            }),
            ..self
        }
    }

    /// The node after handling a replication request, and its reply. The
    /// request is granted when its vote is (after adopting it if higher) the
    /// node's vote and its last log id is at least the node's. A granted
    /// request whose previous entry the log holds has its entries appended,
    /// commits up to the smaller of the sender's commit index and its last
    /// entry, and is answered with that entry's id; a granted request whose
    /// previous entry is missing truncates the log there and is answered with
    /// that index. A request not granted is answered with the index after the
    /// node's last entry.
    pub open spec fn handle_replicate_req(self, req: RequestView) -> (RaftView<R>, Reply) {
        let my_last = self.sto.last();
        let s1 = self.check_vote(req.vote);
        let vote = s1.sto.vote;
        let req_last = if req.logs.len() > 0 { req.logs.last().log_id } else { req.prev };
        if req.vote == vote && log_id_ge(req.last_log_id, my_last) {
            if self.sto.log_id_at(req.prev.index as int) == Some(req.prev) {
                let s2 = RaftView { sto: s1.sto.append_all(req.logs), ..s1 };
                let upto = if req.commit < req_last.index { req.commit } else { req_last.index };
                (s2.commit_upto(upto), Reply { granted: true, vote, log: Ok(req_last) })
            } else {
                (RaftView { sto: s1.sto.truncated(req.prev), ..s1 }, Reply { granted: true, vote, log: Err(req.prev.index) })
            }
        } else {
            (s1, Reply { granted: false, vote, log: Err((my_last.index + 1) as u64) })
        }
    }

    /// The leader after a reply from `target`. Nothing happens unless the node
    /// leads. A reply carrying the leader's own term and leader marks `target`
    /// ready again. A granted reply of that kind then counts `target` as
    /// granting the vote, updates its progress, commits what a quorum holds
    /// and keeps replicating; any other reply only has its vote checked.
    pub open spec fn handle_replicate_reply(self, target: u64, reply: Reply) -> RaftView<R> {
        if self.leading is None {
            self
        } else {
            let l = self.leading->0;
            let v = self.sto.vote;
            let same = reply.vote.term == v.term && reply.vote.voted_for == v.voted_for;
            let l1 = if same {
                LeadingView {
                    progresses: l.progresses.insert(target, Progress { ready: Some(()), ..l.progresses[target] }),
                    ..l
                }
            } else {
                l
            };
            let s1 = RaftView { leading: Some(l1), ..self };
            if reply.granted && same {
                s1.granted_by(target).replicated(target, reply.log)
            } else {
                s1.check_vote(reply.vote)
            }
        }
    }

    /// A leader whose vote is not yet granted by a quorum counts `target` as
    /// granting it; once a quorum of the current config did, the vote becomes
    /// committed and the leader proposes a noop entry to itself.
    pub open spec fn granted_by(self, target: u64) -> RaftView<R> {
        let l = self.leading->0;
        let v = self.sto.vote;
        if v.committed is None {
            let g = l.granted_by.insert(target);
            let elected = quorum_granted(self.sto.config(), g);
            RaftView {
                leading: Some(LeadingView { granted_by: g, ..l }),
                sto: if elected { StoreView { vote: Vote { committed: Some(()), ..v }, ..self.sto } } else { self.sto },
                net: if elected {
                    NetView {
                        outbox: self.net.outbox.push(EnvelopeView {
                            from: self.id,
                            target: self.id,
                            msg: MessageView::Write(crate::store::empty_log_view()),
                        }),
                        ..self.net
                    }
                } else {
                    self.net
                },
                ..self
            }
        } else {
            self
        }
    }

    /// The progress of a node after it answered with `log`: an acknowledged
    /// entry becomes its matching entry and raises the bound past it; a
    /// mismatch lowers the bound.
    pub open spec fn next_progress(p: Progress, log: Result<LogId, u64>) -> Progress {
        match log {
            Ok(acked) => Progress {
                acked,
                len: if p.len >= acked.index + 1 { p.len } else { (acked.index + 1) as u64 },
                ready: Some(()),
            },
            Err(len) => Progress { acked: p.acked, len: if p.len <= len { p.len } else { len }, ready: Some(()) },
        }
    }

    /// A leader after `target` answered a granted request with `log`: its
    /// progress is updated, the greatest entry a quorum holds (from the
    /// leader's first entry on) is committed, and `target` is sent what it
    /// still misses.
    pub open spec fn replicated(self, target: u64, log: Result<LogId, u64>) -> RaftView<R> {
        let l = self.leading->0;
        let p2 = Self::next_progress(l.progresses[target], log);
        let l2 = LeadingView { progresses: l.progresses.insert(target, p2), ..l };
        let s2 = RaftView { leading: Some(l2), ..self };
        let s3 = match max_committed(l2.progresses, l2.log_index_range.0, s2.sto.config()) {
            Some(a) => s2.commit_upto(a.index),
            None => s2,
        };
        let len = l2.log_index_range.1;
        if len - 1 > p2.acked.index {
            s3.send_if_idle(target, (len - 1 - p2.acked.index) as u64)
        } else {
            s3
        }
    }

    /// What the node reports about itself.
    pub open spec fn metrics(self) -> MetricsView {
        MetricsView {
            vote: self.sto.vote,
            last_log: self.sto.last(),
            commit: self.commit,
            config: self.sto.config(),
            progresses: match self.leading {
                Some(l) => Some(l.progresses),
                None => None,
            },
        }
    }

    /// The node after handling `ev` from `from`, and what it answers: a
    /// request is handled and its reply queued back to the sender, a reply is
    /// handled, and a write is proposed, answering the id it got.
    pub open spec fn handle_event(self, from: u64, ev: EventView<R>) -> (RaftView<R>, Option<LogId>) {
        match ev {
            EventView::Request(req) => {
                let (t, reply) = self.handle_replicate_req(req);
                (
                    RaftView {
                        net: NetView {
                            outbox: t.net.outbox.push(EnvelopeView { from: self.id, target: from, msg: MessageView::Reply(reply) }),
                            ..t.net
                        },
                        ..t
                    },
                    None,
                )
            },
            EventView::Reply(reply) => (self.handle_replicate_reply(from, reply), None),
            EventView::Write(tx, log) => self.write(tx, log),
        }
    }

    /// The node after trying to send to each of `ids` in turn.
    pub open spec fn send_to_all(self, ids: Seq<u64>, n: u64) -> RaftView<R>
        decreases ids.len(),
    {
        if ids.len() == 0 {
            self
        } else {
            self.send_to_all(ids.drop_last(), n).send_if_idle(ids.last(), n)
        }
    }
}

impl<R> Raft<R> {
    /// A node `id` over store `sto`, not leading, with nothing committed and
    /// nothing queued.
    pub fn new(id: u64, sto: Store<R>) -> (r: Self)
        ensures
            r@.id == id,
            r@.leading is None,
            r@.commit == 0,
            r@.net.outbox.len() == 0,
            r@.net.resolved.len() == 0,
            r@.sto == (StoreView { id, ..sto@ }),
    {
        let mut sto = sto;
        sto.id = id;
        Raft { id, leading: None, commit: 0, net: Net::new(), sto }
    }

    /// Adopts `vote` if it is above the node's own, leaving leadership when it
    /// is another leader's; answers whether `vote` is now the node's vote, and
    /// that vote.
    pub fn check_vote(&mut self, vote: Vote) -> (r: (bool, Vote))
        ensures
            final(self)@ == old(self)@.check_vote(vote),
            r == (vote == final(self)@.sto.vote, final(self)@.sto.vote),
    {
        if vote > self.sto.vote {
            self.sto.vote = vote;
            if vote.voted_for != LeaderId(self.id) && self.leading.is_some() {
                self.leading = None;
            }
        }
        (vote == self.sto.vote, self.sto.vote)
    }

    /// Raises the commit index to `i` if that is higher, handing out the reply
    /// handles of the writes it commits.
    fn commit(&mut self, i: u64)
        ensures
            final(self)@ == old(self)@.commit_upto(i),
    {
        if i > self.commit {
            self.commit = i;
            let ghost s0 = self@;
            let ghost start = self.sto.replies@;
            let ghost start_resolved = self.net.resolved@;
            let ghost refs = self.sto.replies.keys().remaining();
            let ghost keys = refs.unref();
            proof {
                lemma_increasing_keys(refs);
            }
            let mut due: Vec<u64> = Vec::new();
            for k in it: self.sto.replies.keys()
                invariant
                    refs == it.seq(),
                    keys == refs.unref(),
                    keys.to_set() == start.dom(),
                    start == self.sto.replies@,
                    self@ == s0,
                    forall|a: int, b: int| 0 <= a < b < keys.len() ==> keys[a] < keys[b],
                    increasing(due@),
                    due.len() > 0 ==> it.index() > 0 && due@.last() <= keys[it.index() - 1],
                    due@.to_set() == keys.take(it.index()).to_set().filter(|x: u64| x <= i),
            {
                let ghost idx = it.index();
                assert(keys[idx] == *k);
                proof {
                    assert(keys.take(idx + 1) =~= keys.take(idx).push(*k));
                    lemma_push_to_set(keys.take(idx), *k);
                }
                if *k <= i {
                    let ghost d0 = due@;
                    due.push(*k);
                    proof {
                        lemma_push_to_set(d0, *k);
                        assert(due@.to_set() =~= keys.take(idx + 1).to_set().filter(|x: u64| x <= i));
                    }
                } else {
                    assert(due@.to_set() =~= keys.take(idx + 1).to_set().filter(|x: u64| x <= i));
                }
            }
            proof {
                assert(keys.take(keys.len() as int) =~= keys);
                assert(due@.to_set() =~= keys_upto(start, i));
                lemma_sorted_ids_unique(due@, keys_upto(start, i));
            }
            let mut j: usize = 0;
            while j < due.len()
                invariant
                    j <= due.len(),
                    increasing(due@),
                    due@.to_set() == keys_upto(start, i),
                    self.sto.replies@ == start.remove_keys(due@.take(j as int).to_set()),
                    self@ == (RaftView {
                        sto: StoreView { replies: self.sto.replies@, ..s0.sto },
                        net: NetView { resolved: self.net.resolved@, ..s0.net },
                        ..s0
                    }),
                    self.net.resolved@ == start_resolved + due@.take(j as int).map_values(|k: u64| (k, start[k])),
                decreases due.len() - j,
            {
                let k = due[j];
                proof {
                    assert(due@.to_set().contains(k));
                    if due@.take(j as int).to_set().contains(k) {
                        let w = choose|w: int| 0 <= w < j && due@.take(j as int)[w] == k;
                        assert(due@[w] < due@[j as int]);
                    }
                }
                let v = self.sto.replies.remove(&k).unwrap();
                let ghost r0 = self.net.resolved@;
                self.net.resolved.push((k, v));
                proof {
                    assert(due@.take(j + 1) =~= due@.take(j as int).push(k));
                    lemma_push_to_set(due@.take(j as int), k);
                    assert(self.sto.replies@ =~= start.remove_keys(due@.take(j + 1).to_set()));
                    assert(self.net.resolved@ =~= start_resolved + due@.take(j + 1).map_values(|k: u64| (k, start[k])));
                }
                j = j + 1;
            }
            proof {
                assert(due@.take(due@.len() as int) =~= due@);
                assert(self@.sto.replies =~= old(self)@.commit_upto(i).sto.replies);
                assert(self@.net.resolved =~= old(self)@.commit_upto(i).net.resolved);
            }
        }
    }
}

impl<R> Raft<R> {
    /// Sends `target` a request with at most `n` entries unless a request to
    /// it is still in flight; answers `None` in that case.
    pub fn send_if_idle(&mut self, target: u64, n: u64) -> (r: Option<()>)
        requires
            old(self)@.can_send(target),
        ensures
            final(self)@ == old(self)@.send_if_idle(target, n),
            r is Some <==> old(self)@.progress(target).ready is Some,
    {
        let p = match &self.leading {
            Some(l) => *l.progresses.get(&target).unwrap(),
            None => {
                return None;
            },
        };
        if p.ready.is_none() {
            return None;
        }
        let prev = (p.acked.index + p.len) / 2;
        let req = Request {
            vote: self.sto.vote,
            last_log_id: self.sto.last(),
            prev: self.sto.get_log_id(prev).unwrap(),
            logs: self.sto.read_logs(prev + 1, n),
            commit: self.commit,
        };
        proof {
            let want = self@.request_for(p, n);
            assert(req@.logs =~= want.logs);
        }
        let busy = Progress { acked: p.acked, len: p.len, ready: None };
        match &mut self.leading {
            Some(l) => {
                l.progresses.insert(target, busy);
            },
            None => {},
        }
        self.net.send(self.id, target, Message::Request(req));
        Some(())
    }
}

/// The largest log length the index arithmetic of a leader is proved for.
pub open spec fn max_log_len() -> int {
    0x8000_0000_0000_0000
}

/// A progress that points into a log of `len` entries.
pub open spec fn progress_within(p: Progress, len: int) -> bool {
    p.acked.index < len && p.len <= len
}

/// Sending to one node changes nothing but that node's ready flag and the
/// outbox, and keeps the invariant.
pub proof fn lemma_send_if_idle<R>(s: RaftView<R>, target: u64, n: u64)
    requires
        s.leader_wf(),
        s.leading is Some,
        s.leading->0.progresses.contains_key(target),
    ensures
        s.can_send(target),
        same_but_sending(s, s.send_if_idle(target, n)),
{
    let p = s.progress(target);
    assert(progress_within(p, s.sto.logs.len() as int));
    let t = s.send_if_idle(target, n);
    if p.ready is Some {
        let l = s.leading->0;
        let tl = t.leading->0;
        assert(tl.progresses.dom() =~= l.progresses.dom());
        assert forall|id: u64| #[trigger] tl.progresses.contains_key(id) implies
            progress_within(tl.progresses[id], t.sto.logs.len() as int) by {
            assert(l.progresses.contains_key(id));
        }
    }
}

/// `t` is `s` after some sends: the same node with the same store, commit
/// index and resolved handles, the same members kept with the same
/// progress but for ready flags, and still well formed.
pub open spec fn same_but_sending<R>(s: RaftView<R>, t: RaftView<R>) -> bool {
    &&& t.leader_wf()
    &&& t.id == s.id
    &&& t.sto == s.sto
    &&& t.commit == s.commit
    &&& t.net.resolved == s.net.resolved
    &&& t.leading is Some
    &&& t.leading->0.granted_by == s.leading->0.granted_by
    &&& t.leading->0.log_index_range == s.leading->0.log_index_range
    &&& t.leading->0.progresses.dom() == s.leading->0.progresses.dom()
    &&& forall|id: u64| #[trigger] t.leading->0.progresses.contains_key(id) ==> {
        &&& t.leading->0.progresses[id].acked == s.leading->0.progresses[id].acked
        &&& t.leading->0.progresses[id].len == s.leading->0.progresses[id].len
    }
}

/// Sending to several kept nodes in turn keeps the invariant and changes
/// nothing but ready flags and the outbox.
pub proof fn lemma_send_to_all<R>(s: RaftView<R>, ids: Seq<u64>, n: u64)
    requires
        s.leader_wf(),
        s.leading is Some,
        forall|j: int| 0 <= j < ids.len() ==> s.leading->0.progresses.contains_key(#[trigger] ids[j]),
    ensures
        same_but_sending(s, s.send_to_all(ids, n)),
    decreases ids.len(),
{
    if ids.len() == 0 {
        assert(s.leading->0.progresses.dom() =~= s.leading->0.progresses.dom());
    } else {
        let prefix = ids.drop_last();
        assert forall|j: int| 0 <= j < prefix.len() implies s.leading->0.progresses.contains_key(#[trigger] prefix[j]) by {
            assert(prefix[j] == ids[j]);
        }
        lemma_send_to_all(s, prefix, n);
        let m = s.send_to_all(prefix, n);
        assert(s.leading->0.progresses.contains_key(ids[ids.len() - 1]));
        lemma_send_if_idle(m, ids.last(), n);
    }
}

impl<R> Raft<R> {
    /// Tries to send to each of `ids` in turn, with at most `n` entries each.
    fn send_to_all(&mut self, ids: &Vec<u64>, n: u64)
        requires
            old(self)@.leader_wf(),
            old(self)@.leading is Some,
            forall|j: int| 0 <= j < ids.len() ==> old(self)@.leading->0.progresses.contains_key(#[trigger] ids[j]),
        ensures
            final(self)@ == old(self)@.send_to_all(ids@, n),
            same_but_sending(old(self)@, final(self)@),
    {
        let ghost start = self@;
        for k in 0..ids.len()
            invariant
                start.leader_wf(),
                start.leading is Some,
                forall|j: int| 0 <= j < ids.len() ==> start.leading->0.progresses.contains_key(#[trigger] ids[j]),
                self@ == start.send_to_all(ids@.take(k as int), n),
        {
            proof {
                lemma_send_to_all(start, ids@.take(k as int), n);
                assert(ids@.take(k as int).len() == k);
                assert(start.leading->0.progresses.contains_key(ids@[k as int]));
                lemma_send_if_idle(self@, ids[k as int], n);
                assert(ids@.take(k + 1).drop_last() =~= ids@.take(k as int));
            }
            self.send_if_idle(ids[k], n);
        }
        proof {
            assert(ids@.take(ids.len() as int) =~= ids@);
            lemma_send_to_all(start, ids@, n);
        }
    }
}

impl<R> Raft<R> {
    /// Starts an election: votes for itself in the next term, starts leading
    /// with a fresh progress for every member of the current config, and sends
    /// every member an empty request asking for its vote.
    pub fn elect(&mut self)
        requires
            old(self)@.sto.wf(),
            old(self)@.sto.logs.len() <= max_log_len(),
            old(self)@.sto.vote.term < u64::MAX,
        ensures
            final(self)@ == old(self)@.elect(),
            final(self)@.leader_wf(),
    {
        proof {
            assert(self@.sto.configs.contains_key(0));
            vstd::set_lib::lemma_set_empty_equivalency_len(self@.sto.configs.dom());
        }
        self.sto.vote = Vote::new(self.sto.vote.term + 1, None, LeaderId(self.id));
        let noop_index = self.sto.last().index + 1;
        let ids = node_ids(self.sto.config().as_slice());
        let p = Progress::new(LogId::default(), noop_index, Some(()));
        let mut progresses: BTreeMap<u64, Progress> = BTreeMap::new();
        for k in 0..ids.len()
            invariant
                progresses@ == Map::new(|id: u64| ids@.take(k as int).contains(id), |id: u64| p),
        {
            let ghost before = progresses@;
            progresses.insert(ids[k], p);
            proof {
                broadcast use vstd::seq_lib::group_seq_properties;
                assert(progresses@ == before.insert(ids[k as int], p));
                assert(ids@.take(k + 1) =~= ids@.take(k as int).push(ids[k as int]));
                assert(progresses@ =~= Map::new(|id: u64| ids@.take(k + 1).contains(id), |id: u64| p));
            }
        }
        let ghost members = all_members(self@.sto.config());
        proof {
            assert(ids@.take(ids.len() as int) =~= ids@);
            assert forall|id: u64| ids@.contains(id) <==> members.contains(id) by {
                assert(ids@.to_set().contains(id) <==> ids@.contains(id));
            }
            assert(progresses@ =~= Map::new(|id: u64| members.contains(id), |id: u64| p));
        }
        self.leading = Some(Leading {
            granted_by: BTreeSet::new(),
            progresses,
            log_index_range: (noop_index, noop_index),
        });
        proof {
            assert(self@.leading->0.progresses.dom() =~= members);
            assert forall|id: u64| #[trigger] self@.leading->0.progresses.contains_key(id) implies
                progress_within(self@.leading->0.progresses[id], self@.sto.logs.len() as int) by {
            }
            assert(self@.leader_wf());
            assert forall|j: int| 0 <= j < ids.len() implies self@.leading->0.progresses.contains_key(#[trigger] ids[j]) by {
                assert(ids@.contains(ids[j]));
            }
        }
        self.send_to_all(&ids, 0);
    }
}

/// The progresses of a new membership: a member already kept keeps its
/// progress, a new one starts fresh, and nodes that left are dropped.
pub open spec fn rebuilt_progresses(old: Map<u64, Progress>, members: Set<u64>) -> Map<u64, Progress> {
    Map::new(
        |x: u64| members.contains(x),
        |x: u64| if old.contains_key(x) { old[x] } else { fresh_progress() },
    )
}

/// Progresses for `ids`: the one in `old` where there is one, a fresh one
/// otherwise.
fn rebuild_progresses(old: &BTreeMap<u64, Progress>, ids: &Vec<u64>) -> (m: BTreeMap<u64, Progress>)
    ensures
        m@ == rebuilt_progresses(old@, ids@.to_set()),
{
    let mut m: BTreeMap<u64, Progress> = BTreeMap::new();
    for k in 0..ids.len()
        invariant
            m@ == rebuilt_progresses(old@, ids@.take(k as int).to_set()),
    {
        let x = ids[k];
        let p = match old.get(&x) {
            Some(p) => *p,
            None => Progress::default(),
        };
        let ghost before = m@;
        m.insert(x, p);
        proof {
            assert(m@ == before.insert(x, p));
            assert(ids@.take(k + 1) =~= ids@.take(k as int).push(x));
            lemma_push_to_set(ids@.take(k as int), x);
            assert(m@ =~= rebuilt_progresses(old@, ids@.take(k + 1).to_set()));
        }
    }
    proof {
        assert(ids@.take(ids.len() as int) =~= ids@);
    }
    m
}

impl<R> Raft<R> {
    /// Proposes `log` as a leader whose vote a quorum granted, recording `tx`
    /// to be handed out once the entry commits; answers the id the entry got,
    /// or `None` (dropping `tx`) when the node cannot propose.
    #[verifier::rlimit(30)]
    pub fn write(&mut self, tx: R, log: Log) -> (r: Option<LogId>)
        requires
            old(self)@.sto.vote.committed is Some && old(self)@.leading is Some ==> {
                &&& old(self)@.leader_wf()
                &&& old(self)@.leading->0.log_index_range.1 < max_log_len()
                &&& log@.config is Some ==> crate::store::max_key(old(self)@.sto.configs.dom()) <= old(self)@.commit
            },
        ensures
            final(self)@ == old(self)@.write(tx, log@).0,
            r == old(self)@.write(tx, log@).1,
            old(self)@.leader_wf() ==> final(self)@.leader_wf(),
    {
        if self.sto.vote.committed.is_none() {
            return None;
        }
        let range1 = match &self.leading {
            Some(l) => l.log_index_range.1,
            None => {
                return None;
            },
        };
        let ghost s0 = self@;
        let ghost l0 = s0.leading->0;
        let ghost orig = log@;
        let mut log = log;
        let log_id = LogId { term: self.sto.vote.term, index: range1 };
        log.log_id = log_id;
        proof {
            match &log.config {
                Some(m) => crate::quorum::lemma_config_finite(m@),
                None => {},
            }
        }
        let rebuilt = match &log.config {
            Some(m) => {
                let ids = node_ids(m.as_slice());
                match &self.leading {
                    Some(l) => Some(rebuild_progresses(&l.progresses, &ids)),
                    None => None,
                }
            },
            None => None,
        };
        match &mut self.leading {
            Some(l) => {
                l.log_index_range.1 = range1 + 1;
                match rebuilt {
                    Some(np) => {
                        l.progresses = np;
                    },
                    None => {},
                }
            },
            None => {},
        }
        self.sto.replies.insert(log_id.index, tx);
        assert(self@.sto == (StoreView { replies: s0.sto.replies.insert(log_id.index, tx), ..s0.sto }));
        let ghost entry = log@;
        let mut batch: Vec<Log> = Vec::new();
        batch.push(log);
        proof {
            assert(logs_view(batch@) =~= seq![entry]);
        }
        self.sto.append(batch);
        match &mut self.leading {
            Some(l) => {
                l.progresses.insert(self.id, Progress::new(log_id, log_id.index, None));
            },
            None => {},
        }
        proof {
            let want = s0.write_proposed(tx, orig);
            assert(entry == LogView { log_id, ..orig });
            assert(self@.sto == want.sto);
            assert(self@.leading->0.progresses =~= want.leading->0.progresses);
            assert(self@ == want);
            lemma_write_proposed(s0, tx, orig);
        }
        let ids = node_ids(self.sto.config().as_slice());
        proof {
            assert forall|j: int| 0 <= j < ids.len() implies self@.leading->0.progresses.contains_key(#[trigger] ids[j]) by {
                assert(ids@.to_set().contains(ids[j]));
            }
        }
        self.send_to_all(&ids, 10);
        Some(log_id)
    }
}

/// Proposing an entry keeps a leader well formed, and the membership in
/// effect afterwards is the entry's config if it carries one.
#[verifier::rlimit(30)]
pub proof fn lemma_write_proposed<R>(s: RaftView<R>, tx: R, log: LogView)
    requires
        s.leader_wf(),
        s.sto.vote.committed is Some,
        s.leading is Some,
        s.leading->0.log_index_range.1 < max_log_len(),
        log.config is Some ==> crate::quorum::groups_finite(log.config->0),
    ensures
        s.write_proposed(tx, log).leader_wf(),
        s.write_proposed(tx, log).sto.config() == match log.config {
            Some(m) => m,
            None => s.sto.config(),
        },
        s.write_proposed(tx, log).sto.logs == s.sto.logs.push(LogView { log_id: s.next_log_id(), ..log }),
{
    let l = s.leading->0;
    let t = s.write_proposed(tx, log);
    let len = s.sto.logs.len();
    let log_id = s.next_log_id();
    let entry = LogView { log_id, ..log };
    let mid = StoreView { replies: s.sto.replies.insert(log_id.index, tx), ..s.sto };
    assert(mid.append_all(seq![entry]) == mid.append_all(seq![entry].drop_last()).append_one(entry));
    assert(seq![entry].drop_last() =~= Seq::<LogView>::empty());
    assert(mid.log_id_at(log_id.index as int) is None);
    assert(t.sto.logs == s.sto.logs.push(entry));
    let sto = t.sto;
    assert forall|k: u64| #[trigger] sto.configs.contains_key(k) implies k < sto.logs.len() by {
        if k != log_id.index {
            assert(s.sto.configs.contains_key(k));
        }
    }
    assert forall|k: u64| #[trigger] sto.replies.contains_key(k) implies k < sto.logs.len() by {
        if k != log_id.index {
            assert(s.sto.replies.contains_key(k));
        }
    }
    assert forall|i: int| 0 <= i < sto.logs.len() implies #[trigger] sto.logs[i].log_id.index == i by {
        if i < len {
            assert(sto.logs[i] == s.sto.logs[i]);
        }
    }
    assert forall|k: u64| #[trigger] sto.configs.contains_key(k) && k >= 1 implies sto.logs[k as int].config
        == Some(sto.configs[k]) by {
        if k != log_id.index {
            assert(s.sto.configs.contains_key(k));
            assert(sto.logs[k as int] == s.sto.logs[k as int]);
        }
    }
    assert forall|i: int| 1 <= i < sto.logs.len() && (#[trigger] sto.logs[i]).config is Some implies
        sto.configs.contains_key(i as u64) by {
        if i < len {
            assert(sto.logs[i] == s.sto.logs[i]);
            assert(s.sto.configs.contains_key(i as u64));
        }
    }
    assert(sto.wf());
    match log.config {
        Some(m) => {
            assert(sto.configs.contains_key(log_id.index));
            assert forall|j: u64| #[trigger] sto.configs.contains_key(j) implies j <= log_id.index by {}
            crate::store::lemma_max_key(sto.configs.dom(), log_id.index);
            assert(sto.config() == m);
        },
        None => {
            assert(sto.configs == s.sto.configs);
        },
    }
    let tl = t.leading->0;
    let members = all_members(sto.config());
    assert forall|id: u64| members.contains(id) implies #[trigger] tl.progresses.contains_key(id) by {
        match log.config {
            Some(m) => {},
            None => {
                assert(all_members(s.sto.config()).contains(id));
                assert(l.progresses.contains_key(id));
            },
        }
    }
    assert forall|id: u64| #[trigger] tl.progresses.contains_key(id) implies
        progress_within(tl.progresses[id], sto.logs.len() as int) by {
        if id != s.id {
            match log.config {
                Some(m) => {
                    if l.progresses.contains_key(id) {
                        assert(progress_within(l.progresses[id], len as int));
                    }
                },
                None => {
                    assert(progress_within(l.progresses[id], len as int));
                },
            }
        }
    }
    match log.config {
        Some(m) => {
            let kept = rebuilt_progresses(l.progresses, all_members(m));
            assert(tl.progresses.dom() =~= kept.dom().insert(s.id));
        },
        None => {
            assert(tl.progresses.dom() =~= l.progresses.dom().insert(s.id));
        },
    }
}

impl<R> Raft<R> {
    /// Handles a replication request and builds the reply to it.
    pub fn handle_replicate_req(&mut self, req: Request) -> (r: Reply)
        requires
            old(self)@.sto.last().index < u64::MAX,
        ensures
            final(self)@ == old(self)@.handle_replicate_req(req@).0,
            r == old(self)@.handle_replicate_req(req@).1,
    {
        let my_last = self.sto.last();
        let (is_granted, vote) = self.check_vote(req.vote);
        let is_upto_date = req.last_log_id >= my_last;
        let n = req.logs.len();
        let req_last = if n > 0 { req.logs[n - 1].log_id } else { req.prev };
        if is_granted && is_upto_date {
            let log = if self.sto.get_log_id(req.prev.index) == Some(req.prev) {
                self.sto.append(req.logs);
                let upto = if req.commit < req_last.index { req.commit } else { req_last.index };
                self.commit(upto);
                Ok(req_last)
            } else {
                self.sto.truncate(req.prev);
                Err(req.prev.index)
            };
            Reply { granted: true, vote, log }
        } else {
            Reply { granted: false, vote, log: Err(my_last.index + 1) }
        }
    }
}

/// Checking a vote keeps a node well formed.
pub proof fn lemma_check_vote_wf<R>(s: RaftView<R>, vote: Vote)
    requires
        s.leader_wf(),
    ensures
        s.check_vote(vote).leader_wf(),
        s.check_vote(vote).sto.logs == s.sto.logs,
        s.check_vote(vote).sto.configs == s.sto.configs,
{
}

/// Committing keeps a node well formed, and changes nothing but the commit
/// index, the reply handles and the resolved handles.
pub proof fn lemma_commit_wf<R>(s: RaftView<R>, i: u64)
    requires
        s.leader_wf(),
    ensures
        s.commit_upto(i).leader_wf(),
        s.commit_upto(i).leading == s.leading,
        s.commit_upto(i).sto.logs == s.sto.logs,
        s.commit_upto(i).sto.configs == s.sto.configs,
        s.commit_upto(i).sto.vote == s.sto.vote,
        s.commit_upto(i).net.outbox == s.net.outbox,
        s.commit_upto(i).commit >= s.commit,
{
    let t = s.commit_upto(i);
    assert forall|k: u64| #[trigger] t.sto.replies.contains_key(k) implies k < t.sto.logs.len() by {
        assert(s.sto.replies.contains_key(k));
    }
}

impl<R> Raft<R> {
    /// Handles a reply from `target` to a replication request; always answers
    /// `None`.
    #[verifier::rlimit(40)]
    pub fn handle_replicate_reply(&mut self, target: u64, reply: Reply) -> (r: Option<Leading>)
        requires
            old(self)@.leading is Some ==> old(self)@.leader_wf(),
            old(self)@.leading is Some && reply.vote.term == old(self)@.sto.vote.term
                && reply.vote.voted_for == old(self)@.sto.vote.voted_for ==> {
                &&& old(self)@.leading->0.progresses.contains_key(target)
                &&& old(self)@.progress(target).ready is None
                &&& reply.granted ==> match reply.log {
                    Ok(acked) => acked.index < u64::MAX,
                    Err(_) => true,
                }
            },
        ensures
            final(self)@ == old(self)@.handle_replicate_reply(target, reply),
            old(self)@.leader_wf() && old(self)@.acked_within(reply) ==> final(self)@.leader_wf(),
            r is None,
    {
        if self.leading.is_none() {
            return None;
        }
        let ghost s0 = self@;
        let v = self.sto.vote;
        let is_same_leader = reply.vote.term == v.term && reply.vote.voted_for == v.voted_for;
        if is_same_leader {
            match &mut self.leading {
                Some(l) => {
                    let p = *l.progresses.get(&target).unwrap();
                    l.progresses.insert(target, Progress { acked: p.acked, len: p.len, ready: Some(()) });
                },
                None => {},
            }
        }
        let ghost s1 = self@;
        proof {
            let l = s0.leading->0;
            if is_same_leader {
                assert(s1.leading->0.progresses.dom() =~= l.progresses.dom());
                assert forall|id: u64| #[trigger] s1.leading->0.progresses.contains_key(id) implies
                    progress_within(s1.leading->0.progresses[id], s1.sto.logs.len() as int) by {
                    assert(l.progresses.contains_key(id));
                }
            }
            assert(s1.leader_wf());
        }
        if reply.granted && is_same_leader {
            if v.committed.is_none() {
                let elected = match &mut self.leading {
                    Some(l) => {
                        l.granted_by.insert(target);
                        is_quorum(self.sto.config().as_slice(), &l.granted_by)
                    },
                    None => false,
                };
                if elected {
                    self.sto.vote.committed = Some(());
                    self.net.send(self.id, self.id, Message::Write(Log::default()));
                }
            }
            let ghost s2 = self@;
            proof {
                assert(s2 == s1.granted_by(target));
                assert(s2.leader_wf());
            }
            let p2 = match &mut self.leading {
                Some(l) => {
                    let p = *l.progresses.get(&target).unwrap();
                    let np = match reply.log {
                        Ok(acked) => {
                            let len = if p.len >= acked.index + 1 { p.len } else { acked.index + 1 };
                            Progress::new(acked, len, Some(()))
                        },
                        Err(len) => {
                            let len = if p.len <= len { p.len } else { len };
                            Progress::new(p.acked, len, Some(()))
                        },
                    };
                    l.progresses.insert(target, np);
                    np
                },
                None => {
                    return None;
                },
            };
            let ghost s3 = self@;
            let ghost within = s0.acked_within(reply);
            proof {
                let l2 = s3.leading->0;
                assert(l2.progresses.dom() =~= s2.leading->0.progresses.dom());
                if within {
                    assert forall|id: u64| #[trigger] l2.progresses.contains_key(id) implies
                        progress_within(l2.progresses[id], s3.sto.logs.len() as int) by {
                        assert(s2.leading->0.progresses.contains_key(id));
                    }
                    assert(s3.leader_wf());
                }
                assert(progress_within(s2.leading->0.progresses[target], s2.sto.logs.len() as int));
            }
            let (noop_index, len) = match &self.leading {
                Some(l) => l.log_index_range,
                None => {
                    return None;
                },
            };
            let acked = p2.acked.index;
            let max_c = match &self.leading {
                Some(l) => find_max_committed(&l.progresses, noop_index, self.sto.config().as_slice()),
                None => None,
            };
            if let Some(log_id) = max_c {
                proof {
                    if within {
                        lemma_commit_wf(self@, log_id.index);
                    }
                }
                self.commit(log_id.index);
            }
            proof {
                if within {
                    lemma_send_if_idle(self@, target, (len - 1 - acked) as u64);
                }
                assert(self@.leading == s3.leading);
                assert(self@.sto.logs == s2.sto.logs);
                assert(self@.progress(target) == p2);
            }
            if len - 1 > acked {
                self.send_if_idle(target, len - 1 - acked);
            }
        } else {
            proof {
                lemma_check_vote_wf(s1, reply.vote);
            }
            self.check_vote(reply.vote);
        }
        None
    }
}

impl<R> Raft<R> {
    /// Whether the node keeps the invariant of nodes (of leaders while it
    /// leads).
    pub fn is_leader_well_formed(&self) -> (r: bool)
        ensures
            r == self@.leader_wf(),
    {
        if !self.sto.is_well_formed() {
            return false;
        }
        let n = self.sto.logs.len();
        if n as u64 > 0x8000_0000_0000_0000u64 {
            return false;
        }
        let l = match &self.leading {
            None => {
                return true;
            },
            Some(l) => l,
        };
        if self.sto.vote.voted_for.0 != self.id {
            return false;
        }
        let (first, next) = l.log_index_range;
        if !(1 <= first && first <= next && next == n as u64) {
            return false;
        }
        proof {
            crate::store::lemma_config_recorded(self@.sto);
            assert(self@.sto.configs.dom().contains(max_key(self@.sto.configs.dom())));
            vstd::set_lib::lemma_set_empty_equivalency_len(self@.sto.configs.dom());
        }
        let ids = node_ids(self.sto.config().as_slice());
        assert(self@.leading == Some(l@));
        for j in 0..ids.len()
            invariant
                ids@.to_set() == all_members(self@.sto.config()),
                self@.leading == Some(l@),
                forall|k: int| 0 <= k < j ==> l@.progresses.contains_key(#[trigger] ids@[k]),
        {
            if !l.progresses.contains_key(&ids[j]) {
                proof {
                    assert(ids@.to_set().contains(ids@[j as int]));
                    assert(all_members(self@.sto.config()).contains(ids@[j as int]));
                    assert(self@.leading == Some(l@));
                    assert(!l@.progresses.contains_key(ids@[j as int]));
                }
                return false;
            }
        }
        proof {
            assert forall|x: u64| all_members(self@.sto.config()).contains(x) implies l@.progresses.contains_key(x) by {
                assert(ids@.to_set().contains(x));
                let w = choose|w: int| 0 <= w < ids@.len() && ids@[w] == x;
                assert(l@.progresses.contains_key(ids@[w]));
            }
        }
        let ghost keys = l.progresses.keys().remaining().unref();
        for k in it: l.progresses.keys()
            invariant
                keys == it.seq().unref(),
                keys.to_set() == l.progresses@.dom(),
                n == self.sto.logs.len(),
                self@.leading == Some(l@),
                forall|j: int| 0 <= j < it.index() ==> progress_within(
                    l@.progresses[#[trigger] keys[j]],
                    n as int,
                ),
        {
            let ghost i = it.index();
            assert(keys[i] == *k);
            let p = l.progresses.get(k).unwrap();
            if !(p.acked.index < n as u64 && p.len <= n as u64) {
                proof {
                    assert(self@.leading == Some(l@));
                    assert(l@.progresses.contains_key(*k));
                    assert(l@.progresses[*k] == *p);
                    assert(!progress_within(l@.progresses[*k], n as int));
                }
                return false;
            }
        }
        proof {
            assert forall|x: u64| #[trigger] l@.progresses.contains_key(x) implies progress_within(
                l@.progresses[x],
                n as int,
            ) by {
                assert(keys.contains(x));
                let w = choose|w: int| 0 <= w < keys.len() && keys[w] == x;
                assert(progress_within(l@.progresses[keys[w]], n as int));
            }
        }
        true
    }
}

/// A snapshot of what a node reports: its vote, last log id, commit index,
/// membership in effect, and, while it leads, the replication progresses.
#[derive(Debug, Clone, PartialEq, Eq)]
pub struct Metrics {
    pub vote: Vote,
    pub last_log: LogId,
    pub commit: u64,
    pub config: Vec<BTreeSet<u64>>,
    pub progresses: Option<BTreeMap<u64, Progress>>,
}

/// The content of a `Metrics`, as values.
pub struct MetricsView {
    pub vote: Vote,
    pub last_log: LogId,
    pub commit: u64,
    pub config: Seq<Set<u64>>,
    pub progresses: Option<Map<u64, Progress>>,
}

impl View for Metrics {
    type V = MetricsView;

    open spec fn view(&self) -> MetricsView {
        MetricsView {
            vote: self.vote,
            last_log: self.last_log,
            commit: self.commit,
            config: config_view(self.config@),
            progresses: match self.progresses {
                Some(p) => Some(p@),
                None => None,
            },
        }
    }
}

impl Metrics {
    /// A snapshot made of its parts.
    pub fn new(
        vote: Vote,
        last_log: LogId,
        commit: u64,
        config: Vec<BTreeSet<u64>>,
        progresses: Option<BTreeMap<u64, Progress>>,
    ) -> (m: Metrics)
        ensures
            m.vote == vote,
            m.last_log == last_log,
            m.commit == commit,
            m.config == config,
            m.progresses == progresses,
    {
        Metrics { vote, last_log, commit, config, progresses }
    }
}

impl Default for Metrics {
    fn default() -> (m: Self)
        ensures
            m@ == (MetricsView {
                vote: crate::ordering::zero_vote(),
                last_log: zero_log_id(),
                commit: 0,
                config: Seq::empty(),
                progresses: None,
            }),
    {
        let m = Metrics {
            vote: Vote::default(),
            last_log: LogId::default(),
            commit: 0,
            config: Vec::new(),
            progresses: None,
        };
        proof {
            assert(config_view(m.config@) =~= Seq::<Set<u64>>::empty());
        }
        m
    }
}

/// Something that happens to a node: a replication request or a reply from
/// another node, or a write to propose with the handle to answer once it
/// commits.
#[derive(Debug)]
pub enum Event<R> {
    Request(Request),
    Reply(Reply),
    Write(R, Log),
}

/// The content of an `Event`, as values.
pub enum EventView<R> {
    Request(RequestView),
    Reply(Reply),
    Write(R, LogView),
}

impl<R> View for Event<R> {
    type V = EventView<R>;

    open spec fn view(&self) -> EventView<R> {
        match self {
            Event::Request(r) => EventView::Request(r@),
            Event::Reply(r) => EventView::Reply(*r),
            Event::Write(tx, l) => EventView::Write(*tx, l@),
        }
    }
}

impl<R> Raft<R> {
    /// A snapshot of what the node reports about itself.
    pub fn metrics(&self) -> (m: Metrics)
        requires
            self@.sto.configs.dom().len() > 0,
        ensures
            m@ == self@.metrics(),
    {
        let config = crate::store::clone_config(self.sto.config());
        let progresses = match &self.leading {
            Some(l) => Some(l.progresses.clone()),
            None => None,
        };
        Metrics::new(self.sto.vote, self.sto.last(), self.commit, config, progresses)
    }

    /// Handles one event from `from`: a request is answered by a reply queued
    /// back to `from`, a reply updates the leader, and a write is proposed.
    /// Answers the id a proposed write got, `None` otherwise.
    pub fn handle_event(&mut self, from: u64, ev: Event<R>) -> (r: Option<LogId>)
        requires
            match ev@ {
                EventView::Request(_) => old(self)@.sto.last().index < u64::MAX,
                EventView::Reply(reply) => {
                    &&& old(self)@.leading is Some ==> old(self)@.leader_wf()
                    &&& old(self)@.leading is Some && reply.vote.term == old(self)@.sto.vote.term
                        && reply.vote.voted_for == old(self)@.sto.vote.voted_for ==> {
                        &&& old(self)@.leading->0.progresses.contains_key(from)
                        &&& old(self)@.progress(from).ready is None
                        &&& reply.granted ==> match reply.log {
                            Ok(acked) => acked.index < u64::MAX,
                            Err(_) => true,
                        }
                    }
                },
                EventView::Write(_, log) => {
                    old(self)@.sto.vote.committed is Some && old(self)@.leading is Some ==> {
                        &&& old(self)@.leader_wf()
                        &&& old(self)@.leading->0.log_index_range.1 < max_log_len()
                        &&& log.config is Some ==> crate::store::max_key(old(self)@.sto.configs.dom()) <= old(self)@.commit
                    }
                },
            },
        ensures
            final(self)@ == old(self)@.handle_event(from, ev@).0,
            r == old(self)@.handle_event(from, ev@).1,
    {
        match ev {
            Event::Request(req) => {
                let reply = self.handle_replicate_req(req);
                self.net.send(self.id, from, Message::Reply(reply));
                None
            },
            Event::Reply(reply) => {
                self.handle_replicate_reply(from, reply);
                None
            },
            Event::Write(tx, log) => self.write(tx, log),
        }
    }
}

/// Sending never touches the store, the commit index, the node id or the
/// resolved handles.
pub proof fn lemma_sending_keeps<R>(s: RaftView<R>, ids: Seq<u64>, n: u64)
    ensures
        s.send_to_all(ids, n).sto == s.sto,
        s.send_to_all(ids, n).commit == s.commit,
        s.send_to_all(ids, n).id == s.id,
        s.send_to_all(ids, n).net.resolved == s.net.resolved,
        s.leading is Some ==> s.send_to_all(ids, n).leading is Some,
        s.leading is Some ==> s.send_to_all(ids, n).leading->0.granted_by == s.leading->0.granted_by,
        s.leading is Some ==> s.send_to_all(ids, n).leading->0.log_index_range == s.leading->0.log_index_range,
    decreases ids.len(),
{
    if ids.len() > 0 {
        lemma_sending_keeps(s, ids.drop_last(), n);
    }
}

/// Sending to tracked nodes only flips ready flags: the tracked nodes and
/// what is known of their logs stay the same.
pub proof fn lemma_sending_keeps_progress<R>(s: RaftView<R>, ids: Seq<u64>, n: u64)
    requires
        s.leading is Some,
        forall|j: int| 0 <= j < ids.len() ==> s.leading->0.progresses.contains_key(#[trigger] ids[j]),
    ensures
        s.send_to_all(ids, n).leading->0.progresses.dom() == s.leading->0.progresses.dom(),
        forall|id: u64| #[trigger] s.send_to_all(ids, n).leading->0.progresses.contains_key(id)
            ==> s.send_to_all(ids, n).leading->0.progresses[id].acked == s.leading->0.progresses[id].acked
                && s.send_to_all(ids, n).leading->0.progresses[id].len == s.leading->0.progresses[id].len,
    decreases ids.len(),
{
    if ids.len() > 0 {
        let prefix = ids.drop_last();
        assert forall|j: int| 0 <= j < prefix.len() implies s.leading->0.progresses.contains_key(#[trigger] prefix[j]) by {
            assert(prefix[j] == ids[j]);
        }
        lemma_sending_keeps_progress(s, prefix, n);
        lemma_sending_keeps(s, prefix, n);
        let m = s.send_to_all(prefix, n);
        assert(s.leading->0.progresses.contains_key(ids[ids.len() - 1]));
        if m.leading->0.progresses[ids.last()].ready is Some {
            assert(m.send_if_idle(ids.last(), n).leading->0.progresses.dom() =~= m.leading->0.progresses.dom());
        }
    }
}

/// A leader elected on a well-formed node is well formed, with a vote above
/// the old one and nothing else of its store changed.
pub proof fn lemma_elect<R>(s: RaftView<R>)
    requires
        s.leader_wf(),
        s.sto.vote.term < u64::MAX,
    ensures
        s.elect().leader_wf(),
        vote_gt(s.elect().sto.vote, s.sto.vote),
        s.elect().sto == (StoreView { vote: s.elect().sto.vote, ..s.sto }),
        s.elect().commit == s.commit,
{
    crate::store::lemma_config_recorded(s.sto);
    let members = all_members(s.sto.config());
    crate::quorum::lemma_members_finite(s.sto.config());
    crate::quorum::lemma_sorted_ids_exists(members);
    let vote = Vote { term: (s.sto.vote.term + 1) as u64, committed: None, voted_for: LeaderId(s.id) };
    let noop = (s.sto.last().index + 1) as u64;
    let started = RaftView {
        sto: StoreView { vote, ..s.sto },
        leading: Some(LeadingView {
            granted_by: Set::empty(),
            progresses: Map::new(
                |id: u64| members.contains(id),
                |id: u64| Progress { acked: zero_log_id(), len: noop, ready: Some(()) },
            ),
            log_index_range: (noop, noop),
        }),
        ..s
    };
    assert(started.leading->0.progresses.dom() =~= members);
    assert(started.leader_wf());
    let ids = sorted_ids(members);
    assert forall|j: int| 0 <= j < ids.len() implies started.leading->0.progresses.contains_key(#[trigger] ids[j]) by {
        assert(ids.to_set().contains(ids[j]));
    }
    lemma_send_to_all(started, ids, 0);
}

} // verus!
