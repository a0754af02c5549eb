//! Properties that span the operations of a node: what only moves forward,
//! when a leader may consider itself elected, what a follower holds after
//! answering a request, what receiving the same entries again does, how the
//! replication search range shrinks, and how the ready flag of a replication
//! target stands for the one request in flight to it.

use vstd::prelude::*;

use crate::ordering::{LeaderId, LogId, Vote, log_id_ge, vote_gt, zero_log_id};
use crate::quorum::quorum_granted;
use crate::commit::{acked_at_least, commit_candidate, max_committed};
use crate::raft::{
    LeadingView, Progress, RaftView, Reply, RequestView, lemma_commit_wf, lemma_sending_keeps, max_log_len,
    progress_within,
};
use crate::store::{
    LogView, StoreView, configs_finite, consecutive_from, lemma_append_consecutive, lemma_append_keeps_vote,
    lemma_truncate_wf,
};

verus! {

/// `b` is `a` or a vote above it.
pub open spec fn vote_at_least(b: Vote, a: Vote) -> bool {
    b == a || vote_gt(b, a)
}

/// Seeing a vote never lowers a node's vote: a vote above the node's own is
/// adopted, any other leaves the node unchanged, no node starts leading by
/// seeing a vote, and the vote seen is granted exactly when it is at least the
/// node's vote.
pub proof fn lemma_check_vote<R>(s: RaftView<R>, v: Vote)
    ensures
        vote_at_least(s.check_vote(v).sto.vote, s.sto.vote),
        vote_gt(v, s.sto.vote) ==> s.check_vote(v).sto.vote == v,
        !vote_gt(v, s.sto.vote) ==> s.check_vote(v) == s,
        s.check_vote(v).leading is Some ==> s.leading is Some,
        (v == s.check_vote(v).sto.vote) <==> vote_at_least(v, s.sto.vote),
{
}

/// Electing raises the vote.
proof fn lemma_elect_raises<R>(s: RaftView<R>)
    requires
        s.sto.vote.term < u64::MAX,
    ensures
        vote_gt(s.elect().sto.vote, s.sto.vote),
        s.elect().commit == s.commit,
{
    let members = crate::quorum::all_members(s.sto.config());
    let vote = Vote { term: (s.sto.vote.term + 1) as u64, committed: None, voted_for: LeaderId(s.id) };
    let noop = (s.sto.last().index + 1) as u64;
    let started = RaftView {
        sto: crate::store::StoreView { vote, ..s.sto },
        leading: Some(crate::raft::LeadingView {
            granted_by: Set::empty(),
            progresses: Map::new(
                |id: u64| members.contains(id),
                |id: u64| Progress { acked: zero_log_id(), len: noop, ready: Some(()) },
            ),
            log_index_range: (noop, noop),
        }),
        ..s
    };
    lemma_sending_keeps(started, crate::quorum::sorted_ids(members), 0);
}

/// Proposing leaves the vote and the commit index alone.
proof fn lemma_write_keeps<R>(s: RaftView<R>, tx: R, log: LogView)
    ensures
        s.write(tx, log).0.sto.vote == s.sto.vote,
        s.write(tx, log).0.commit == s.commit,
{
    if !(s.sto.vote.committed is None || s.leading is None) {
        let p = s.write_proposed(tx, log);
        let entry = LogView { log_id: s.next_log_id(), ..log };
        let mid = crate::store::StoreView { replies: s.sto.replies.insert(s.next_log_id().index, tx), ..s.sto };
        lemma_append_keeps_vote(mid, seq![entry]);
        lemma_sending_keeps(p, crate::quorum::sorted_ids(crate::quorum::all_members(p.sto.config())), 10);
    }
}

/// Handling a request can only raise the vote and the commit index.
proof fn lemma_request_keeps<R>(s: RaftView<R>, req: RequestView)
    ensures
        vote_at_least(s.handle_replicate_req(req).0.sto.vote, s.sto.vote),
        s.handle_replicate_req(req).0.commit >= s.commit,
{
    let s1 = s.check_vote(req.vote);
    lemma_append_keeps_vote(s1.sto, req.logs);
}

/// Handling a reply can only raise the vote and the commit index.
proof fn lemma_reply_keeps<R>(s: RaftView<R>, target: u64, reply: Reply)
    ensures
        vote_at_least(s.handle_replicate_reply(target, reply).sto.vote, s.sto.vote),
        s.handle_replicate_reply(target, reply).commit >= s.commit,
{
    if s.leading is Some {
        let l = s.leading->0;
        let v = s.sto.vote;
        let same = reply.vote.term == v.term && reply.vote.voted_for == v.voted_for;
        let l1 = if same {
            crate::raft::LeadingView {
                progresses: l.progresses.insert(target, Progress { ready: Some(()), ..l.progresses[target] }),
                ..l
            }
        } else {
            l
        };
        let s1 = RaftView { leading: Some(l1), ..s };
        if reply.granted && same {
            let g = s1.granted_by(target);
            let lg = g.leading->0;
            let p2 = RaftView::<R>::next_progress(lg.progresses[target], reply.log);
            let l2 = crate::raft::LeadingView { progresses: lg.progresses.insert(target, p2), ..lg };
            let s2 = RaftView { leading: Some(l2), ..g };
            let s3 = match crate::commit::max_committed(l2.progresses, l2.log_index_range.0, s2.sto.config()) {
                Some(a) => s2.commit_upto(a.index),
                None => s2,
            };
            let len = l2.log_index_range.1;
            lemma_sending_keeps(s3, seq![target], (len - 1 - p2.acked.index) as u64);
            assert(seq![target].drop_last() =~= Seq::<u64>::empty());
        }
    }
}

/// A node's vote never goes backwards, whatever it handles: electing raises
/// the term, proposing leaves the vote alone, and a request or a reply can
/// only raise it.
pub proof fn lemma_vote_never_decreases<R>(
    s: RaftView<R>,
    target: u64,
    reply: Reply,
    req: RequestView,
    tx: R,
    log: LogView,
)
    requires
        s.sto.vote.term < u64::MAX,
    ensures
        vote_gt(s.elect().sto.vote, s.sto.vote),
        s.write(tx, log).0.sto.vote == s.sto.vote,
        vote_at_least(s.handle_replicate_req(req).0.sto.vote, s.sto.vote),
        vote_at_least(s.handle_replicate_reply(target, reply).sto.vote, s.sto.vote),
{
    lemma_elect_raises(s);
    lemma_write_keeps(s, tx, log);
    lemma_request_keeps(s, req);
    lemma_reply_keeps(s, target, reply);
}

/// A node's commit index never goes backwards, whatever it handles.
pub proof fn lemma_commit_never_decreases<R>(
    s: RaftView<R>,
    target: u64,
    reply: Reply,
    req: RequestView,
    tx: R,
    log: LogView,
)
    requires
        s.sto.vote.term < u64::MAX,
    ensures
        s.elect().commit == s.commit,
        s.write(tx, log).0.commit == s.commit,
        s.handle_replicate_req(req).0.commit >= s.commit,
        s.handle_replicate_reply(target, reply).commit >= s.commit,
{
    lemma_elect_raises(s);
    lemma_write_keeps(s, tx, log);
    lemma_request_keeps(s, req);
    lemma_reply_keeps(s, target, reply);
}

/// A leader's vote becomes committed only once the nodes that granted it,
/// counting the one that just did, form a quorum of the membership in effect.
pub proof fn lemma_elected_by_quorum<R>(s: RaftView<R>, target: u64, reply: Reply)
    requires
        s.leading is Some,
        s.sto.vote.committed is None,
        reply.granted,
        reply.vote.term == s.sto.vote.term,
        reply.vote.voted_for == s.sto.vote.voted_for,
    ensures
        s.handle_replicate_reply(target, reply).leading is Some,
        s.handle_replicate_reply(target, reply).leading->0.granted_by == s.leading->0.granted_by.insert(target),
        s.handle_replicate_reply(target, reply).sto.vote.committed is Some
            <==> quorum_granted(s.sto.config(), s.leading->0.granted_by.insert(target)),
        s.handle_replicate_reply(target, reply).sto.vote.term == s.sto.vote.term,
        s.handle_replicate_reply(target, reply).sto.vote.voted_for == s.sto.vote.voted_for,
{
    let l = s.leading->0;
    let l1 = crate::raft::LeadingView {
        progresses: l.progresses.insert(target, Progress { ready: Some(()), ..l.progresses[target] }),
        ..l
    };
    let s1 = RaftView { leading: Some(l1), ..s };
    let g = s1.granted_by(target);
    let lg = g.leading->0;
    let p2 = RaftView::<R>::next_progress(lg.progresses[target], reply.log);
    let l2 = crate::raft::LeadingView { progresses: lg.progresses.insert(target, p2), ..lg };
    let s2 = RaftView { leading: Some(l2), ..g };
    let s3 = match crate::commit::max_committed(l2.progresses, l2.log_index_range.0, s2.sto.config()) {
        Some(a) => s2.commit_upto(a.index),
        None => s2,
    };
    let len = l2.log_index_range.1;
    lemma_sending_keeps(s3, seq![target], (len - 1 - p2.acked.index) as u64);
    assert(seq![target].drop_last() =~= Seq::<u64>::empty());
}

/// A follower never commits past what the request's sender committed, nor
/// past the last entry the request brought it, and only commits when it
/// accepts the request's entries.
pub proof fn lemma_follower_commit_bound<R>(s: RaftView<R>, req: RequestView)
    ensures
        s.handle_replicate_req(req).0.commit != s.commit ==> {
            &&& s.handle_replicate_req(req).1.granted
            &&& s.handle_replicate_req(req).1.log is Ok
            &&& s.handle_replicate_req(req).0.commit <= req.commit
            &&& s.handle_replicate_req(req).0.commit <= s.handle_replicate_req(req).1.log->Ok_0.index
        },
{
}

/// A request that continues the log right after its `prev` entry with
/// consecutive entries keeps the store well formed. When it is accepted, every
/// entry it carries, and the entry it reports, is afterwards found at its
/// index and nothing up to `prev` changed; when it is granted but `prev` does
/// not match, the log is cut so that it ends before `prev`.
pub proof fn lemma_request_log_matching<R>(s: RaftView<R>, req: RequestView)
    requires
        s.sto.wf(),
        consecutive_from(req.logs, req.prev.index + 1),
        configs_finite(req.logs),
        req.prev.index == 0 ==> req.prev == zero_log_id(),
    ensures
        s.handle_replicate_req(req).0.sto.wf(),
        s.handle_replicate_req(req).1.log matches Ok(last) ==> {
            &&& s.handle_replicate_req(req).0.sto.log_id_at(last.index as int) == Some(last)
            &&& forall|j: int| 0 <= j < req.logs.len() ==> #[trigger] s.handle_replicate_req(req).0.sto.log_id_at(
                req.prev.index + 1 + j) == Some(req.logs[j].log_id)
            &&& s.handle_replicate_req(req).0.sto.logs.take(req.prev.index + 1) == s.sto.logs.take(req.prev.index + 1)
        },
        s.handle_replicate_req(req).1.granted && s.handle_replicate_req(req).1.log is Err
            ==> s.handle_replicate_req(req).0.sto.logs.len() <= req.prev.index,
{
    let s1 = s.check_vote(req.vote);
    assert(s1.sto.wf());
    let (t, reply) = s.handle_replicate_req(req);
    if reply.granted {
        if s.sto.log_id_at(req.prev.index as int) == Some(req.prev) {
            let start = req.prev.index + 1;
            lemma_append_consecutive(s1.sto, req.logs, start);
            let s2 = RaftView { sto: s1.sto.append_all(req.logs), ..s1 };
            assert(t.sto.logs == s2.sto.logs);
            assert(t.sto.configs == s2.sto.configs);
            assert forall|k: u64| #[trigger] t.sto.replies.contains_key(k) implies k < t.sto.logs.len() by {
                assert(s2.sto.replies.contains_key(k));
            }
            assert forall|j: int| 0 <= j < req.logs.len() implies #[trigger] t.sto.log_id_at(req.prev.index + 1 + j)
                == Some(req.logs[j].log_id) by {
                assert(s2.sto.log_id_at(start + j) == Some(req.logs[j].log_id));
            }
            if req.logs.len() > 0 {
                assert(s2.sto.log_id_at(start + req.logs.len() - 1) == Some(req.logs[req.logs.len() - 1].log_id));
            } else {
                assert(s2.sto.logs.take(start) == s1.sto.logs.take(start));
                assert(s2.sto.logs[req.prev.index as int] == s2.sto.logs.take(start)[req.prev.index as int]);
            }
        } else {
            if req.prev.index == 0 {
                assert(s.sto.logs[0].log_id == zero_log_id());
            }
            lemma_truncate_wf(s1.sto, req.prev);
        }
    }
}

/// A request from any other leader either leaves a node as it was or ends its
/// leadership, and a node that leads keeps the invariant of leaders as long as
/// the request continues its log properly and stays within the log size the
/// invariant allows.
pub proof fn lemma_other_leader_request<R>(s: RaftView<R>, req: RequestView)
    requires
        s.leader_wf(),
        req.vote.voted_for != LeaderId(s.id),
        consecutive_from(req.logs, req.prev.index + 1),
        configs_finite(req.logs),
        req.prev.index == 0 ==> req.prev == zero_log_id(),
        req.prev.index + 1 + req.logs.len() <= max_log_len(),
    ensures
        s.leading is Some ==> s.handle_replicate_req(req).0.leading is None
            || s.handle_replicate_req(req).0 == s,
        s.handle_replicate_req(req).0.leader_wf(),
{
    lemma_request_log_matching(s, req);
    let s1 = s.check_vote(req.vote);
    let (t, reply) = s.handle_replicate_req(req);
    if req.vote == s1.sto.vote {
        if s.leading is Some {
            assert(s.sto.vote.voted_for == LeaderId(s.id));
            assert(s1.leading is None);
        }
    }
    if reply.granted {
        if s.sto.log_id_at(req.prev.index as int) == Some(req.prev) {
            let start = req.prev.index + 1;
            lemma_append_consecutive(s1.sto, req.logs, start);
        } else {
            if req.prev.index == 0 {
                assert(s.sto.logs[0].log_id == zero_log_id());
            }
            lemma_truncate_wf(s1.sto, req.prev);
        }
    }
}

/// A reply narrows the range where a node's log may stop matching the
/// leader's: an acknowledged entry becomes the lower end with the upper end
/// past it, a mismatch can only lower the upper end. Every request starts at
/// the middle of a non-empty range.
pub proof fn lemma_search_range(p: Progress, log: Result<LogId, u64>)
    requires
        log matches Ok(acked) ==> acked.index < u64::MAX,
    ensures
        log matches Ok(acked) ==> {
            &&& RaftView::<()>::next_progress(p, log).acked == acked
            &&& RaftView::<()>::next_progress(p, log).len > acked.index
            &&& RaftView::<()>::next_progress(p, log).len >= p.len
        },
        log matches Err(len) ==> {
            &&& RaftView::<()>::next_progress(p, log).acked == p.acked
            &&& RaftView::<()>::next_progress(p, log).len <= p.len
            &&& RaftView::<()>::next_progress(p, log).len <= len
        },
        RaftView::<()>::next_progress(p, log).ready is Some,
        p.acked.index < p.len ==> p.acked.index <= (p.acked.index + p.len) / 2 < p.len,
{
}

/// A leader only moves its commit index to an entry that some node
/// acknowledged, that is not before the leader's first entry of its term, and
/// that a quorum of the membership in effect holds.
pub proof fn lemma_leader_commits_quorum_entry<R>(s: RaftView<R>, target: u64, reply: Reply)
    requires
        s.leading is Some,
        s.leading->0.progresses.contains_key(target),
    ensures
        s.handle_replicate_reply(target, reply).commit != s.commit ==> {
            let t = s.handle_replicate_reply(target, reply);
            &&& t.leading is Some
            &&& exists|a: LogId| #[trigger] commit_candidate(
                t.leading->0.progresses,
                t.leading->0.log_index_range.0,
                t.sto.config(),
                a,
            ) && a.index == t.commit
        },
{
    let l = s.leading->0;
    let v = s.sto.vote;
    let same = reply.vote.term == v.term && reply.vote.voted_for == v.voted_for;
    let l1 = if same {
        crate::raft::LeadingView {
            progresses: l.progresses.insert(target, Progress { ready: Some(()), ..l.progresses[target] }),
            ..l
        }
    } else {
        l
    };
    let s1 = RaftView { leading: Some(l1), ..s };
    if reply.granted && same {
        let g = s1.granted_by(target);
        assert(g.leading->0.progresses.contains_key(target));
        assert(g.commit == s.commit);
        lemma_replicated_commits_quorum_entry(g, target, reply.log);
    } else {
        crate::laws::lemma_check_vote(s1, reply.vote);
    }
}

/// The commit step of a leader handling an acknowledgement picks an entry a
/// quorum holds.
#[verifier::rlimit(60)]
proof fn lemma_replicated_commits_quorum_entry<R>(g: RaftView<R>, target: u64, log: Result<LogId, u64>)
    requires
        g.leading is Some,
        g.leading->0.progresses.contains_key(target),
    ensures
        g.replicated(target, log).commit != g.commit ==> {
            let t = g.replicated(target, log);
            &&& t.leading is Some
            &&& exists|a: LogId| #[trigger] commit_candidate(
                t.leading->0.progresses,
                t.leading->0.log_index_range.0,
                t.sto.config(),
                a,
            ) && a.index == t.commit
        },
{
    let lg = g.leading->0;
    let p2 = RaftView::<R>::next_progress(lg.progresses[target], log);
    let l2 = crate::raft::LeadingView { progresses: lg.progresses.insert(target, p2), ..lg };
    let s2 = RaftView { leading: Some(l2), ..g };
    let mc = max_committed(l2.progresses, l2.log_index_range.0, s2.sto.config());
    let s3 = match mc {
        Some(a) => s2.commit_upto(a.index),
        None => s2,
    };
    let len = l2.log_index_range.1;
    let n = (len - 1 - p2.acked.index) as u64;
    let t = g.replicated(target, log);
    assert(s3.leading == Some(l2));
    assert(s3.sto.configs == g.sto.configs);
    assert(l2.progresses.contains_key(target));
    lemma_sending_keeps(s3, seq![target], n);
    crate::raft::lemma_sending_keeps_progress(s3, seq![target], n);
    assert(seq![target].drop_last() =~= Seq::<u64>::empty());
    assert(s3.send_to_all(seq![target], n) == s3.send_to_all(Seq::<u64>::empty(), n).send_if_idle(target, n));
    assert(t == if len - 1 > p2.acked.index { s3.send_to_all(seq![target], n) } else { s3 });
    if t.commit != g.commit {
        assert(mc is Some);
        let a = mc->0;
        assert(crate::commit::greatest_candidate(l2.progresses, l2.log_index_range.0, s2.sto.config(), a));
        let tp = t.leading->0.progresses;
        assert(acked_at_least(tp, a) =~= acked_at_least(l2.progresses, a));
        let id = choose|id: u64| #[trigger] l2.progresses.contains_key(id) && l2.progresses[id].acked == a;
        assert(tp.contains_key(id) && tp[id].acked == a);
        assert(commit_candidate(tp, t.leading->0.log_index_range.0, t.sto.config(), a));
    }
}

/// What a leader proposes is in its log right away: after a write answered
/// with an id, the leader's log ends with the entry under that id, carrying the
/// written data and config, and the write's reply handle waits under its
/// index.
pub proof fn lemma_write_then_read<R>(s: RaftView<R>, tx: R, log: LogView)
    requires
        s.leader_wf(),
        s.sto.vote.committed is Some,
        s.leading is Some,
        s.leading->0.log_index_range.1 < max_log_len(),
        log.config is Some ==> crate::quorum::groups_finite(log.config->0),
    ensures
        s.write(tx, log).1 == Some(s.next_log_id()),
        s.write(tx, log).0.sto.log_id_at(s.next_log_id().index as int) == Some(s.next_log_id()),
        s.write(tx, log).0.sto.logs == s.sto.logs.push(LogView { log_id: s.next_log_id(), ..log }),
        s.write(tx, log).0.sto.replies.contains_key(s.next_log_id().index),
        s.write(tx, log).0.sto.replies[s.next_log_id().index] == tx,
        s.write(tx, log).0.leader_wf(),
{
    crate::raft::lemma_write_proposed(s, tx, log);
    let p = s.write_proposed(tx, log);
    let ids = crate::quorum::sorted_ids(crate::quorum::all_members(p.sto.config()));
    lemma_sending_keeps(p, ids, 10);
    crate::store::lemma_config_recorded(p.sto);
    crate::quorum::lemma_members_finite(p.sto.config());
    crate::quorum::lemma_sorted_ids_exists(crate::quorum::all_members(p.sto.config()));
    assert forall|j: int| 0 <= j < ids.len() implies p.leading->0.progresses.contains_key(#[trigger] ids[j]) by {
        assert(ids.to_set().contains(ids[j]));
    }
    crate::raft::lemma_send_to_all(p, ids, 10);
    let mid = crate::store::StoreView { replies: s.sto.replies.insert(s.next_log_id().index, tx), ..s.sto };
    let entry = LogView { log_id: s.next_log_id(), ..log };
    assert(mid.append_all(seq![entry]) == mid.append_all(seq![entry].drop_last()).append_one(entry));
    assert(seq![entry].drop_last() =~= Seq::<LogView>::empty());
    assert(mid.log_id_at(s.next_log_id().index as int) is None);
}

/// Committing hands out every reply handle at most once: each handle that
/// waited either still waits or was handed out, never both; the handles
/// handed out are those of the newly committed indexes, in increasing index
/// order, and no handle is made up.
pub proof fn lemma_commit_hands_out_once<R>(s: RaftView<R>, i: u64)
    requires
        s.sto.replies.dom().finite(),
    ensures
        ({
            let t = s.commit_upto(i);
            let handed = t.net.resolved.skip(s.net.resolved.len() as int);
            &&& t.net.resolved.take(s.net.resolved.len() as int) == s.net.resolved
            &&& crate::quorum::increasing(handed.map_values(|e: (u64, R)| e.0))
            &&& forall|k: u64| #[trigger] s.sto.replies.contains_key(k) ==> (t.sto.replies.contains_key(k) <==> !(
                handed.map_values(|e: (u64, R)| e.0).contains(k)))
            &&& forall|j: int| 0 <= j < handed.len() ==> #[trigger] s.sto.replies.contains_key(handed[j].0)
                && s.sto.replies[handed[j].0] == handed[j].1 && handed[j].0 <= i && s.commit < i
            &&& forall|k: u64| #[trigger] t.sto.replies.contains_key(k) ==> s.sto.replies.contains_key(k)
                && t.sto.replies[k] == s.sto.replies[k]
        }),
{
    let t = s.commit_upto(i);
    let n = s.net.resolved.len() as int;
    let handed = t.net.resolved.skip(n);
    if i > s.commit {
        let keys = crate::raft::keys_upto(s.sto.replies, i);
        assert(keys.finite()) by {
            assert(keys.subset_of(s.sto.replies.dom()));
            vstd::set_lib::lemma_len_subset(keys, s.sto.replies.dom());
        }
        crate::quorum::lemma_sorted_ids_exists(keys);
        let sk = crate::quorum::sorted_ids(keys);
        assert(handed =~= crate::raft::due_replies(s.sto.replies, i));
        assert(handed.map_values(|e: (u64, R)| e.0) =~= sk);
        assert(t.net.resolved.take(n) =~= s.net.resolved);
        assert forall|k: u64| #[trigger] s.sto.replies.contains_key(k) implies (t.sto.replies.contains_key(k) <==> !(
            handed.map_values(|e: (u64, R)| e.0).contains(k))) by {
            assert(sk.to_set().contains(k) <==> sk.contains(k));
        }
        assert forall|j: int| 0 <= j < handed.len() implies #[trigger] s.sto.replies.contains_key(handed[j].0)
            && s.sto.replies[handed[j].0] == handed[j].1 && handed[j].0 <= i && s.commit < i by {
            assert(sk.to_set().contains(sk[j]));
        }
    } else {
        assert(t.net.resolved.take(n) =~= s.net.resolved);
        assert(handed =~= Seq::<(u64, R)>::empty());
        assert(handed.map_values(|e: (u64, R)| e.0) =~= Seq::<u64>::empty());
    }
}

/// A node grants at most one leader's uncommitted vote per term: once its
/// vote is at least a vote for leader `A` in term `T` (as it stays forever
/// after granting that vote, its vote never going backwards), an uncommitted
/// vote for another leader of term `T` is never granted.
pub proof fn lemma_one_leader_granted_per_term<R>(s: RaftView<R>, a: Vote, b: Vote)
    requires
        vote_at_least(s.sto.vote, a),
        a.term == b.term,
        b.committed is None,
        a.voted_for != b.voted_for,
    ensures
        b != s.check_vote(b).sto.vote,
{
    lemma_check_vote(s, b);
    crate::ordering::lemma_vote_order(b, s.sto.vote, a);
    crate::ordering::lemma_vote_order(s.sto.vote, a, b);
}

/// Receiving entries that the log already holds, each under its id at its
/// index, changes nothing.
pub proof fn lemma_append_present<R>(s: StoreView<R>, logs: Seq<LogView>)
    requires
        s.holds_all(logs),
    ensures
        s.append_all(logs) == s,
    decreases logs.len(),
{
    if logs.len() > 0 {
        let prefix = logs.drop_last();
        assert forall|j: int| 0 <= j < prefix.len() implies #[trigger] s.log_id_at(prefix[j].log_id.index as int)
            == Some(prefix[j].log_id) by {
            assert(prefix[j] == logs[j]);
        }
        lemma_append_present(s, prefix);
        assert(s.log_id_at(logs[logs.len() - 1].log_id.index as int) == Some(logs[logs.len() - 1].log_id));
    }
}

/// Receiving entries with consecutive indexes from `start`, in a log that
/// reaches `start` and whose every entry sits at its index: afterwards every
/// entry still sits at its index, the entries before `start` are untouched,
/// each received entry's id is found at its index, and an entry whose id the
/// log did not hold at that index is stored as received. The log keeps its
/// length when it already held every received entry, and otherwise ends right
/// after the last received entry.
pub proof fn lemma_append_indexed<R>(s: StoreView<R>, logs: Seq<LogView>, start: int)
    requires
        s.indexed(),
        consecutive_from(logs, start),
        0 <= start <= s.logs.len(),
    ensures
        s.append_all(logs).indexed(),
        s.append_all(logs).logs.len() == if s.holds_all(logs) { s.logs.len() as int } else { start + logs.len() },
        s.append_all(logs).logs.take(start) == s.logs.take(start),
        forall|j: int| 0 <= j < logs.len() ==> #[trigger] s.append_all(logs).log_id_at(start + j)
            == Some(logs[j].log_id),
        forall|j: int| 0 <= j < logs.len() && s.log_id_at(start + j) != Some(logs[j].log_id)
            ==> #[trigger] s.append_all(logs).logs[start + j] == logs[j],
    decreases logs.len(),
{
    if logs.len() == 0 {
        assert(s.holds_all(logs));
        assert(s.append_all(logs) == s);
    } else {
        let n = logs.len() as int;
        let prefix = logs.drop_last();
        let last = logs.last();
        assert forall|j: int| 0 <= j < prefix.len() implies #[trigger] prefix[j].log_id.index == start + j by {
            assert(prefix[j] == logs[j]);
        }
        lemma_append_indexed(s, prefix, start);
        let p = s.append_all(prefix);
        let t = s.append_all(logs);
        let i = start + n - 1;
        assert(last == logs[n - 1]);
        assert(t == p.append_one(last));
        let held = s.holds_all(prefix);
        if held {
            lemma_append_present(s, prefix);
            if n >= 2 {
                assert(prefix[n - 2].log_id.index == start + n - 2);
                assert(s.log_id_at(prefix[n - 2].log_id.index as int) == Some(prefix[n - 2].log_id));
            }
        } else {
            let w = choose|w: int| 0 <= w < prefix.len() && !(#[trigger] s.log_id_at(prefix[w].log_id.index as int)
                == Some(prefix[w].log_id));
            assert(logs[w] == prefix[w]);
            assert(!s.holds_all(logs));
        }
        assert(s.holds_all(logs) <==> held && s.log_id_at(i) == Some(last.log_id)) by {
            if held && s.log_id_at(i) == Some(last.log_id) {
                assert forall|j: int| 0 <= j < n implies #[trigger] s.log_id_at(logs[j].log_id.index as int)
                    == Some(logs[j].log_id) by {
                    if j < n - 1 {
                        assert(logs[j] == prefix[j]);
                    }
                }
            }
        }
        assert forall|j: int| 0 <= j < n - 1 implies #[trigger] p.log_id_at(start + j) == Some(logs[j].log_id) by {
            assert(prefix[j] == logs[j]);
        }
        assert forall|j: int| 0 <= j < n - 1 && s.log_id_at(start + j) != Some(logs[j].log_id) implies
            #[trigger] p.logs[start + j] == logs[j] by {
            assert(prefix[j] == logs[j]);
        }
        match p.log_id_at(i) {
            Some(x) => {
                assert(held);
                if x != last.log_id {
                    assert(x.index == i);
                    let q = p.truncated(x);
                    assert(q.logs == p.logs.take(i));
                    assert(t.logs == q.logs.push(last));
                    assert forall|k: int| 0 <= k < t.logs.len() implies #[trigger] t.logs[k].log_id.index == k by {
                        if k < i {
                            assert(t.logs[k] == p.logs[k]);
                        }
                    }
                    assert(t.logs.take(start) =~= p.logs.take(start));
                    assert forall|j: int| 0 <= j < n implies #[trigger] t.log_id_at(start + j) == Some(logs[j].log_id) by {
                        if j < n - 1 {
                            assert(t.logs[start + j] == p.logs[start + j]);
                        }
                    }
                    assert forall|j: int| 0 <= j < n && s.log_id_at(start + j) != Some(logs[j].log_id) implies
                        #[trigger] t.logs[start + j] == logs[j] by {
                        if j < n - 1 {
                            assert(t.logs[start + j] == p.logs[start + j]);
                        }
                    }
                }
            },
            None => {
                assert(i == p.logs.len());
                assert(t.logs == p.logs.push(last));
                assert forall|k: int| 0 <= k < t.logs.len() implies #[trigger] t.logs[k].log_id.index == k by {
                    if k < i {
                        assert(t.logs[k] == p.logs[k]);
                    }
                }
                assert(t.logs.take(start) =~= p.logs.take(start));
                assert forall|j: int| 0 <= j < n implies #[trigger] t.log_id_at(start + j) == Some(logs[j].log_id) by {
                    if j < n - 1 {
                        assert(p.log_id_at(start + j) == Some(logs[j].log_id));
                        assert(t.logs[start + j] == p.logs[start + j]);
                    } else {
                        assert(t.logs[i] == last);
                    }
                }
                assert forall|j: int| 0 <= j < n && s.log_id_at(start + j) != Some(logs[j].log_id) implies
                    #[trigger] t.logs[start + j] == logs[j] by {
                    if j < n - 1 {
                        assert(t.logs[start + j] == p.logs[start + j]);
                    }
                }
            },
        }
    }
}

/// Receiving the same entries with consecutive indexes twice leaves the store
/// as receiving them once does, for a log that reaches the first of them and
/// whose every entry sits at its index.
pub proof fn lemma_append_idempotent<R>(s: StoreView<R>, logs: Seq<LogView>, start: int)
    requires
        s.indexed(),
        consecutive_from(logs, start),
        0 <= start <= s.logs.len(),
    ensures
        s.append_all(logs).append_all(logs) == s.append_all(logs),
{
    lemma_append_indexed(s, logs, start);
    let t = s.append_all(logs);
    assert forall|j: int| 0 <= j < logs.len() implies #[trigger] t.log_id_at(logs[j].log_id.index as int)
        == Some(logs[j].log_id) by {
        assert(logs[j].log_id.index == start + j);
        assert(t.log_id_at(start + j) == Some(logs[j].log_id));
    }
    lemma_append_present(t, logs);
}

/// In a well-formed store the config recorded under an index past the first
/// is exactly the config carried by the entry there. After receiving entries
/// with consecutive indexes that continue the log, the store is well formed,
/// so an entry that was not already held is stored with its own config, and
/// that config is recorded under its index.
pub proof fn lemma_append_records_configs<R>(s: StoreView<R>, logs: Seq<LogView>, start: int)
    requires
        s.wf(),
        1 <= start <= s.logs.len(),
        consecutive_from(logs, start),
        configs_finite(logs),
    ensures
        forall|k: u64| 1 <= k < s.logs.len() ==> #[trigger] s.configs.get(k) == s.logs[k as int].config,
        forall|k: u64| 1 <= k < s.append_all(logs).logs.len() ==> #[trigger] s.append_all(logs).configs.get(k)
            == s.append_all(logs).logs[k as int].config,
        forall|j: int| 0 <= j < logs.len() && s.log_id_at(start + j) != Some(logs[j].log_id)
            ==> #[trigger] s.append_all(logs).configs.get((start + j) as u64) == logs[j].config,
{
    lemma_append_consecutive(s, logs, start);
    lemma_append_indexed(s, logs, start);
    let t = s.append_all(logs);
    assert forall|k: u64| 1 <= k < s.logs.len() implies #[trigger] s.configs.get(k) == s.logs[k as int].config by {
        if s.logs[k as int].config is Some {
            assert(s.configs.contains_key(k));
        }
    }
    assert forall|k: u64| 1 <= k < t.logs.len() implies #[trigger] t.configs.get(k) == t.logs[k as int].config by {
        if t.logs[k as int].config is Some {
            assert(t.configs.contains_key(k));
        }
    }
    assert forall|j: int| 0 <= j < logs.len() && s.log_id_at(start + j) != Some(logs[j].log_id) implies
        #[trigger] t.configs.get((start + j) as u64) == logs[j].config by {
        assert(t.logs[start + j] == logs[j]);
        assert(t.log_id_at(start + j) is Some);
        let k = (start + j) as u64;
        assert(t.configs.get(k) == t.logs[k as int].config);
    }
}

/// Committing up to an index not above the commit index changes nothing.
pub proof fn lemma_commit_at_or_below<R>(s: RaftView<R>, i: u64)
    requires
        i <= s.commit,
    ensures
        s.commit_upto(i) == s,
{
}

/// Positions of the requests to `target` that `t` queued after everything `s`
/// had queued.
pub open spec fn new_requests_to<R>(s: RaftView<R>, t: RaftView<R>, target: u64) -> Set<int> {
    Set::new(
        |j: int|
            s.net.outbox.len() <= j < t.net.outbox.len() && t.net.outbox[j].target == target
                && t.net.outbox[j].msg is Request,
    )
}

/// The ready flag a leader keeps for a node is the token of the one request in
/// flight to it. When the leader gets that node's reply to its current vote
/// while the flag is down, it keeps leading, leaves what it queued before
/// untouched, queues at most one new request to the node, and the flag is up
/// again exactly when it queued none.
pub proof fn lemma_ready_token<R>(s: RaftView<R>, target: u64, reply: Reply)
    requires
        s.leader_wf(),
        s.leading is Some,
        s.leading->0.progresses.contains_key(target),
        reply.vote.term == s.sto.vote.term,
        reply.vote.voted_for == s.sto.vote.voted_for,
        s.progress(target).ready is None,
    ensures
        s.handle_replicate_reply(target, reply).leading is Some,
        s.handle_replicate_reply(target, reply).leading->0.progresses.contains_key(target),
        s.handle_replicate_reply(target, reply).net.outbox.take(s.net.outbox.len() as int) == s.net.outbox,
        s.handle_replicate_reply(target, reply).progress(target).ready is None <==> exists|j: int|
            #[trigger] new_requests_to(s, s.handle_replicate_reply(target, reply), target).contains(j),
        forall|j: int, k: int|
            #[trigger] new_requests_to(s, s.handle_replicate_reply(target, reply), target).contains(j)
                && #[trigger] new_requests_to(s, s.handle_replicate_reply(target, reply), target).contains(k)
                ==> j == k,
{
    let l = s.leading->0;
    let n0 = s.net.outbox.len() as int;
    let l1 = LeadingView {
        progresses: l.progresses.insert(target, Progress { ready: Some(()), ..l.progresses[target] }),
        ..l
    };
    let s1 = RaftView { leading: Some(l1), ..s };
    let t = s.handle_replicate_reply(target, reply);
    let reqs = new_requests_to(s, t, target);
    assert(s.sto.vote.voted_for == LeaderId(s.id));
    if reply.granted {
        let g = s1.granted_by(target);
        assert(t == g.replicated(target, reply.log));
        assert(g.leading is Some);
        assert(g.leading->0.progresses == l1.progresses);
        assert(g.net.outbox.take(n0) =~= s.net.outbox);
        assert(g.net.outbox.len() <= n0 + 1);
        assert(forall|j: int| n0 <= j < g.net.outbox.len() ==> !(#[trigger] g.net.outbox[j].msg is Request));
        let gl = g.leading->0;
        let p2 = RaftView::<R>::next_progress(gl.progresses[target], reply.log);
        let l2 = LeadingView { progresses: gl.progresses.insert(target, p2), ..gl };
        let s2 = RaftView { leading: Some(l2), ..g };
        let s3 = match max_committed(l2.progresses, l2.log_index_range.0, s2.sto.config()) {
            Some(a) => s2.commit_upto(a.index),
            None => s2,
        };
        assert(s3.net.outbox == g.net.outbox);
        assert(s3.leading == Some(l2));
        let len = l2.log_index_range.1;
        if len - 1 > p2.acked.index {
            let m = (len - 1 - p2.acked.index) as u64;
            assert(t == s3.send_if_idle(target, m));
            assert(p2.ready is Some);
            let last = t.net.outbox.len() - 1;
            assert(t.net.outbox == g.net.outbox.push(t.net.outbox[last]));
            assert(t.net.outbox[last].target == target && t.net.outbox[last].msg is Request);
            assert(t.net.outbox.take(n0) =~= g.net.outbox.take(n0));
            assert(t.progress(target).ready is None);
            assert(reqs.contains(last));
            assert forall|j: int| #[trigger] reqs.contains(j) implies j == last by {
                if j < last {
                    assert(t.net.outbox[j] == g.net.outbox[j]);
                }
            }
        } else {
            assert(t == s3);
            assert(t.progress(target).ready is Some);
            assert forall|j: int| !(#[trigger] reqs.contains(j)) by {
                if n0 <= j < t.net.outbox.len() {
                    assert(!(g.net.outbox[j].msg is Request));
                }
            }
        }
    } else {
        assert(t == s1.check_vote(reply.vote));
        assert(t.net.outbox == s.net.outbox);
        assert(t.leading is Some);
        assert(t.progress(target).ready is Some);
        assert(s.net.outbox.take(n0) =~= s.net.outbox);
        assert forall|j: int| !(#[trigger] reqs.contains(j)) by {}
    }
}

/// Every request a well-formed leader builds from its log for a progress
/// within the log carries its current vote, and its log holds the request's
/// previous entry and entries.
pub proof fn lemma_request_held<R>(s: RaftView<R>, p: Progress, n: u64)
    requires
        s.leader_wf(),
        progress_within(p, s.sto.logs.len() as int),
    ensures
        s.request_for(p, n).vote == s.sto.vote,
        s.sto.log_id_at(s.request_for(p, n).prev.index as int) == Some(s.request_for(p, n).prev),
        s.sto.holds_all(s.request_for(p, n).logs),
{
    let r = s.request_for(p, n);
    let mid = (p.acked.index + p.len) / 2;
    assert(mid < s.sto.logs.len());
    assert(r.prev.index == mid);
    assert forall|j: int| 0 <= j < r.logs.len() implies #[trigger] s.sto.log_id_at(r.logs[j].log_id.index as int)
        == Some(r.logs[j].log_id) by {
        assert(r.logs[j] == s.sto.logs[mid + 1 + j]);
    }
}

/// A leader handling a request of its own current vote whose previous entry
/// and entries its log holds (as every request it builds from its log does)
/// keeps leading as before with the same log, vote and outbox, only its commit
/// index may rise, and it keeps the invariant of leaders.
pub proof fn lemma_own_request<R>(s: RaftView<R>, req: RequestView)
    requires
        s.leader_wf(),
        req.vote == s.sto.vote,
        s.sto.log_id_at(req.prev.index as int) == Some(req.prev),
        s.sto.holds_all(req.logs),
    ensures
        s.handle_replicate_req(req).0.leader_wf(),
        s.handle_replicate_req(req).0.leading == s.leading,
        s.handle_replicate_req(req).0.sto.logs == s.sto.logs,
        s.handle_replicate_req(req).0.sto.vote == s.sto.vote,
        s.handle_replicate_req(req).0.net.outbox == s.net.outbox,
        s.handle_replicate_req(req).0.commit >= s.commit,
{
    let s1 = s.check_vote(req.vote);
    assert(s1 == s);
    let req_last = if req.logs.len() > 0 { req.logs.last().log_id } else { req.prev };
    if log_id_ge(req.last_log_id, s.sto.last()) {
        lemma_append_present(s.sto, req.logs);
        let s2 = RaftView { sto: s.sto.append_all(req.logs), ..s };
        assert(s2 == s);
        let upto = if req.commit < req_last.index { req.commit } else { req_last.index };
        lemma_commit_wf(s, upto);
    }
}

/// A node grants a request only when the sender's last log id is at least its
/// own last log id in the `(term, index)` order, and answers with the vote the
/// request carries; a request whose vote the node holds after seeing it and
/// whose last log id is at least the node's is granted.
pub proof fn lemma_grant_needs_up_to_date_log<R>(s: RaftView<R>, req: RequestView)
    ensures
        s.handle_replicate_req(req).1.granted ==> req.last_log_id.term > s.sto.last().term
            || (req.last_log_id.term == s.sto.last().term && req.last_log_id.index >= s.sto.last().index),
        s.handle_replicate_req(req).1.granted ==> s.handle_replicate_req(req).1.vote == req.vote,
        s.check_vote(req.vote).sto.vote == req.vote && (req.last_log_id.term > s.sto.last().term
            || (req.last_log_id.term == s.sto.last().term && req.last_log_id.index >= s.sto.last().index))
            ==> s.handle_replicate_req(req).1.granted,
{
}

/// A node that starts an election leads from the index right after its last
/// entry: its first entry of the new term and its next index are both that
/// index, it votes for itself, uncommitted, in the next term, and its commit
/// index is untouched.
pub proof fn lemma_elect_starts_after_last_entry<R>(s: RaftView<R>)
    requires
        s.sto.last().index < u64::MAX,
        s.sto.vote.term < u64::MAX,
    ensures
        s.elect().leading is Some,
        s.elect().leading->0.log_index_range.0 == s.sto.last().index + 1,
        s.elect().leading->0.log_index_range.1 == s.sto.last().index + 1,
        s.elect().sto.vote.term == s.sto.vote.term + 1,
        s.elect().sto.vote.committed is None,
        s.elect().sto.vote.voted_for == LeaderId(s.id),
        s.elect().commit == s.commit,
{
    let members = crate::quorum::all_members(s.sto.config());
    let first = (s.sto.last().index + 1) as u64;
    let started = RaftView {
        sto: crate::store::StoreView {
            vote: Vote { term: (s.sto.vote.term + 1) as u64, committed: None, voted_for: LeaderId(s.id) },
            ..s.sto
        },
        leading: Some(LeadingView {
            granted_by: Set::empty(),
            progresses: Map::new(
                |id: u64| members.contains(id),
                |id: u64| Progress { acked: zero_log_id(), len: first, ready: Some(()) },
            ),
            log_index_range: (first, first) }),
        ..s
    };
    assert(s.elect() == started.send_to_all(crate::quorum::sorted_ids(members), 0));
    lemma_sending_keeps(started, crate::quorum::sorted_ids(members), 0);
}

/// When a leader sends to an idle node, it queues exactly one message, a
/// request to that node carrying the leader's current vote, last log id and
/// commit index, and marks the node busy.
pub proof fn lemma_request_carries_leader_state<R>(s: RaftView<R>, target: u64, n: u64)
    requires
        s.leading is Some,
        s.leading->0.progresses.contains_key(target),
        s.progress(target).ready is Some,
    ensures
        s.send_if_idle(target, n).net.outbox.len() == s.net.outbox.len() + 1,
        s.send_if_idle(target, n).net.outbox.take(s.net.outbox.len() as int) == s.net.outbox,
        s.send_if_idle(target, n).net.outbox.last().from == s.id,
        s.send_if_idle(target, n).net.outbox.last().target == target,
        s.send_if_idle(target, n).net.outbox.last().msg matches crate::raft::MessageView::Request(r) && r.commit
            == s.commit && r.vote == s.sto.vote && r.last_log_id == s.sto.last(),
        s.send_if_idle(target, n).progress(target).ready is None,
        s.send_if_idle(target, n).commit == s.commit,
{
    let t = s.send_if_idle(target, n);
    assert(t.net.outbox.take(s.net.outbox.len() as int) =~= s.net.outbox);
}

/// Sending never makes a busy node idle.
proof fn lemma_sending_keeps_busy<R>(s: RaftView<R>, ids: Seq<u64>, n: u64)
    requires
        s.leading is Some,
        forall|j: int| 0 <= j < ids.len() ==> s.leading->0.progresses.contains_key(#[trigger] ids[j]),
    ensures
        forall|id: u64| #[trigger] s.leading->0.progresses.contains_key(id) && s.leading->0.progresses[id].ready is None
            ==> s.send_to_all(ids, n).leading->0.progresses[id].ready is None,
    decreases ids.len(),
{
    if ids.len() > 0 {
        let prefix = ids.drop_last();
        assert forall|j: int| 0 <= j < prefix.len() implies s.leading->0.progresses.contains_key(#[trigger] prefix[j]) by {
            assert(prefix[j] == ids[j]);
        }
        lemma_sending_keeps_busy(s, prefix, n);
        lemma_sending_keeps(s, prefix, n);
        crate::raft::lemma_sending_keeps_progress(s, prefix, n);
    }
}

/// A write keeps the replication state of every node other than the leader
/// that it keeps tracking: a node that stays in a new membership, or any
/// tracked node when no membership changes, keeps what it acknowledged and its
/// bound, and a node with a request in flight stays busy. A node the new
/// membership adds starts knowing nothing, and no other node is tracked.
pub proof fn lemma_write_keeps_replication_state<R>(s: RaftView<R>, tx: R, log: LogView)
    requires
        s.leader_wf(),
        s.sto.vote.committed is Some,
        s.leading is Some,
        s.leading->0.log_index_range.1 < max_log_len(),
        log.config is Some ==> crate::quorum::groups_finite(log.config->0),
    ensures
        forall|id: u64|
            id != s.id && #[trigger] s.leading->0.progresses.contains_key(id) && (log.config is Some
                ==> crate::quorum::all_members(log.config->0).contains(id)) ==> {
                &&& s.write(tx, log).0.leading->0.progresses.contains_key(id)
                &&& s.write(tx, log).0.leading->0.progresses[id].acked == s.leading->0.progresses[id].acked
                &&& s.write(tx, log).0.leading->0.progresses[id].len == s.leading->0.progresses[id].len
                &&& s.leading->0.progresses[id].ready is None ==> s.write(tx, log).0.leading->0.progresses[id].ready
                    is None
            },
        log.config is Some ==> forall|id: u64|
            id != s.id && #[trigger] crate::quorum::all_members(log.config->0).contains(id)
                && !s.leading->0.progresses.contains_key(id) ==> {
                &&& s.write(tx, log).0.leading->0.progresses.contains_key(id)
                &&& s.write(tx, log).0.leading->0.progresses[id].acked == zero_log_id()
                &&& s.write(tx, log).0.leading->0.progresses[id].len == 0
            },
        forall|id: u64| #[trigger] s.write(tx, log).0.leading->0.progresses.contains_key(id) ==> id == s.id || (
            if log.config is Some {
                crate::quorum::all_members(log.config->0).contains(id)
            } else {
                s.leading->0.progresses.contains_key(id)
            }),
{
    crate::raft::lemma_write_proposed(s, tx, log);
    let p = s.write_proposed(tx, log);
    let members = crate::quorum::all_members(p.sto.config());
    let ids = crate::quorum::sorted_ids(members);
    crate::store::lemma_config_recorded(p.sto);
    crate::quorum::lemma_members_finite(p.sto.config());
    crate::quorum::lemma_sorted_ids_exists(members);
    assert forall|j: int| 0 <= j < ids.len() implies p.leading->0.progresses.contains_key(#[trigger] ids[j]) by {
        assert(ids.to_set().contains(ids[j]));
    }
    lemma_sending_keeps(p, ids, 10);
    crate::raft::lemma_sending_keeps_progress(p, ids, 10);
    lemma_sending_keeps_busy(p, ids, 10);
    let t = s.write(tx, log).0;
    assert(t == p.send_to_all(ids, 10));
    let old = s.leading->0.progresses;
    let pp = p.leading->0.progresses;
    assert forall|id: u64|
        id != s.id && #[trigger] old.contains_key(id) && (log.config is Some
            ==> crate::quorum::all_members(log.config->0).contains(id)) implies pp.contains_key(id) && pp[id] == old[id] by {
    }
    assert forall|id: u64| #[trigger] pp.contains_key(id) implies id == s.id || (
        if log.config is Some {
            crate::quorum::all_members(log.config->0).contains(id)
        } else {
            old.contains_key(id)
        }) by {
    }
}

/// Two progress maps that track the same nodes with the same acknowledged
/// entries have the same commit candidates.
proof fn lemma_candidates_by_acked(p: Map<u64, Progress>, q: Map<u64, Progress>, first: u64, config: Seq<Set<u64>>)
    requires
        p.dom() == q.dom(),
        forall|id: u64| #[trigger] p.contains_key(id) ==> p[id].acked == q[id].acked,
    ensures
        forall|a: LogId| #[trigger] commit_candidate(p, first, config, a) == commit_candidate(q, first, config, a),
{
    assert forall|a: LogId| #[trigger] commit_candidate(p, first, config, a) == commit_candidate(q, first, config, a) by {
        assert(acked_at_least(p, a) =~= acked_at_least(q, a));
        if crate::commit::is_acked(p, a) {
            let id = choose|id: u64| #[trigger] p.contains_key(id) && p[id].acked == a;
            assert(q.contains_key(id) && q[id].acked == a);
        }
        if crate::commit::is_acked(q, a) {
            let id = choose|id: u64| #[trigger] q.contains_key(id) && q[id].acked == a;
            assert(p.contains_key(id) && p[id].acked == a);
        }
    }
}

/// After a granted reply to its current vote, a leader's commit index reaches
/// the greatest entry it may commit: the greatest entry some node
/// acknowledged, not before the leader's first entry of its term, that a
/// quorum of the membership in effect holds.
pub proof fn lemma_commit_reaches_greatest_candidate<R>(s: RaftView<R>, target: u64, reply: Reply)
    requires
        s.leading is Some,
        s.leading->0.progresses.contains_key(target),
        reply.granted,
        reply.vote.term == s.sto.vote.term,
        reply.vote.voted_for == s.sto.vote.voted_for,
    ensures
        s.handle_replicate_reply(target, reply).leading is Some,
        forall|a: LogId| #[trigger] crate::commit::greatest_candidate(
            s.handle_replicate_reply(target, reply).leading->0.progresses,
            s.handle_replicate_reply(target, reply).leading->0.log_index_range.0,
            s.handle_replicate_reply(target, reply).sto.config(),
            a,
        ) ==> s.handle_replicate_reply(target, reply).commit >= a.index,
{
    let l = s.leading->0;
    let l1 = LeadingView {
        progresses: l.progresses.insert(target, Progress { ready: Some(()), ..l.progresses[target] }),
        ..l
    };
    let s1 = RaftView { leading: Some(l1), ..s };
    let g = s1.granted_by(target);
    let t = s.handle_replicate_reply(target, reply);
    assert(t == g.replicated(target, reply.log));
    assert(g.leading->0.progresses.contains_key(target));
    lemma_replicated_reaches_greatest(g, target, reply.log);
}

/// The commit step of a leader handling an acknowledgement reaches the
/// greatest entry it may commit.
#[verifier::rlimit(60)]
proof fn lemma_replicated_reaches_greatest<R>(g: RaftView<R>, target: u64, log: Result<LogId, u64>)
    requires
        g.leading is Some,
        g.leading->0.progresses.contains_key(target),
    ensures
        g.replicated(target, log).leading is Some,
        forall|a: LogId| #[trigger] crate::commit::greatest_candidate(
            g.replicated(target, log).leading->0.progresses,
            g.replicated(target, log).leading->0.log_index_range.0,
            g.replicated(target, log).sto.config(),
            a,
        ) ==> g.replicated(target, log).commit >= a.index,
{
    let lg = g.leading->0;
    let p2 = RaftView::<R>::next_progress(lg.progresses[target], log);
    let l2 = LeadingView { progresses: lg.progresses.insert(target, p2), ..lg };
    let s2 = RaftView { leading: Some(l2), ..g };
    let first = l2.log_index_range.0;
    let config = s2.sto.config();
    let chosen = max_committed(l2.progresses, first, config);
    let s3 = if chosen is Some { s2.commit_upto(chosen->0.index) } else { s2 };
    let len = l2.log_index_range.1;
    let n = (len - 1 - p2.acked.index) as u64;
    let t = g.replicated(target, log);
    assert(s3.leading == Some(l2));
    assert(s3.sto.configs == g.sto.configs);
    assert(s3.commit >= s2.commit);
    assert(l2.progresses.contains_key(target));
    lemma_sending_keeps(s3, seq![target], n);
    crate::raft::lemma_sending_keeps_progress(s3, seq![target], n);
    assert(seq![target].drop_last() =~= Seq::<u64>::empty());
    assert(s3.send_to_all(seq![target], n) == s3.send_to_all(Seq::<u64>::empty(), n).send_if_idle(target, n));
    assert(t == if len - 1 > p2.acked.index { s3.send_to_all(seq![target], n) } else { s3 });
    let tp = t.leading->0.progresses;
    assert(t.sto.configs == g.sto.configs);
    assert(t.sto.config() == config);
    assert(t.leading->0.log_index_range.0 == first);
    lemma_candidates_by_acked(tp, l2.progresses, first, config);
    assert forall|a: LogId| #[trigger] crate::commit::greatest_candidate(tp, first, config, a) implies t.commit
        >= a.index by {
        assert(commit_candidate(l2.progresses, first, config, a));
        assert forall|b: LogId| commit_candidate(l2.progresses, first, config, b) implies log_id_ge(a, b) by {
            assert(commit_candidate(tp, first, config, b));
        }
        crate::commit::lemma_max_committed_is(l2.progresses, first, config, a);
        assert(chosen == Some(a));
    }
}

/// The request a well-formed leader sends to an idle node starts inside the
/// range where that node's log may stop matching, at an entry the leader's log
/// holds, and carries the leader's entries that follow it, as many as the log
/// has up to the asked number.
pub proof fn lemma_request_follows_its_prev<R>(s: RaftView<R>, target: u64, n: u64)
    requires
        s.leader_wf(),
        s.leading is Some,
        s.leading->0.progresses.contains_key(target),
        s.progress(target).ready is Some,
    ensures
        s.send_if_idle(target, n).net.outbox.last().msg matches crate::raft::MessageView::Request(r) && {
            &&& s.progress(target).acked.index < s.progress(target).len ==> s.progress(target).acked.index
                <= r.prev.index < s.progress(target).len
            &&& s.sto.log_id_at(r.prev.index as int) == Some(r.prev)
            &&& r.logs.len() == if n <= s.sto.logs.len() - r.prev.index - 1 {
                n as int
            } else {
                s.sto.logs.len() - r.prev.index - 1
            }
            &&& forall|j: int| 0 <= j < r.logs.len() ==> #[trigger] r.logs[j] == s.sto.logs[r.prev.index + 1 + j]
        },
{
    let p = s.progress(target);
    assert(progress_within(p, s.sto.logs.len() as int));
    let mid = (p.acked.index + p.len) / 2;
    assert(s.sto.logs[mid as int].log_id.index == mid);
}

} // verus!
