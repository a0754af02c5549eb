//! The three ordered identifiers of the protocol: `LeaderId`, `Vote` and `LogId`.
//!
//! `LeaderId`s are only comparable when equal; `Vote`s compare by term, then by
//! whether a quorum granted them, then by leader; `LogId`s compare by term, then
//! by index.

use vstd::prelude::*;
use vstd::std_specs::cmp::{PartialEqSpecImpl, PartialOrdSpecImpl};
use core::cmp::Ordering;

verus! {

/// The node that won, or is trying to win, an election.
#[derive(Debug, Clone, Copy, PartialEq, Eq, Hash, Structural)]
pub struct LeaderId(pub u64);

/// The pseudo time of the cluster: term, whether it was granted by a quorum,
/// and the leader it was cast for.
#[derive(Debug, Clone, Copy, Eq, Hash)]
pub struct Vote {
    pub term: u64,
    pub committed: Option<()>,
    pub voted_for: LeaderId,
}

/// The identity of a log entry: the term of the leader that proposed it and its
/// position in the log.
#[derive(Debug, Clone, Copy, PartialEq, Eq, Ord, Hash, Structural)]
pub struct LogId {
    pub term: u64,
    pub index: u64,
}

impl Default for LeaderId {
    fn default() -> (r: Self)
        ensures
            r == LeaderId(0),
    {
        LeaderId(0)
    }
}

impl Default for Vote {
    fn default() -> (r: Self)
        ensures
            r == zero_vote(),
    {
        Vote { term: 0, committed: None, voted_for: LeaderId(0) }
    }
}

impl Default for LogId {
    fn default() -> (r: Self)
        ensures
            r == zero_log_id(),
    {
        LogId { term: 0, index: 0 }
    }
}

impl Vote {
    /// A vote for `voted_for` in `term`, granted by a quorum when `committed`
    /// is `Some`.
    pub fn new(term: u64, committed: Option<()>, voted_for: LeaderId) -> (r: Vote)
        ensures
            r == (Vote { term, committed, voted_for }),
    {
        Vote { term, committed, voted_for }
    }
}

/// The vote every node starts with.
pub open spec fn zero_vote() -> Vote {
    Vote { term: 0, committed: None, voted_for: LeaderId(0) }
}

/// The id of the first, empty, entry of every log.
pub open spec fn zero_log_id() -> LogId {
    LogId { term: 0, index: 0 }
}

/// `a` strictly follows `b` in the partial order of leaders: never, since two
/// leaders are either the same or incomparable.
pub open spec fn leader_partial_cmp(a: LeaderId, b: LeaderId) -> Option<Ordering> {
    if a.0 == b.0 { Some(Ordering::Equal) } else { None }
}

/// The order of `Option<()>`: `None` before `Some(())`.
pub open spec fn committed_cmp(a: Option<()>, b: Option<()>) -> Ordering {
    match (a, b) {
        (None, Some(_)) => Ordering::Less,
        (Some(_), None) => Ordering::Greater,
        _ => Ordering::Equal,
    }
}

/// Lexicographic partial order of votes over `(term, committed, voted_for)`.
pub open spec fn vote_partial_cmp(a: Vote, b: Vote) -> Option<Ordering> {
    if a.term < b.term {
        Some(Ordering::Less)
    } else if a.term > b.term {
        Some(Ordering::Greater)
    } else {
        match committed_cmp(a.committed, b.committed) {
            Ordering::Equal => leader_partial_cmp(a.voted_for, b.voted_for),
            o => Some(o),
        }
    }
}

/// Lexicographic total order of log ids over `(term, index)`.
pub open spec fn log_id_partial_cmp(a: LogId, b: LogId) -> Option<Ordering> {
    if a.term < b.term {
        Some(Ordering::Less)
    } else if a.term > b.term {
        Some(Ordering::Greater)
    } else if a.index < b.index {
        Some(Ordering::Less)
    } else if a.index > b.index {
        Some(Ordering::Greater)
    } else {
        Some(Ordering::Equal)
    }
}

impl PartialOrd for LeaderId {
    fn partial_cmp(&self, b: &Self) -> (r: Option<Ordering>) {
        if self.0 == b.0 {
            Some(Ordering::Equal)
        } else {
            None
        }
    }
}

impl PartialOrdSpecImpl for LeaderId {
    open spec fn obeys_partial_cmp_spec() -> bool {
        true
    }

    open spec fn partial_cmp_spec(&self, other: &Self) -> Option<Ordering> {
        leader_partial_cmp(*self, *other)
    }
}

impl PartialEq for Vote {
    fn eq(&self, other: &Self) -> (r: bool) {
        let same_committed = match (self.committed, other.committed) {
            (None, None) => true,
            (Some(a), Some(b)) => {
                assert(a == b);
                true
            },
            _ => false,
        };
        self.term == other.term && same_committed && self.voted_for == other.voted_for
    }
}

impl PartialEqSpecImpl for Vote {
    open spec fn obeys_eq_spec() -> bool {
        true
    }

    open spec fn eq_spec(&self, other: &Self) -> bool {
        *self == *other
    }
}

impl PartialOrd for Vote {
    fn partial_cmp(&self, b: &Self) -> (r: Option<Ordering>) {
        if self.term < b.term {
            Some(Ordering::Less)
        } else if self.term > b.term {
            Some(Ordering::Greater)
        } else {
            match (self.committed, b.committed) {
                (None, Some(_)) => Some(Ordering::Less),
                (Some(_), None) => Some(Ordering::Greater),
                _ => self.voted_for.partial_cmp(&b.voted_for),
            }
        }
    }
}

impl PartialOrdSpecImpl for Vote {
    open spec fn obeys_partial_cmp_spec() -> bool {
        true
    }

    open spec fn partial_cmp_spec(&self, other: &Self) -> Option<Ordering> {
        vote_partial_cmp(*self, *other)
    }
}

impl PartialOrd for LogId {
    fn partial_cmp(&self, b: &Self) -> (r: Option<Ordering>) {
        if self.term < b.term {
            Some(Ordering::Less)
        } else if self.term > b.term {
            Some(Ordering::Greater)
        } else if self.index < b.index {
            Some(Ordering::Less)
        } else if self.index > b.index {
            Some(Ordering::Greater)
        } else {
            Some(Ordering::Equal)
        }
    }
}

impl PartialOrdSpecImpl for LogId {
    open spec fn obeys_partial_cmp_spec() -> bool {
        true
    }

    open spec fn partial_cmp_spec(&self, other: &Self) -> Option<Ordering> {
        log_id_partial_cmp(*self, *other)
    }
}

/// `a > b` in the vote order.
pub open spec fn vote_gt(a: Vote, b: Vote) -> bool {
    vote_partial_cmp(a, b) == Some(Ordering::Greater)
}

/// `a >= b` in the log id order.
pub open spec fn log_id_ge(a: LogId, b: LogId) -> bool {
    a.term > b.term || (a.term == b.term && a.index >= b.index)
}

/// Two leaders are comparable only when they are the same leader, and then they
/// are equal.
pub proof fn lemma_leader_ids_incomparable(a: LeaderId, b: LeaderId)
    ensures
        leader_partial_cmp(a, b) is Some <==> a == b,
        a == b ==> leader_partial_cmp(a, b) == Some(Ordering::Equal),
{
}

/// The vote order is a strict partial order whose equal elements are exactly
/// the equal votes: no vote is above itself, being above is transitive and
/// never mutual, and `a < b` is the same as `b > a`.
pub proof fn lemma_vote_order(a: Vote, b: Vote, c: Vote)
    ensures
        vote_partial_cmp(a, b) == Some(Ordering::Equal) <==> a == b,
        !vote_gt(a, a),
        vote_gt(a, b) ==> !vote_gt(b, a),
        vote_gt(a, b) && vote_gt(b, c) ==> vote_gt(a, c),
        vote_gt(a, b) <==> vote_partial_cmp(b, a) == Some(Ordering::Less),
{
    if vote_partial_cmp(a, b) == Some(Ordering::Equal) {
        match (a.committed, b.committed) {
            (Some(x), Some(y)) => {
                assert(x == y);
            },
            _ => {},
        }
    }
}

/// A vote of a higher term is above every vote of a lower term; within a term a
/// vote granted by a quorum is above one that is not; two different leaders of
/// one term and one grant state are incomparable.
pub proof fn lemma_vote_order_cases(a: Vote, b: Vote)
    ensures
        a.term > b.term ==> vote_gt(a, b),
        a.term == b.term && a.committed is Some && b.committed is None ==> vote_gt(a, b),
        a.term == b.term && a.committed is Some == b.committed is Some && a.voted_for != b.voted_for
            ==> vote_partial_cmp(a, b) is None,
{
}

/// The log id order is total and agrees with the lexicographic order of
/// `(term, index)`.
pub proof fn lemma_log_id_order(a: LogId, b: LogId)
    ensures
        log_id_partial_cmp(a, b) is Some,
        log_id_partial_cmp(a, b) == Some(Ordering::Equal) <==> a == b,
        log_id_ge(a, b) <==> log_id_partial_cmp(a, b) != Some(Ordering::Less),
        log_id_ge(a, b) || log_id_ge(b, a),
{
}

} // verus!
