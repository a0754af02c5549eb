//! Which entry a leader may commit: the greatest entry that some node
//! acknowledged, that is not before the leader's first entry of its term, and
//! that a quorum of the membership in effect holds.

use vstd::prelude::*;
use std::collections::{BTreeMap, BTreeSet};
use itertools::Itertools;
use vstd::std_specs::iter::IteratorSpec;

use crate::ordering::{LogId, log_id_ge};
use crate::quorum::{config_view, is_quorum, quorum_granted};
use crate::raft::Progress;

verus! {

broadcast use vstd::std_specs::btree::group_btree_axioms;

/// `a` comes before or equals `b` in the lexicographic order of pairs.
pub open spec fn pair_le(a: (u64, u64), b: (u64, u64)) -> bool {
    a.0 < b.0 || (a.0 == b.0 && a.1 <= b.1)
}

/// `Itertools::sorted` of the `itertools` crate, applied to the elements of
/// `v` and collected back: the same elements, as a multiset, in ascending
/// lexicographic order (the order std defines for tuples).
#[verifier::external_body]
fn sorted_pairs(v: Vec<(u64, u64)>) -> (r: Vec<(u64, u64)>)
    ensures
        r@.to_multiset() == v@.to_multiset(),
        forall|i: int, j: int| 0 <= i < j < r.len() ==> pair_le(r[i], r[j]),
{
    v.into_iter().sorted().collect()
}

/// The `(term, index)` pair of a log id.
pub open spec fn log_id_pair(a: LogId) -> (u64, u64) {
    (a.term, a.index)
}

/// The log id of a `(term, index)` pair.
pub open spec fn pair_log_id(x: (u64, u64)) -> LogId {
    LogId { term: x.0, index: x.1 }
}

/// Some tracked node has acknowledged exactly `a`.
pub open spec fn is_acked(progresses: Map<u64, Progress>, a: LogId) -> bool {
    exists|id: u64| #[trigger] progresses.contains_key(id) && progresses[id].acked == a
}

/// The tracked nodes that acknowledged `a` or a later entry.
pub open spec fn acked_at_least(progresses: Map<u64, Progress>, a: LogId) -> Set<u64> {
    Set::new(|id: u64| progresses.contains_key(id) && log_id_ge(progresses[id].acked, a))
}

/// `a` may be committed: some node acknowledged it, it is not before the
/// leader's first entry, and the nodes that hold it form a quorum.
pub open spec fn commit_candidate(
    progresses: Map<u64, Progress>,
    noop_index: u64,
    config: Seq<Set<u64>>,
    a: LogId,
) -> bool {
    &&& is_acked(progresses, a)
    &&& a.index >= noop_index
    &&& quorum_granted(config, acked_at_least(progresses, a))
}

/// `a` may be committed and no entry that may be committed is above it.
pub open spec fn greatest_candidate(
    progresses: Map<u64, Progress>,
    noop_index: u64,
    config: Seq<Set<u64>>,
    a: LogId,
) -> bool {
    &&& commit_candidate(progresses, noop_index, config, a)
    &&& forall|b: LogId| commit_candidate(progresses, noop_index, config, b) ==> log_id_ge(a, b)
}

/// The greatest entry that may be committed, if there is one.
pub open spec fn max_committed(progresses: Map<u64, Progress>, noop_index: u64, config: Seq<Set<u64>>) -> Option<LogId> {
    if exists|a: LogId| greatest_candidate(progresses, noop_index, config, a) {
        Some(choose|a: LogId| greatest_candidate(progresses, noop_index, config, a))
    } else {
        None
    }
}

/// The ids of the tracked nodes that acknowledged `a` or a later entry.
fn ids_acked_at_least(progresses: &BTreeMap<u64, Progress>, a: LogId) -> (ids: BTreeSet<u64>)
    ensures
        ids@ == acked_at_least(progresses@, a),
{
    let mut ids: BTreeSet<u64> = BTreeSet::new();
    let ghost refs = progresses.iter().remaining();
    let ghost kv = refs.unref();
    proof {
        assert forall|k: u64| #[trigger] progresses@.contains_key(k) implies kv.contains((k, progresses@[k])) by {
            assert(refs.contains((&k, &progresses@[k])));
            let w = choose|w: int| 0 <= w < refs.len() && refs[w] == (&k, &progresses@[k]);
            assert(kv[w] == (k, progresses@[k]));
        }
    }
    for e in it: progresses.iter()
        invariant
            kv == it.seq().unref(),
            forall|k: u64| #[trigger] progresses@.contains_key(k) ==> kv.contains((k, progresses@[k])),
            forall|i: int| 0 <= i < kv.len() ==> progresses@.contains_key(#[trigger] kv[i].0) && progresses@[kv[i].0] == kv[i].1,
            forall|k: u64| #[trigger] ids@.contains(k) ==> acked_at_least(progresses@, a).contains(k),
            forall|i: int| 0 <= i < it.index() && log_id_ge(kv[i].1.acked, a) ==> ids@.contains(#[trigger] kv[i].0),
    {
        let (id, p) = e;
        let ghost i = it.index();
        assert(kv[i] == (*id, *p));
        if p.acked >= a {
            ids.insert(*id);
        }
        proof {
            assert forall|j: int| 0 <= j < i + 1 && log_id_ge(kv[j].1.acked, a) implies ids@.contains(#[trigger] kv[j].0) by {
                if j < i {
                }
            }
        }
    }
    proof {
        assert forall|k: u64| acked_at_least(progresses@, a).contains(k) implies ids@.contains(k) by {
            assert(kv.contains((k, progresses@[k])));
            let w = choose|w: int| 0 <= w < kv.len() && kv[w] == (k, progresses@[k]);
            assert(ids@.contains(kv[w].0));
        }
        assert(ids@ =~= acked_at_least(progresses@, a));
    }
    ids
}

/// The greatest entry that may be committed: the acknowledged ids are sorted
/// and walked from the greatest down until one is held by a quorum and is not
/// before the leader's first entry.
pub fn find_max_committed(
    progresses: &BTreeMap<u64, Progress>,
    noop_index: u64,
    config: &[BTreeSet<u64>],
) -> (r: Option<LogId>)
    ensures
        r == max_committed(progresses@, noop_index, config_view(config@)),
        r is None ==> forall|a: LogId| !commit_candidate(progresses@, noop_index, config_view(config@), a),
{
    let ghost pm = progresses@;
    let ghost cv = config_view(config@);
    let mut acked: Vec<(u64, u64)> = Vec::new();
    let ghost refs = progresses.iter().remaining();
    let ghost kv = refs.unref();
    proof {
        assert forall|k: u64| #[trigger] pm.contains_key(k) implies kv.contains((k, pm[k])) by {
            assert(refs.contains((&k, &pm[k])));
            let w = choose|w: int| 0 <= w < refs.len() && refs[w] == (&k, &pm[k]);
            assert(kv[w] == (k, pm[k]));
        }
    }
    for e in it: progresses.iter()
        invariant
            kv == it.seq().unref(),
            pm == progresses@,
            forall|i: int| 0 <= i < kv.len() ==> pm.contains_key(#[trigger] kv[i].0) && pm[kv[i].0] == kv[i].1,
            acked.len() == it.index(),
            forall|i: int| 0 <= i < it.index() ==> #[trigger] acked@[i] == log_id_pair(kv[i].1.acked),
    {
        let (_id, p) = e;
        assert(kv[it.index()].1 == *p);
        acked.push((p.acked.term, p.acked.index));
    }
    // every acknowledged id is among the collected pairs, and every collected
    // pair is an acknowledged id
    proof {
        assert forall|a: LogId| is_acked(pm, a) implies acked@.contains(log_id_pair(a)) by {
            let id = choose|id: u64| #[trigger] pm.contains_key(id) && pm[id].acked == a;
            let w = choose|w: int| 0 <= w < kv.len() && kv[w] == (id, pm[id]);
            assert(acked@[w] == log_id_pair(a));
        }
        assert forall|i: int| 0 <= i < acked.len() implies is_acked(pm, pair_log_id(#[trigger] acked@[i])) by {
            assert(pm.contains_key(kv[i].0));
        }
    }
    let ghost collected = acked@;
    let sorted = sorted_pairs(acked);
    proof {
        broadcast use vstd::seq_lib::group_to_multiset_ensures;
        assert forall|x: (u64, u64)| sorted@.contains(x) <==> collected.contains(x) by {
            assert(sorted@.to_multiset().count(x) == collected.to_multiset().count(x));
        }
    }
    let mut k = sorted.len();
    while k > 0
        invariant
            k <= sorted.len(),
            forall|x: (u64, u64)| #[trigger] sorted@.contains(x) <==> collected.contains(x),
            forall|i: int| 0 <= i < collected.len() ==> is_acked(pm, pair_log_id(#[trigger] collected[i])),
            forall|a: LogId| is_acked(pm, a) ==> collected.contains(log_id_pair(a)),
            forall|i: int, j: int| 0 <= i < j < sorted.len() ==> pair_le(sorted[i], sorted[j]),
            forall|j: int| k <= j < sorted.len() ==> !commit_candidate(pm, noop_index, cv,
                #[trigger] pair_log_id(sorted@[j])),
            pm == progresses@,
            cv == config_view(config@),
        decreases k,
    {
        k = k - 1;
        let a = LogId { term: sorted[k].0, index: sorted[k].1 };
        proof {
            assert(sorted@.contains(sorted@[k as int]));
            assert(collected.contains(sorted@[k as int]));
            let w = choose|w: int| 0 <= w < collected.len() && collected[w] == sorted@[k as int];
            assert(is_acked(pm, pair_log_id(collected[w])));
        }
        if a.index >= noop_index {
            let ge = ids_acked_at_least(progresses, a);
            if is_quorum(config, &ge) {
                proof {
                    assert(commit_candidate(pm, noop_index, cv, a));
                    assert forall|b: LogId| commit_candidate(pm, noop_index, cv, b) implies log_id_ge(a, b) by {
                        assert(collected.contains(log_id_pair(b)));
                        assert(sorted@.contains(log_id_pair(b)));
                        let j = choose|j: int| 0 <= j < sorted.len() && sorted@[j] == log_id_pair(b);
                        assert(pair_log_id(sorted@[j]) == b);
                        if j > k {
                            assert(!commit_candidate(pm, noop_index, cv, pair_log_id(sorted@[j])));
                        }
                        if j < k {
                            assert(pair_le(sorted[j], sorted[k as int]));
                        }
                    }
                    lemma_max_committed_is(pm, noop_index, cv, a);
                }
                return Some(a);
            }
        }
    }
    proof {
        assert forall|b: LogId| !commit_candidate(pm, noop_index, cv, b) by {
            if commit_candidate(pm, noop_index, cv, b) {
                assert(collected.contains(log_id_pair(b)));
                assert(sorted@.contains(log_id_pair(b)));
                let j = choose|j: int| 0 <= j < sorted.len() && sorted@[j] == log_id_pair(b);
                assert(pair_log_id(sorted@[j]) == b);
            }
        }
    }
    None
}

/// A candidate above every other candidate is what `max_committed` picks.
pub proof fn lemma_max_committed_is(
    progresses: Map<u64, Progress>,
    noop_index: u64,
    config: Seq<Set<u64>>,
    a: LogId,
)
    requires
        commit_candidate(progresses, noop_index, config, a),
        forall|b: LogId| commit_candidate(progresses, noop_index, config, b) ==> log_id_ge(a, b),
    ensures
        max_committed(progresses, noop_index, config) == Some(a),
{
    assert(greatest_candidate(progresses, noop_index, config, a));
    let m = choose|m: LogId| greatest_candidate(progresses, noop_index, config, m);
    assert(commit_candidate(progresses, noop_index, config, m));
    assert(log_id_ge(m, a));
    assert(log_id_ge(a, m));
}

} // verus!
