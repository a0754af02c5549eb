//! Log entries and the local store of a node: its vote, its log, the membership
//! configs found in the log, and the handles of writes waiting to be committed.

use vstd::prelude::*;
use std::collections::{BTreeMap, BTreeSet};
use vstd::std_specs::iter::IteratorSpec;

use crate::ordering::{LogId, Vote, zero_log_id, zero_vote};
use crate::quorum::{config_view, groups_finite, lemma_config_finite, lemma_increasing_keys, same_config};

verus! {

broadcast use vstd::std_specs::btree::group_btree_axioms;

/// A log entry: application data, a new membership config, or neither (a noop).
#[derive(Debug)]
pub struct Log {
    pub log_id: LogId,
    pub data: Option<String>,
    pub config: Option<Vec<BTreeSet<u64>>>,
}

/// What a log entry holds, as values.
pub struct LogView {
    pub log_id: LogId,
    pub data: Option<Seq<char>>,
    pub config: Option<Seq<Set<u64>>>,
}

/// The view of an optional membership config.
pub open spec fn opt_config_view(c: Option<Vec<BTreeSet<u64>>>) -> Option<Seq<Set<u64>>> {
    match c {
        Some(c) => Some(config_view(c@)),
        None => None,
    }
}

impl View for Log {
    type V = LogView;

    open spec fn view(&self) -> LogView {
        LogView {
            log_id: self.log_id,
            data: match self.data {
                Some(d) => Some(d@),
                None => None,
            },
            config: opt_config_view(self.config),
        }
    }
}

/// The views of a sequence of log entries.
pub open spec fn logs_view(logs: Seq<Log>) -> Seq<LogView> {
    logs.map_values(|l: Log| l@)
}

/// The noop entry that every log starts with.
pub open spec fn empty_log_view() -> LogView {
    LogView { log_id: zero_log_id(), data: None, config: None }
}

impl Log {
    /// An entry carrying `data` and/or `config`, with a default id to be set by
    /// the leader that proposes it.
    pub fn new(data: Option<String>, config: Option<Vec<BTreeSet<u64>>>) -> (r: Log)
        ensures
            r@ == (LogView {
                log_id: zero_log_id(),
                data: match data {
                    Some(d) => Some(d@),
                    None => None,
                },
                config: opt_config_view(config),
            }),
    {
        Log { log_id: LogId::default(), data, config }
    }
}

impl Default for Log {
    fn default() -> (r: Self)
        ensures
            r@ == empty_log_view(),
    {
        Log { log_id: LogId::default(), data: None, config: None }
    }
}

impl Clone for Log {
    fn clone(&self) -> (r: Self)
        ensures
            r@ == self@,
    {
        let data = match &self.data {
            Some(d) => Some(d.clone()),
            None => None,
        };
        let config = match &self.config {
            Some(c) => Some(clone_config(c)),
            None => None,
        };
        Log { log_id: self.log_id, data, config }
    }
}

/// A copy of a membership config.
pub fn clone_config(c: &Vec<BTreeSet<u64>>) -> (r: Vec<BTreeSet<u64>>)
    ensures
        config_view(r@) == config_view(c@),
{
    let mut r: Vec<BTreeSet<u64>> = Vec::new();
    for i in 0..c.len()
        invariant
            config_view(r@) == config_view(c@).take(i as int),
    {
        let g = c[i].clone();
        let ghost r0 = r@;
        assert(config_view(r0).len() == r0.len());
        assert(r0.len() == i);
        r.push(g);
        proof {
            assert(r@.len() == i + 1);
            assert forall|j: int| 0 <= j < i + 1 implies #[trigger] config_view(r@)[j] == config_view(c@).take(i + 1)[j] by {
                if j < i {
                    assert(r@[j] == r0[j]);
                    assert(config_view(r0)[j] == config_view(c@).take(i as int)[j]);
                }
            }
            assert(config_view(r@) =~= config_view(c@).take(i + 1));
        }
    }
    proof {
        assert(config_view(c@).take(c@.len() as int) =~= config_view(c@));
    }
    r
}

/// The keys below `idx`.
pub open spec fn below(idx: u64) -> Set<u64> {
    Set::new(|k: u64| k < idx)
}

/// The largest key of a finite non-empty set of keys.
pub open spec fn max_key(keys: Set<u64>) -> u64 {
    choose|k: u64| keys.contains(k) && forall|j: u64| #[trigger] keys.contains(j) ==> j <= k
}

/// Removes every entry of `m` whose key is `idx` or more.
fn retain_below<V>(m: &mut BTreeMap<u64, V>, idx: u64)
    ensures
        final(m)@ == old(m)@.restrict(below(idx)),
{
    let mut doomed: Vec<u64> = Vec::new();
    let ghost keys = m.keys().remaining().unref();
    for k in it: m.keys()
        invariant
            keys == it.seq().unref(),
            keys.to_set() == m@.dom(),
            forall|j: int| 0 <= j < doomed.len() ==> #[trigger] m@.contains_key(doomed[j]) && doomed[j] >= idx,
            forall|j: int| 0 <= j < it.index() && keys[j] >= idx ==> doomed@.contains(#[trigger] keys[j]),
    {
        let ghost i = it.index();
        let ghost d0 = doomed@;
        assert(keys[i] == *k);
        if *k >= idx {
            doomed.push(*k);
            assert(doomed@[doomed.len() - 1] == *k);
        }
        proof {
            assert forall|j: int| 0 <= j < i + 1 && keys[j] >= idx implies doomed@.contains(#[trigger] keys[j]) by {
                if j < i {
                    assert(d0.contains(keys[j]));
                    let w = choose|w: int| 0 <= w < d0.len() && d0[w] == keys[j];
                    assert(doomed@[w] == keys[j]);
                }
            }
        }
    }
    let ghost start = m@;
    for j in 0..doomed.len()
        invariant
            m@ == start.remove_keys(doomed@.take(j as int).to_set()),
            forall|x: u64| #[trigger] start.contains_key(x) && x >= idx ==> doomed@.contains(x),
    {
        let ghost before = m@;
        m.remove(&doomed[j]);
        proof {
            assert(doomed@.take(j + 1) =~= doomed@.take(j as int).push(doomed[j as int]));
            crate::quorum::lemma_push_to_set(doomed@.take(j as int), doomed[j as int]);
            assert(m@ =~= start.remove_keys(doomed@.take(j + 1).to_set()));
        }
    }
    proof {
        assert(doomed@.take(doomed@.len() as int) =~= doomed@);
        assert forall|x: u64| #[trigger] start.contains_key(x) && x >= idx implies doomed@.to_set().contains(x) by {
            assert(doomed@.contains(x));
        }
        assert(m@ =~= start.restrict(below(idx)));
    }
}

/// The persistent state of a node: its vote, its log, the membership configs
/// found in its log keyed by the index of the entry that carried them (the
/// initial membership at index 0), and the reply handle of every write this
/// node proposed that is not committed yet, keyed by log index.
#[derive(Debug)]
pub struct Store<R> {
    pub id: u64,
    pub vote: Vote,
    pub configs: BTreeMap<u64, Vec<BTreeSet<u64>>>,
    pub replies: BTreeMap<u64, R>,
    pub logs: Vec<Log>,
}

/// The state of a `Store`, as values.
pub struct StoreView<R> {
    pub id: u64,
    pub vote: Vote,
    pub configs: Map<u64, Seq<Set<u64>>>,
    pub replies: Map<u64, R>,
    pub logs: Seq<LogView>,
}

impl<R> View for Store<R> {
    type V = StoreView<R>;

    open spec fn view(&self) -> StoreView<R> {
        StoreView {
            id: self.id,
            vote: self.vote,
            configs: self.configs@.map_values(|c: Vec<BTreeSet<u64>>| config_view(c@)),
            replies: self.replies@,
            logs: logs_view(self.logs@),
        }
    }
}

impl<R> StoreView<R> {
    /// Id of the last entry, or the zero id for an empty log.
    pub open spec fn last(self) -> LogId {
        if self.logs.len() == 0 {
            zero_log_id()
        } else {
            self.logs.last().log_id
        }
    }

    /// Id of the entry at `index`, if the log reaches that far.
    pub open spec fn log_id_at(self, index: int) -> Option<LogId> {
        if 0 <= index < self.logs.len() {
            Some(self.logs[index].log_id)
        } else {
            None
        }
    }

    /// The membership in effect: the config of the greatest index.
    pub open spec fn config(self) -> Seq<Set<u64>> {
        self.configs[max_key(self.configs.dom())]
    }

    /// The store with every entry from `at.index` on removed, together with the
    /// configs and reply handles of those entries.
    pub open spec fn truncated(self, at: LogId) -> StoreView<R> {
        StoreView {
            configs: self.configs.restrict(below(at.index)),
            replies: self.replies.restrict(below(at.index)),
            logs: if at.index < self.logs.len() { self.logs.take(at.index as int) } else { self.logs },
            ..self
        }
    }

    /// The store after receiving one entry: an entry already present with the
    /// same id changes nothing; an entry whose index holds another id first
    /// truncates the log from that entry's position; the entry is then
    /// appended, and its config, if any, recorded under its index.
    pub open spec fn append_one(self, log: LogView) -> StoreView<R> {
        let i = log.log_id.index;
        match self.log_id_at(i as int) {
            Some(x) if x == log.log_id => self,
            found => {
                let t = match found {
                    Some(x) => self.truncated(x),
                    None => self,
                };
                StoreView {
                    configs: match log.config {
                        Some(c) => t.configs.insert(i, c),
                        None => t.configs,
                    },
                    logs: t.logs.push(log),
                    ..t
                }
            },
        }
    }

    /// The store after receiving `logs` one after the other.
    pub open spec fn append_all(self, logs: Seq<LogView>) -> StoreView<R>
        decreases logs.len(),
    {
        if logs.len() == 0 {
            self
        } else {
            self.append_all(logs.drop_last()).append_one(logs.last())
        }
    }

    /// Every entry sits at the position given by its index.
    pub open spec fn indexed(self) -> bool {
        forall|i: int| 0 <= i < self.logs.len() ==> #[trigger] self.logs[i].log_id.index == i
    }

    /// The log already holds each of `logs`: its id is found at its index.
    pub open spec fn holds_all(self, logs: Seq<LogView>) -> bool {
        forall|j: int| 0 <= j < logs.len() ==> #[trigger] self.log_id_at(logs[j].log_id.index as int)
            == Some(logs[j].log_id)
    }

    /// The invariant every store keeps: the log starts with the zero entry,
    /// the entry at position `i` has index `i`, the initial membership is
    /// recorded under index 0, every other recorded config is the config
    /// carried by the entry at its index and every entry carrying a config has
    /// it recorded, and configs and reply handles only exist for entries in
    /// the log.
    pub open spec fn wf(self) -> bool {
        &&& self.logs.len() >= 1
        &&& self.logs[0].log_id == zero_log_id()
        &&& forall|i: int| 0 <= i < self.logs.len() ==> #[trigger] self.logs[i].log_id.index == i
        &&& self.configs.dom().finite()
        &&& self.configs.contains_key(0)
        &&& forall|k: u64| #[trigger] self.configs.contains_key(k) ==> k < self.logs.len()
        &&& forall|k: u64| #[trigger] self.configs.contains_key(k) ==> groups_finite(self.configs[k])
        &&& forall|k: u64| #[trigger] self.replies.contains_key(k) ==> k < self.logs.len()
        &&& forall|k: u64| #[trigger] self.configs.contains_key(k) && k >= 1 ==> self.logs[k as int].config
            == Some(self.configs[k])
        &&& forall|i: int| 1 <= i < self.logs.len() && (#[trigger] self.logs[i]).config is Some
            ==> self.configs.contains_key(i as u64)
    }
}

impl<R> Store<R> {
    /// A store of a node that has not voted, whose log holds only the zero
    /// entry, with `membership` as its initial config.
    pub fn new(membership: Vec<BTreeSet<u64>>) -> (s: Self)
        ensures
            s@.id == 0,
            s@.vote == zero_vote(),
            s@.configs == map![0u64 => config_view(membership@)],
            s@.replies == Map::<u64, R>::empty(),
            s@.logs == seq![empty_log_view()],
            s@.wf(),
    {
        let mut configs: BTreeMap<u64, Vec<BTreeSet<u64>>> = BTreeMap::new();
        let vote = Vote::default();
        configs.insert(0, membership);
        let replies: BTreeMap<u64, R> = BTreeMap::new();
        let mut logs: Vec<Log> = Vec::new();
        logs.push(Log::default());
        let s = Store { id: 0, vote, configs, replies, logs };
        proof {
            lemma_config_finite(membership@);
            assert(s@.configs =~= map![0u64 => config_view(membership@)]);
            assert(s@.logs =~= seq![empty_log_view()]);
        }
        s
    }

    /// Id of the last entry of the log.
    pub fn last(&self) -> (r: LogId)
        ensures
            r == self@.last(),
    {
        let n = self.logs.len();
        if n == 0 {
            LogId::default()
        } else {
            self.logs[n - 1].log_id
        }
    }

    /// Id of the entry at `rel_index`, if the log reaches that far.
    pub fn get_log_id(&self, rel_index: u64) -> (r: Option<LogId>)
        ensures
            r == self@.log_id_at(rel_index as int),
    {
        if rel_index < self.logs.len() as u64 {
            Some(self.logs[rel_index as usize].log_id)
        } else {
            None
        }
    }

    /// The greatest index under which a config is recorded.
    pub fn last_config_index(&self) -> (k: u64)
        requires
            self@.configs.dom().len() > 0,
        ensures
            k == max_key(self@.configs.dom()),
            self@.configs.contains_key(k),
            forall|j: u64| #[trigger] self@.configs.contains_key(j) ==> j <= k,
    {
        let ghost refs = self.configs.keys().remaining();
        let ghost keys = refs.unref();
        let mut max: u64 = 0;
        let mut seen = false;
        for k in it: self.configs.keys()
            invariant
                refs == it.seq(),
                keys == refs.unref(),
                keys.to_set() == self.configs@.dom(),
                vstd::std_specs::btree::increasing_seq(refs),
                seen <==> it.index() > 0,
                seen ==> max == keys[it.index() - 1],
        {
            max = *k;
            seen = true;
        }
        proof {
            lemma_increasing_keys(refs);
            let d = self.configs@.dom();
            assert(d =~= self@.configs.dom());
            if keys.len() == 0 {
                assert(keys.to_set() =~= Set::<u64>::empty());
            }
            assert(keys.contains(keys[keys.len() - 1]));
            assert forall|j: u64| #[trigger] d.contains(j) implies j <= max by {
                assert(keys.contains(j));
                let w = choose|w: int| 0 <= w < keys.len() && keys[w] == j;
                if w < keys.len() - 1 {
                    assert(*refs[w] < *refs[keys.len() - 1]);
                }
            }
            assert(d.contains(max));
            lemma_max_key(d, max);
        }
        max
    }

    /// The membership in effect: the config recorded under the greatest index.
    pub fn config(&self) -> (c: &Vec<BTreeSet<u64>>)
        requires
            self@.configs.dom().len() > 0,
        ensures
            config_view(c@) == self@.config(),
    {
        let k = self.last_config_index();
        let c = self.configs.get(&k).unwrap();
        c
    }
}

impl<R> Store<R> {
    /// Whether the store keeps the invariant of stores.
    pub fn is_well_formed(&self) -> (r: bool)
        ensures
            r == self@.wf(),
    {
        let n = self.logs.len();
        if n == 0 {
            return false;
        }
        if self.logs[0].log_id != LogId::default() {
            return false;
        }
        for i in 0..n
            invariant
                n == self.logs.len(),
                forall|j: int| 0 <= j < i ==> #[trigger] self@.logs[j].log_id.index == j,
                forall|j: int| 1 <= j < i && (#[trigger] self@.logs[j]).config is Some ==> self@.configs.contains_key(
                    j as u64,
                ),
        {
            if self.logs[i].log_id.index != i as u64 {
                proof {
                    assert(self@.logs[i as int].log_id.index != i);
                }
                return false;
            }
            if i >= 1 && self.logs[i].config.is_some() && !self.configs.contains_key(&(i as u64)) {
                proof {
                    assert(self@.logs[i as int].config is Some);
                }
                return false;
            }
        }
        if !self.configs.contains_key(&0) {
            return false;
        }
        let ghost keys = self.configs.keys().remaining().unref();
        for k in it: self.configs.keys()
            invariant
                keys == it.seq().unref(),
                keys.to_set() == self.configs@.dom(),
                n == self.logs.len(),
                forall|j: int| 0 <= j < it.index() ==> (#[trigger] keys[j]) < n && (keys[j] >= 1
                    ==> self@.logs[keys[j] as int].config == Some(self@.configs[keys[j]])),
        {
            let ghost i = it.index();
            assert(keys[i] == *k);
            assert(self@.configs.contains_key(*k));
            if *k >= n as u64 {
                return false;
            }
            if *k >= 1 {
                let c = self.configs.get(k).unwrap();
                match &self.logs[*k as usize].config {
                    Some(lc) => {
                        if !same_config(lc, c) {
                            return false;
                        }
                    },
                    None => {
                        return false;
                    },
                }
            }
        }
        let ghost rkeys = self.replies.keys().remaining().unref();
        for k in it: self.replies.keys()
            invariant
                rkeys == it.seq().unref(),
                rkeys.to_set() == self.replies@.dom(),
                n == self.logs.len(),
                forall|j: int| 0 <= j < it.index() ==> (#[trigger] rkeys[j]) < n,
        {
            let ghost i = it.index();
            assert(rkeys[i] == *k);
            if *k >= n as u64 {
                proof {
                    assert(self@.replies.contains_key(*k));
                }
                return false;
            }
        }
        proof {
            assert forall|k: u64| #[trigger] self@.configs.contains_key(k) implies k < n && (k >= 1
                ==> self@.logs[k as int].config == Some(self@.configs[k])) by {
                assert(keys.contains(k));
                let w = choose|w: int| 0 <= w < keys.len() && keys[w] == k;
                assert(keys[w] < n);
            }
            assert forall|k: u64| #[trigger] self@.replies.contains_key(k) implies k < n by {
                assert(rkeys.contains(k));
                let w = choose|w: int| 0 <= w < rkeys.len() && rkeys[w] == k;
                assert(rkeys[w] < n);
            }
            assert forall|k: u64| #[trigger] self@.configs.contains_key(k) implies groups_finite(self@.configs[k]) by {
                lemma_config_finite(self.configs@[k]@);
            }
            assert(self@.configs.dom() =~= self.configs@.dom());
        }
        true
    }

    /// Removes every entry from `log_id.index` on, with their configs and the
    /// reply handles of writes that proposed them.
    pub fn truncate(&mut self, log_id: LogId)
        ensures
            final(self)@ == old(self)@.truncated(log_id),
    {
        retain_below(&mut self.replies, log_id.index);
        retain_below(&mut self.configs, log_id.index);
        if log_id.index < self.logs.len() as u64 {
            self.logs.truncate(log_id.index as usize);
        }
        proof {
            assert(self@.logs =~= old(self)@.truncated(log_id).logs);
            assert(self@.configs =~= old(self)@.truncated(log_id).configs);
        }
    }

    /// Appends `logs` one after the other: entries already present are kept, a
    /// conflicting entry truncates the log at its position before being
    /// appended, and every appended config is recorded.
    pub fn append(&mut self, logs: Vec<Log>)
        ensures
            final(self)@ == old(self)@.append_all(logs_view(logs@)),
    {
        let ghost incoming = logs_view(logs@);
        for log in it: logs
            invariant
                incoming == logs_view(it.seq()),
                self@ == old(self)@.append_all(incoming.take(it.index())),
        {
            let ghost i = it.index();
            let ghost before = self@;
            proof {
                assert(incoming.take(i + 1).drop_last() =~= incoming.take(i));
                assert(incoming.take(i + 1).last() == log@);
            }
            let found = self.get_log_id(log.log_id.index);
            let mut skip = false;
            if let Some(x) = found {
                if x != log.log_id {
                    self.truncate(x);
                } else {
                    skip = true;
                }
            }
            if !skip {
                if let Some(ref membership) = log.config {
                    let c = clone_config(membership);
                    self.configs.insert(log.log_id.index, c);
                }
                self.logs.push(log);
                proof {
                    let t = match found {
                        Some(x) => before.truncated(x),
                        None => before,
                    };
                    assert(self@.logs =~= t.logs.push(log@));
                    assert(self@.configs =~= before.append_one(log@).configs);
                }
            }
        }
        proof {
            assert(incoming.take(incoming.len() as int) =~= incoming);
        }
    }

    /// Copies of at most `n` entries starting at position `i`.
    pub fn read_logs(&self, i: u64, n: u64) -> (r: Vec<Log>)
        requires
            n > 0 ==> i <= self@.logs.len(),
        ensures
            n == 0 ==> r@.len() == 0,
            n > 0 ==> logs_view(r@) == self@.logs.subrange(
                i as int,
                if i + n <= self@.logs.len() { i + n } else { self@.logs.len() as int },
            ),
    {
        let mut r: Vec<Log> = Vec::new();
        if n == 0 {
            return r;
        }
        let len = self.logs.len() as u64;
        let end: u64 = if n <= len - i { i + n } else { len };
        let mut j: u64 = i;
        while j < end
            invariant
                i <= j <= end <= len,
                len == self@.logs.len(),
                len == self.logs.len(),
                logs_view(r@) == self@.logs.subrange(i as int, j as int),
            decreases end - j,
        {
            let l = self.logs[j as usize].clone();
            assert(l@ == self@.logs[j as int]);
            let ghost r0 = logs_view(r@);
            r.push(l);
            proof {
                assert(logs_view(r@) =~= r0.push(l@));
                assert(self@.logs.subrange(i as int, j + 1) =~= self@.logs.subrange(i as int, j as int).push(l@));
            }
            j = j + 1;
        }
        r
    }
}

/// The largest element of a set is the one `max_key` picks.
pub proof fn lemma_max_key(keys: Set<u64>, m: u64)
    requires
        keys.contains(m),
        forall|j: u64| #[trigger] keys.contains(j) ==> j <= m,
    ensures
        max_key(keys) == m,
{
    let k = max_key(keys);
    assert(keys.contains(k) && forall|j: u64| #[trigger] keys.contains(j) ==> j <= k);
}

/// Every config carried by `logs` has finite groups.
pub open spec fn configs_finite(logs: Seq<LogView>) -> bool {
    forall|j: int| 0 <= j < logs.len() && (#[trigger] logs[j]).config is Some ==> groups_finite(logs[j].config->0)
}

/// `logs` hold the consecutive indexes `start`, `start + 1`, ...
pub open spec fn consecutive_from(logs: Seq<LogView>, start: int) -> bool {
    forall|j: int| 0 <= j < logs.len() ==> #[trigger] logs[j].log_id.index == start + j
}

/// Truncating a well-formed store after its first entry keeps it well formed
/// and leaves exactly the entries below the truncation point.
pub proof fn lemma_truncate_wf<R>(s: StoreView<R>, at: LogId)
    requires
        s.wf(),
        at.index >= 1,
    ensures
        s.truncated(at).wf(),
        s.truncated(at).logs.len() == if at.index < s.logs.len() { at.index as int } else { s.logs.len() as int },
        s.truncated(at).logs == s.logs.take(s.truncated(at).logs.len() as int),
{
    let t = s.truncated(at);
    assert forall|k: u64| #[trigger] t.configs.contains_key(k) implies k < t.logs.len() by {
        assert(s.configs.contains_key(k));
    }
    assert forall|k: u64| #[trigger] t.replies.contains_key(k) implies k < t.logs.len() by {
        assert(s.replies.contains_key(k));
    }
    assert(t.configs.dom() =~= s.configs.dom().intersect(below(at.index)));
    assert(below(at.index).contains(0));
    assert(s.logs.take(s.logs.len() as int) =~= s.logs);
}

/// Receiving entries with consecutive indexes that continue the log right
/// after a position it already holds keeps the store well formed, leaves the
/// entries before that position untouched, and afterwards every received
/// entry's id is found at its index: a read gives back what was written.
pub proof fn lemma_append_consecutive<R>(s: StoreView<R>, logs: Seq<LogView>, start: int)
    requires
        s.wf(),
        1 <= start <= s.logs.len(),
        consecutive_from(logs, start),
        configs_finite(logs),
    ensures
        s.append_all(logs).wf(),
        s.append_all(logs).logs.len() >= start + logs.len(),
        s.append_all(logs).logs.len() <= if s.logs.len() >= start + logs.len() { s.logs.len() as int } else { start + logs.len() },
        s.append_all(logs).logs.take(start) == s.logs.take(start),
        forall|j: int| 0 <= j < logs.len() ==> #[trigger] s.append_all(logs).log_id_at(start + j)
            == Some(logs[j].log_id),
        s.append_all(logs).id == s.id,
        s.append_all(logs).vote == s.vote,
    decreases logs.len(),
{
    if logs.len() > 0 {
        let prefix = logs.drop_last();
        let last = logs.last();
        assert(consecutive_from(prefix, start)) by {
            assert forall|j: int| 0 <= j < prefix.len() implies #[trigger] prefix[j].log_id.index == start + j by {
                assert(prefix[j] == logs[j]);
            }
        }
        assert(configs_finite(prefix)) by {
            assert forall|j: int| 0 <= j < prefix.len() && (#[trigger] prefix[j]).config is Some implies groups_finite(prefix[j].config->0) by {
                assert(prefix[j] == logs[j]);
            }
        }
        assert(last.config is Some ==> groups_finite(last.config->0)) by {
            assert(logs[logs.len() - 1] == last);
        }
        lemma_append_consecutive(s, prefix, start);
        let p = s.append_all(prefix);
        let i = last.log_id.index;
        assert(last.log_id.index == start + logs.len() - 1);
        let t = s.append_all(logs);
        assert(t == p.append_one(last));
        match p.log_id_at(i as int) {
            Some(x) => {
                if x != last.log_id {
                    assert(x.index == i);
                    lemma_truncate_wf(p, x);
                    let q = p.truncated(x);
                    assert(q.logs.len() == i);
                    assert(t.logs == q.logs.push(last));
                    assert forall|k: u64| #[trigger] t.configs.contains_key(k) implies k < t.logs.len() by {
                        if k != i {
                            assert(q.configs.contains_key(k));
                        }
                    }
                    assert forall|ii: int| 0 <= ii < t.logs.len() implies #[trigger] t.logs[ii].log_id.index == ii by {
                        if ii < i {
                            assert(t.logs[ii] == p.logs[ii]);
                        }
                    }
                    assert(t.logs.take(start) =~= p.logs.take(start));
                    assert forall|j: int| 0 <= j < logs.len() implies #[trigger] t.log_id_at(start + j)
                        == Some(logs[j].log_id) by {
                        if j < logs.len() - 1 {
                            assert(p.log_id_at(start + j) == Some(prefix[j].log_id));
                            assert(t.logs[start + j] == p.logs[start + j]);
                        }
                    }
                } else {
                    assert forall|j: int| 0 <= j < logs.len() implies #[trigger] t.log_id_at(start + j)
                        == Some(logs[j].log_id) by {
                        if j < logs.len() - 1 {
                            assert(p.log_id_at(start + j) == Some(prefix[j].log_id));
                        }
                    }
                }
            },
            None => {
                assert(i == p.logs.len());
                assert(t.logs == p.logs.push(last));
                assert forall|k: u64| #[trigger] t.configs.contains_key(k) implies k < t.logs.len() by {
                    if k != i {
                        assert(p.configs.contains_key(k));
                    }
                }
                assert forall|k: u64| #[trigger] t.replies.contains_key(k) implies k < t.logs.len() by {
                    assert(p.replies.contains_key(k));
                }
                assert forall|ii: int| 0 <= ii < t.logs.len() implies #[trigger] t.logs[ii].log_id.index == ii by {
                    if ii < i {
                        assert(t.logs[ii] == p.logs[ii]);
                    }
                }
                assert(t.logs.take(start) =~= p.logs.take(start));
                assert forall|j: int| 0 <= j < logs.len() implies #[trigger] t.log_id_at(start + j)
                    == Some(logs[j].log_id) by {
                    if j < logs.len() - 1 {
                        assert(p.log_id_at(start + j) == Some(prefix[j].log_id));
                        assert(t.logs[start + j] == p.logs[start + j]);
                    }
                }
            },
        }
    } else {
        assert(s.append_all(logs) == s);
    }
}

/// Appending entries never touches the node id or the vote of a store.
pub proof fn lemma_append_keeps_vote<R>(s: StoreView<R>, logs: Seq<LogView>)
    ensures
        s.append_all(logs).id == s.id,
        s.append_all(logs).vote == s.vote,
    decreases logs.len(),
{
    if logs.len() > 0 {
        lemma_append_keeps_vote(s, logs.drop_last());
    }
}

/// The membership in effect in a well-formed store is one of its recorded
/// configs, with finite groups.
pub proof fn lemma_config_recorded<R>(s: StoreView<R>)
    requires
        s.wf(),
    ensures
        s.configs.contains_key(max_key(s.configs.dom())),
        forall|j: u64| #[trigger] s.configs.contains_key(j) ==> j <= max_key(s.configs.dom()),
        groups_finite(s.config()),
{
    assert(s.configs.dom().contains(0));
    vstd::set_lib::lemma_set_empty_equivalency_len(s.configs.dom());
    let m = crate::quorum::lemma_finite_max(s.configs.dom());
    lemma_max_key(s.configs.dom(), m);
}

/// A config takes effect as soon as the entry carrying it is appended at the
/// end of a well-formed log.
pub proof fn lemma_config_takes_effect<R>(s: StoreView<R>, log: LogView)
    requires
        s.wf(),
        log.log_id.index == s.logs.len(),
        log.config is Some,
    ensures
        s.append_one(log).config() == log.config->0,
{
    let t = s.append_one(log);
    let i = log.log_id.index;
    assert(s.log_id_at(i as int) is None);
    assert(t.configs == s.configs.insert(i, log.config->0));
    assert forall|j: u64| #[trigger] t.configs.contains_key(j) implies j <= i by {
        if j != i {
            assert(s.configs.contains_key(j));
        }
    }
    lemma_max_key(t.configs.dom(), i);
}

} // verus!
