//! Human-readable renderings of ids, votes, entries, progresses, requests,
//! replies and metrics, used to log what a node does.

use vstd::prelude::*;
use vstd::string::*;
use std::collections::{BTreeMap, BTreeSet};
use itertools::Itertools;

use crate::ordering::{LeaderId, LogId, Vote};
use crate::quorum::{config_view, lemma_increasing_keys, lemma_sorted_ids_unique, sorted_ids};
use crate::raft::{Metrics, MetricsView, Progress, Reply, Request, RequestView};
use crate::store::{Log, LogView, logs_view};
use vstd::std_specs::iter::IteratorSpec;

verus! {

/// The character of decimal digit `d`.
pub open spec fn digit_char(d: nat) -> char {
    if d == 0 { '0' }
    else if d == 1 { '1' }
    else if d == 2 { '2' }
    else if d == 3 { '3' }
    else if d == 4 { '4' }
    else if d == 5 { '5' }
    else if d == 6 { '6' }
    else if d == 7 { '7' }
    else if d == 8 { '8' }
    else { '9' }
}

/// The decimal digits of `n`, most significant first, without leading zeros.
pub open spec fn decimal(n: nat) -> Seq<char>
    decreases n,
{
    if n < 10 {
        seq![digit_char(n)]
    } else {
        decimal(n / 10).push(digit_char(n % 10))
    }
}

fn digit_str(d: u64) -> (s: &'static str)
    requires
        d < 10,
    ensures
        s@ == seq![digit_char(d as nat)],
{
    proof {
        reveal_strlit("0");
        reveal_strlit("1");
        reveal_strlit("2");
        reveal_strlit("3");
        reveal_strlit("4");
        reveal_strlit("5");
        reveal_strlit("6");
        reveal_strlit("7");
        reveal_strlit("8");
        reveal_strlit("9");
    }
    if d == 0 { "0" }
    else if d == 1 { "1" }
    else if d == 2 { "2" }
    else if d == 3 { "3" }
    else if d == 4 { "4" }
    else if d == 5 { "5" }
    else if d == 6 { "6" }
    else if d == 7 { "7" }
    else if d == 8 { "8" }
    else { "9" }
}

/// The decimal text of `n`.
pub fn u64_text(n: u64) -> (s: String)
    ensures
        s@ == decimal(n as nat),
    decreases n,
{
    if n < 10 {
        let d = digit_str(n);
        d.to_owned()
    } else {
        let mut s = u64_text(n / 10);
        s.append(digit_str(n % 10));
        s
    }
}

/// The texts of `parts` one after the other, with `sep` between each two.
pub open spec fn joined(parts: Seq<Seq<char>>, sep: Seq<char>) -> Seq<char>
    decreases parts.len(),
{
    if parts.len() == 0 {
        Seq::empty()
    } else if parts.len() == 1 {
        parts[0]
    } else {
        joined(parts.drop_last(), sep) + sep + parts.last()
    }
}

/// The views of some strings.
pub open spec fn texts_view(parts: Seq<String>) -> Seq<Seq<char>> {
    parts.map_values(|s: String| s@)
}

/// `Itertools::join` of the `itertools` crate over the strings of `parts`:
/// each string written in turn, with `sep` written between each two.
#[verifier::external_body]
fn join_texts(parts: &Vec<String>, sep: &str) -> (r: String)
    ensures
        r@ == joined(texts_view(parts@), sep@),
{
    parts.iter().join(sep)
}

/// The decimal texts of some numbers.
pub open spec fn decimals(xs: Seq<u64>) -> Seq<Seq<char>> {
    xs.map_values(|x: u64| decimal(x as nat))
}

/// The texts of some groups.
pub open spec fn group_texts(c: Seq<Set<u64>>) -> Seq<Seq<char>> {
    c.map_values(|g: Set<u64>| group_text(g))
}

/// The texts of some log entries.
pub open spec fn log_texts(ls: Seq<LogView>) -> Seq<Seq<char>> {
    ls.map_values(|l: LogView| log_text(l))
}

/// The texts `prefix`, id, `=`, progress of the entries of `m` at `ids`.
pub open spec fn entry_texts(prefix: Seq<char>, m: Map<u64, Progress>, ids: Seq<u64>) -> Seq<Seq<char>> {
    ids.map_values(|id: u64| prefix + decimal(id as nat) + "="@ + progress_text(m[id]))
}

/// The text of a leader id: `L(` and the id and `)`.
pub open spec fn leader_text(l: LeaderId) -> Seq<char> {
    "L("@ + decimal(l.0 as nat) + ")"@
}

/// The text of a log id: `T`, the term, `-` and the index.
pub open spec fn log_id_text(a: LogId) -> Seq<char> {
    "T"@ + decimal(a.term as nat) + "-"@ + decimal(a.index as nat)
}

/// The text of a vote: its term, whether a quorum granted it, and its leader.
pub open spec fn vote_text(v: Vote) -> Seq<char> {
    "T"@ + decimal(v.term as nat) + "-"@ + (if v.committed is Some { "COMMITTED"@ } else { "uncommitted"@ })
        + "-"@ + leader_text(v.voted_for)
}

/// The text of a group of node ids: the ids in increasing order between
/// braces.
pub open spec fn group_text(g: Set<u64>) -> Seq<char> {
    "{"@ + joined(decimals(sorted_ids(g)), ", "@) + "}"@
}

/// The text of a membership config: its groups between brackets.
pub open spec fn config_text(c: Seq<Set<u64>>) -> Seq<char> {
    "["@ + joined(group_texts(c), ", "@) + "]"@
}

/// The text of a progress: the range of possible matching points and whether
/// the node can be sent to.
pub open spec fn progress_text(p: Progress) -> Seq<char> {
    "([" @ + log_id_text(p.acked) + ", "@ + decimal(p.len as nat) + "), "@
        + (if p.ready is Some { "READY"@ } else { "busy"@ }) + ")"@
}

/// The text of a log entry: its id, then `, noop)` for an entry without data
/// or config, its data and its config.
pub open spec fn log_text(l: LogView) -> Seq<char> {
    "Log("@ + log_id_text(l.log_id)
        + (if l.data is None && l.config is None { ", noop)"@ } else { Seq::empty() })
        + (match l.data { Some(d) => ", data:"@ + d, None => Seq::empty() })
        + (match l.config { Some(c) => ", members:"@ + config_text(c), None => Seq::empty() })
        + ")"@
}

/// The text of a reply: granted or denied, the replier's vote, and the
/// acknowledged entry or the conflicting index.
pub open spec fn reply_text(r: Reply) -> Seq<char> {
    "("@ + (if r.granted { "granted"@ } else { "denied"@ }) + ", vote:"@ + vote_text(r.vote) + ", "@
        + (match r.log {
            Ok(acked) => "Ack("@ + log_id_text(acked) + ")"@,
            Err(end) => "Conflict("@ + decimal(end as nat) + ")"@,
        }) + ")"@
}

/// The text of a request: the sender's vote, last log id and commit index,
/// then the previous entry and the carried entries.
pub open spec fn request_text(r: RequestView) -> Seq<char> {
    "(vote:"@ + vote_text(r.vote) + ", last:"@ + log_id_text(r.last_log_id) + " commit:"@
        + decimal(r.commit as nat) + " logs:"@ + log_id_text(r.prev) + "<"@
        + joined(log_texts(r.logs), ","@) + ")"@
}

/// The text of a map of progresses: `id=progress` pairs in increasing id
/// order between braces.
pub open spec fn progresses_text(m: Map<u64, Progress>) -> Seq<char> {
    "{"@ + joined(entry_texts(Seq::empty(), m, sorted_ids(m.dom())), ", "@) + "}"@
}

/// The text of metrics: vote, last log id, commit index, config and, while
/// leading, the progress of every node.
pub open spec fn metrics_text(m: MetricsView) -> Seq<char> {
    "Metrics(vote:"@ + vote_text(m.vote) + ", last:"@ + log_id_text(m.last_log) + ", commit:"@
        + decimal(m.commit as nat) + ", config:"@ + config_text(m.config)
        + (match m.progresses {
            Some(p) => ", progresses:{"@ + " "@ + joined(entry_texts("N"@, p, sorted_ids(p.dom())), ", "@) + " }"@,
            None => Seq::empty(),
        }) + ")"@
}

impl LeaderId {
    /// `L(id)`.
    pub fn to_string(&self) -> (s: String)
        ensures
            s@ == leader_text(*self),
    {
        let mut s = "L(".to_owned();
        let n = u64_text(self.0);
        s.append(n.as_str());
        s.append(")");
        s
    }
}

impl LogId {
    /// `Tterm-index`.
    pub fn to_string(&self) -> (s: String)
        ensures
            s@ == log_id_text(*self),
    {
        let mut s = "T".to_owned();
        s.append(u64_text(self.term).as_str());
        s.append("-");
        s.append(u64_text(self.index).as_str());
        s
    }
}

impl Vote {
    /// `Tterm-COMMITTED-L(id)` or `Tterm-uncommitted-L(id)`.
    pub fn to_string(&self) -> (s: String)
        ensures
            s@ == vote_text(*self),
    {
        let mut s = "T".to_owned();
        s.append(u64_text(self.term).as_str());
        s.append("-");
        if self.committed.is_some() {
            s.append("COMMITTED");
        } else {
            s.append("uncommitted");
        }
        s.append("-");
        s.append(self.voted_for.to_string().as_str());
        s
    }
}

impl Progress {
    /// `([acked, len), READY)` or `([acked, len), busy)`.
    pub fn to_string(&self) -> (s: String)
        ensures
            s@ == progress_text(*self),
    {
        let mut s = "([".to_owned();
        s.append(self.acked.to_string().as_str());
        s.append(", ");
        s.append(u64_text(self.len).as_str());
        s.append("), ");
        if self.ready.is_some() {
            s.append("READY");
        } else {
            s.append("busy");
        }
        s.append(")");
        s
    }
}

/// `{a, b, ...}`: the ids of `g` in increasing order.
pub fn group_to_string(g: &BTreeSet<u64>) -> (s: String)
    ensures
        s@ == group_text(g@),
{
    let mut parts: Vec<String> = Vec::new();
    let ghost refs = g.iter().remaining();
    let ghost keys = refs.unref();
    for x in it: g.iter()
        invariant
            refs == it.seq(),
            keys == refs.unref(),
            keys.to_set() == g@,
            vstd::std_specs::btree::increasing_seq(refs),
            texts_view(parts@) == decimals(keys.take(it.index())),
    {
        let ghost i = it.index();
        let ghost before = parts@;
        assert(keys[i] == *x);
        let t = u64_text(*x);
        parts.push(t);
        proof {
            lemma_texts_push(before, t);
            assert(decimals(keys.take(i + 1)) =~= decimals(keys.take(i)).push(decimal(keys[i] as nat)));
        }
    }
    proof {
        assert(keys.take(keys.len() as int) =~= keys);
        lemma_increasing_keys(refs);
        lemma_sorted_ids_unique(keys, g@);
    }
    let mut s = "{".to_owned();
    s.append(join_texts(&parts, ", ").as_str());
    s.append("}");
    s
}

/// `[{..}, {..}]`: the groups of `c` in order.
pub fn config_to_string(c: &Vec<BTreeSet<u64>>) -> (s: String)
    ensures
        s@ == config_text(config_view(c@)),
{
    let mut parts: Vec<String> = Vec::new();
    for i in 0..c.len()
        invariant
            texts_view(parts@) == group_texts(config_view(c@).take(i as int)),
    {
        let ghost before = parts@;
        let t = group_to_string(&c[i]);
        parts.push(t);
        proof {
            lemma_texts_push(before, t);
            assert(group_texts(config_view(c@).take(i + 1)) =~= group_texts(config_view(c@).take(i as int)).push(
                group_text(config_view(c@)[i as int]),
            ));
        }
    }
    proof {
        assert(config_view(c@).take(c.len() as int) =~= config_view(c@));
    }
    let mut s = "[".to_owned();
    s.append(join_texts(&parts, ", ").as_str());
    s.append("]");
    s
}

impl Log {
    /// `Log(id` followed by `, noop)` for an entry without data or config,
    /// `, data:..` and `, members:..` for what it carries, and `)`.
    pub fn to_string(&self) -> (s: String)
        ensures
            s@ == log_text(self@),
    {
        let mut s = "Log(".to_owned();
        s.append(self.log_id.to_string().as_str());
        if self.data.is_none() && self.config.is_none() {
            s.append(", noop)");
        }
        match &self.data {
            Some(d) => {
                s.append(", data:");
                s.append(d.as_str());
            },
            None => {},
        }
        match &self.config {
            Some(c) => {
                s.append(", members:");
                s.append(config_to_string(c).as_str());
            },
            None => {},
        }
        s.append(")");
        s
    }
}

impl Reply {
    /// `(granted, vote:.., Ack(id))` or `(denied, vote:.., Conflict(index))`.
    pub fn to_string(&self) -> (s: String)
        ensures
            s@ == reply_text(*self),
    {
        let mut s = "(".to_owned();
        if self.granted {
            s.append("granted");
        } else {
            s.append("denied");
        }
        s.append(", vote:");
        s.append(self.vote.to_string().as_str());
        s.append(", ");
        match self.log {
            Ok(acked) => {
                s.append("Ack(");
                s.append(acked.to_string().as_str());
                s.append(")");
            },
            Err(end) => {
                s.append("Conflict(");
                s.append(u64_text(end).as_str());
                s.append(")");
            },
        }
        s.append(")");
        s
    }
}

impl Request {
    /// `(vote:.., last:.. commit:.. logs:prev<entries)`.
    pub fn to_string(&self) -> (s: String)
        ensures
            s@ == request_text(self@),
    {
        let mut parts: Vec<String> = Vec::new();
        for i in 0..self.logs.len()
            invariant
                texts_view(parts@) == log_texts(logs_view(self.logs@).take(i as int)),
        {
            let ghost before = parts@;
            let t = self.logs[i].to_string();
            parts.push(t);
            proof {
                lemma_texts_push(before, t);
                assert(log_texts(logs_view(self.logs@).take(i + 1)) =~= log_texts(logs_view(self.logs@).take(i as int)).push(
                    log_text(logs_view(self.logs@)[i as int]),
                ));
            }
        }
        proof {
            assert(logs_view(self.logs@).take(self.logs.len() as int) =~= logs_view(self.logs@));
        }
        let mut s = "(vote:".to_owned();
        s.append(self.vote.to_string().as_str());
        s.append(", last:");
        s.append(self.last_log_id.to_string().as_str());
        s.append(" commit:");
        s.append(u64_text(self.commit).as_str());
        s.append(" logs:");
        s.append(self.prev.to_string().as_str());
        s.append("<");
        s.append(join_texts(&parts, ",").as_str());
        s.append(")");
        s
    }
}

/// The texts of the entries of `m`, in increasing key order, each made of
/// `prefix`, the key, `=` and the progress.
fn progress_entries(m: &BTreeMap<u64, Progress>, prefix: &str) -> (parts: Vec<String>)
    ensures
        texts_view(parts@) == entry_texts(prefix@, m@, sorted_ids(m@.dom())),
{
    let mut parts: Vec<String> = Vec::new();
    let ghost refs = m.iter().remaining();
    let ghost kv = refs.unref();
    let ghost keys = kv.map_values(|e: (u64, Progress)| e.0);
    proof {
        assert forall|k: u64| #[trigger] m@.contains_key(k) implies keys.contains(k) by {
            assert(refs.contains((&k, &m@[k])));
            let w = choose|w: int| 0 <= w < refs.len() && refs[w] == (&k, &m@[k]);
            assert(keys[w] == k);
        }
        assert forall|i: int| 0 <= i < keys.len() implies m@.contains_key(#[trigger] keys[i]) by {
            assert(m@.contains_key(*refs[i].0));
        }
        assert(keys.to_set() =~= m@.dom());
    }
    for e in it: m.iter()
        invariant
            refs == it.seq(),
            vstd::std_specs::btree::increasing_seq(refs.map_values(|kv: (&u64, &Progress)| *kv.0)),
            kv == it.seq().unref(),
            keys == kv.map_values(|e: (u64, Progress)| e.0),
            forall|i: int| 0 <= i < kv.len() ==> m@.contains_key(#[trigger] kv[i].0) && m@[kv[i].0] == kv[i].1,
            texts_view(parts@) == entry_texts(prefix@, m@, keys.take(it.index())),
    {
        let (id, p) = e;
        let ghost i = it.index();
        assert(kv[i] == (*id, *p));
        let mut t = prefix.to_owned();
        t.append(u64_text(*id).as_str());
        t.append("=");
        t.append(p.to_string().as_str());
        let ghost before = parts@;
        parts.push(t);
        proof {
            lemma_texts_push(before, t);
            assert(entry_texts(prefix@, m@, keys.take(i + 1)) =~= entry_texts(prefix@, m@, keys.take(i)).push(
                prefix@ + decimal(keys[i] as nat) + "="@ + progress_text(m@[keys[i]]),
            ));
        }
    }
    proof {
        assert(keys.take(keys.len() as int) =~= keys);
        assert(refs.map_values(|kv: (&u64, &Progress)| *kv.0) =~= keys);
        lemma_increasing_u64(keys);
        lemma_sorted_ids_unique(keys, m@.dom());
    }
    parts
}

proof fn lemma_texts_push(parts: Seq<String>, t: String)
    ensures
        texts_view(parts.push(t)) == texts_view(parts).push(t@),
{
    assert(texts_view(parts.push(t)) =~= texts_view(parts).push(t@));
}

/// Keys of a `BTreeMap<u64, _>` walk strictly increase.
proof fn lemma_increasing_u64(keys: Seq<u64>)
    requires
        vstd::std_specs::btree::increasing_seq(keys),
    ensures
        crate::quorum::increasing(keys),
{
    broadcast use vstd::laws_cmp::group_laws_cmp;
    assert forall|i: int, j: int| 0 <= i < j < keys.len() implies keys[i] < keys[j] by {
        assert(vstd::std_specs::cmp::OrdSpec::cmp_spec(&keys[i], &keys[j]) is Less);
    }
}

/// `{id=progress, ...}` in increasing id order.
pub fn progresses_to_string(m: &BTreeMap<u64, Progress>) -> (s: String)
    ensures
        s@ == progresses_text(m@),
{
    let parts = progress_entries(m, "");
    proof {
        reveal_strlit("");
        assert(""@ =~= Seq::<char>::empty());
    }
    let mut s = "{".to_owned();
    s.append(join_texts(&parts, ", ").as_str());
    s.append("}");
    s
}

impl Metrics {
    /// `Metrics(vote:.., last:.., commit:.., config:..` then, while leading,
    /// `, progresses:{ Nid=progress, ... }`, and `)`.
    pub fn to_string(&self) -> (s: String)
        ensures
            s@ == metrics_text(self@),
    {
        let mut s = "Metrics(vote:".to_owned();
        s.append(self.vote.to_string().as_str());
        s.append(", last:");
        s.append(self.last_log.to_string().as_str());
        s.append(", commit:");
        s.append(u64_text(self.commit).as_str());
        s.append(", config:");
        s.append(config_to_string(&self.config).as_str());
        match &self.progresses {
            Some(p) => {
                let parts = progress_entries(p, "N");
                s.append(", progresses:{");
                s.append(" ");
                s.append(join_texts(&parts, ", ").as_str());
                s.append(" }");
            },
            None => {},
        }
        s.append(")");
        s
    }
}

/// A borrowed value to be rendered as text.
pub struct Display<'a, T> {
    pub v: &'a T,
}

impl<'a, T> Display<'a, T> {
    /// Wraps `v` for rendering.
    pub fn new(v: &'a T) -> (d: Self)
        ensures
            d.v == v,
    {
        Display { v }
    }
}

impl<'a> Display<'a, BTreeSet<u64>> {
    /// `{a, b, ...}`.
    pub fn to_string(&self) -> (s: String)
        ensures
            s@ == group_text(self.v@),
    {
        group_to_string(self.v)
    }
}

impl<'a> Display<'a, Vec<BTreeSet<u64>>> {
    /// `[{..}, ...]`.
    pub fn to_string(&self) -> (s: String)
        ensures
            s@ == config_text(config_view(self.v@)),
    {
        config_to_string(self.v)
    }
}

impl<'a> Display<'a, BTreeMap<u64, Progress>> {
    /// `{id=progress, ...}`.
    pub fn to_string(&self) -> (s: String)
        ensures
            s@ == progresses_text(self.v@),
    {
        progresses_to_string(self.v)
    }
}

/// The text of a replication outcome: `Ok(id)` or `Err(index)`.
pub open spec fn outcome_text(r: Result<LogId, u64>) -> Seq<char> {
    match r {
        Ok(v) => "Ok("@ + log_id_text(v) + ")"@,
        Err(e) => "Err("@ + decimal(e as nat) + ")"@,
    }
}

impl<'a> Display<'a, Result<LogId, u64>> {
    /// `Ok(id)` or `Err(index)`.
    pub fn to_string(&self) -> (s: String)
        ensures
            s@ == outcome_text(*self.v),
    {
        match self.v {
            Ok(v) => {
                let mut s = "Ok(".to_owned();
                s.append(v.to_string().as_str());
                s.append(")");
                s
            },
            Err(e) => {
                let mut s = "Err(".to_owned();
                s.append(u64_text(*e).as_str());
                s.append(")");
                s
            },
        }
    }
}

} // verus!
