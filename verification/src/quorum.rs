//! Joint-consensus quorums over a membership made of several node groups.

use vstd::prelude::*;
use std::collections::BTreeSet;
use vstd::std_specs::iter::IteratorSpec;
use vstd::std_specs::cmp::OrdSpec;

verus! {

broadcast use vstd::std_specs::btree::group_btree_axioms;

/// A membership config as sets of node ids.
pub open spec fn config_view(config: Seq<BTreeSet<u64>>) -> Seq<Set<u64>> {
    config.map_values(|g: BTreeSet<u64>| g@)
}

/// `granted` holds a strict majority of every group of `config`.
pub open spec fn quorum_granted(config: Seq<Set<u64>>, granted: Set<u64>) -> bool {
    forall|i: int|
        0 <= i < config.len() ==> #[trigger] config[i].intersect(granted).len() > config[i].len() / 2
}

/// Number of members of `group` that are in `granted`.
fn count_granted(group: &BTreeSet<u64>, granted: &BTreeSet<u64>) -> (n: usize)
    ensures
        n == group@.intersect(granted@).len(),
{
    let mut n: usize = 0;
    let ghost keys = group.iter().remaining().unref();
    proof {
        assert(keys.take(0).to_set() =~= Set::<u64>::empty());
        assert(keys.take(0).to_set().intersect(granted@) =~= Set::<u64>::empty());
        assert(group@.len() == group.len());
    }
    for x in it: group.iter()
        invariant
            keys == it.seq().unref(),
            keys.no_duplicates(),
            keys.len() == group@.len(),
            keys.len() <= usize::MAX,
            keys.to_set() == group@,
            n <= it.index(),
            n == keys.take(it.index()).to_set().intersect(granted@).len(),
    {
        let ghost i = it.index();
        let ghost before = keys.take(i).to_set();
        proof {
            assert(keys.take(i + 1) =~= keys.take(i).push(*x));
            lemma_push_to_set(keys.take(i), *x);
            if before.contains(*x) {
                let j = choose|j: int| 0 <= j < i && keys.take(i)[j] == *x;
                assert(keys[j] == keys[i]);
            }
            vstd::seq_lib::seq_to_set_is_finite(keys.take(i));
        }
        if granted.contains(x) {
            proof {
                assert(before.insert(*x).intersect(granted@) =~= before.intersect(granted@).insert(*x));
            }
            n = n + 1;
        } else {
            proof {
                assert(before.insert(*x).intersect(granted@) =~= before.intersect(granted@));
            }
        }
    }
    proof {
        assert(keys.take(keys.len() as int) =~= keys);
    }
    n
}

pub proof fn lemma_push_to_set(s: Seq<u64>, x: u64)
    ensures
        s.push(x).to_set() == s.to_set().insert(x),
{
    broadcast use vstd::seq_lib::group_seq_properties;
    assert(s.push(x).to_set() =~= s.to_set().insert(x));
}

/// Every node id that occurs in some group of `config`.
pub open spec fn all_members(config: Seq<Set<u64>>) -> Set<u64> {
    Set::new(|x: u64| exists|i: int| 0 <= i < config.len() && #[trigger] config[i].contains(x))
}

/// Whether `granted` holds a strict majority of every group of `config`.
pub fn is_quorum(config: &[BTreeSet<u64>], granted: &BTreeSet<u64>) -> (r: bool)
    ensures
        r == quorum_granted(config_view(config@), granted@),
{
    let ghost cv = config_view(config@);
    for i in 0..config.len()
        invariant
            cv == config_view(config@),
            forall|j: int| 0 <= j < i ==> #[trigger] cv[j].intersect(granted@).len() > cv[j].len() / 2,
    {
        let group = &config[i];
        proof {
            assert(group@.len() == group.len());
        }
        if count_granted(group, granted) <= group.len() / 2 {
            assert(cv[i as int] == group@);
            return false;
        }
    }
    true
}

/// The ids of all members of `config`, each once, in increasing order.
pub fn node_ids(config: &[BTreeSet<u64>]) -> (ids: Vec<u64>)
    ensures
        ids@.to_set() == all_members(config_view(config@)),
        increasing(ids@),
        ids@ == sorted_ids(all_members(config_view(config@))),
{
    let ghost cv = config_view(config@);
    let mut all: BTreeSet<u64> = BTreeSet::new();
    for i in 0..config.len()
        invariant
            cv == config_view(config@),
            all@ == all_members(cv.take(i as int)),
    {
        let group = &config[i];
        let ghost before = all@;
        let ghost keys = group.iter().remaining().unref();
        for x in it: group.iter()
            invariant
                keys == it.seq().unref(),
                keys.to_set() == group@,
                all@ == before.union(keys.take(it.index()).to_set()),
        {
            let ghost k = it.index();
            proof {
                assert(keys.take(k + 1) =~= keys.take(k).push(*x));
                lemma_push_to_set(keys.take(k), *x);
            }
            all.insert(*x);
            proof {
                assert(all@ =~= before.union(keys.take(k + 1).to_set()));
            }
        }
        proof {
            assert(keys.take(keys.len() as int) =~= keys);
            assert(cv[i as int] == group@);
            assert forall|x: u64| #[trigger] all@.contains(x) <==> all_members(cv.take(i + 1)).contains(x) by {
                if all_members(cv.take(i + 1)).contains(x) {
                    let j = choose|j: int| 0 <= j < i + 1 && #[trigger] cv.take(i + 1)[j].contains(x);
                    if j < i {
                        assert(cv.take(i as int)[j].contains(x));
                    }
                }
                if before.contains(x) {
                    let j = choose|j: int| 0 <= j < i && #[trigger] cv.take(i as int)[j].contains(x);
                    assert(cv.take(i + 1)[j].contains(x));
                }
                if group@.contains(x) {
                    assert(cv.take(i + 1)[i as int].contains(x));
                }
            }
            assert(all@ =~= all_members(cv.take(i + 1)));
        }
    }
    proof {
        assert(cv.take(config@.len() as int) =~= cv);
    }
    let mut ids: Vec<u64> = Vec::new();
    let ghost refs = all.iter().remaining();
    let ghost keys = refs.unref();
    for x in it: all.iter()
        invariant
            refs == it.seq(),
            keys == refs.unref(),
            keys.to_set() == all@,
            vstd::std_specs::btree::increasing_seq(refs),
            ids@ == keys.take(it.index()),
    {
        ids.push(*x);
        proof {
            assert(ids@ =~= keys.take(it.index() + 1));
        }
    }
    proof {
        assert(keys.take(keys.len() as int) =~= keys);
        lemma_increasing_keys(refs);
        lemma_sorted_ids_unique(ids@, all_members(cv));
    }
    ids
}

/// The keys handed out by a `BTreeSet<u64>` iterator strictly increase.
pub proof fn lemma_increasing_keys(s: Seq<&u64>)
    requires
        vstd::std_specs::btree::increasing_seq(s),
    ensures
        forall|i: int, j: int| 0 <= i < j < s.len() ==> *s[i] < *s[j],
{
    broadcast use vstd::laws_cmp::group_laws_cmp;
    assert(vstd::laws_cmp::obeys_cmp::<&u64>());
    assert forall|i: int, j: int| 0 <= i < j < s.len() implies *s[i] < *s[j] by {
        assert(OrdSpec::cmp_spec(&s[i], &s[j]) is Less);
    }
}

/// Two quorums of the same config always share a member in every group, so two
/// disjoint sets of nodes can never both be granted.
pub proof fn lemma_quorums_intersect(config: Seq<Set<u64>>, a: Set<u64>, b: Set<u64>)
    requires
        forall|i: int| 0 <= i < config.len() ==> #[trigger] config[i].finite(),
        quorum_granted(config, a),
        quorum_granted(config, b),
    ensures
        forall|i: int| 0 <= i < config.len() ==> #[trigger] share_member(config[i], a, b),
{
    assert forall|i: int| 0 <= i < config.len() implies #[trigger] share_member(config[i], a, b) by {
        assert(config[i].intersect(a).len() > config[i].len() / 2);
        assert(config[i].intersect(b).len() > config[i].len() / 2);
        let x = lemma_majorities_meet(config[i], a, b);
        assert(config[i].contains(x) && a.contains(x) && b.contains(x));
    }
}

/// Some member of `group` is in both `a` and `b`.
pub open spec fn share_member(group: Set<u64>, a: Set<u64>, b: Set<u64>) -> bool {
    exists|x: u64| #[trigger] group.contains(x) && a.contains(x) && b.contains(x)
}

/// Two strict majorities of one finite group have a common member.
proof fn lemma_majorities_meet(g: Set<u64>, a: Set<u64>, b: Set<u64>) -> (x: u64)
    requires
        g.finite(),
        g.intersect(a).len() > g.len() / 2,
        g.intersect(b).len() > g.len() / 2,
    ensures
        g.contains(x) && a.contains(x) && b.contains(x),
{
    let ga = g.intersect(a);
    let gb = g.intersect(b);
    vstd::set_lib::lemma_len_subset(ga, g);
    vstd::set_lib::lemma_len_subset(gb, g);
    vstd::set_lib::lemma_len_subset(ga + gb, g);
    vstd::set_lib::lemma_set_intersect_union_lens(ga, gb);
    assert(ga.intersect(gb).len() > 0);
    if ga.intersect(gb).is_empty() {
        assert(ga.intersect(gb) =~= Set::<u64>::empty());
    }
    let x = ga.intersect(gb).choose();
    x
}

/// Adding nodes to a granted set never loses a quorum.
pub proof fn lemma_quorum_monotone(config: Seq<Set<u64>>, a: Set<u64>, b: Set<u64>)
    requires
        forall|i: int| 0 <= i < config.len() ==> #[trigger] config[i].finite(),
        quorum_granted(config, a),
        a.subset_of(b),
    ensures
        quorum_granted(config, b),
{
    assert forall|i: int| 0 <= i < config.len() implies #[trigger] config[i].intersect(b).len()
        > config[i].len() / 2 by {
        assert(config[i].intersect(a).len() > config[i].len() / 2);
        vstd::set_lib::lemma_len_subset(config[i].intersect(b), config[i]);
        vstd::set_lib::lemma_len_subset(config[i].intersect(a), config[i].intersect(b));
    }
}

/// A quorum of a joint config is exactly a set that is a quorum of each of its
/// parts.
pub proof fn lemma_joint_quorum(c1: Seq<Set<u64>>, c2: Seq<Set<u64>>, a: Set<u64>)
    ensures
        quorum_granted(c1 + c2, a) <==> (quorum_granted(c1, a) && quorum_granted(c2, a)),
{
    if quorum_granted(c1 + c2, a) {
        assert forall|i: int| 0 <= i < c1.len() implies #[trigger] c1[i].intersect(a).len() > c1[i].len() / 2 by {
            assert((c1 + c2)[i] == c1[i]);
        }
        assert forall|i: int| 0 <= i < c2.len() implies #[trigger] c2[i].intersect(a).len() > c2[i].len() / 2 by {
            assert((c1 + c2)[c1.len() + i] == c2[i]);
        }
    }
    if quorum_granted(c1, a) && quorum_granted(c2, a) {
        assert forall|i: int| 0 <= i < (c1 + c2).len() implies #[trigger] (c1 + c2)[i].intersect(a).len()
            > (c1 + c2)[i].len() / 2 by {
            if i < c1.len() {
                assert(c1[i].intersect(a).len() > c1[i].len() / 2);
            } else {
                assert(c2[i - c1.len()].intersect(a).len() > c2[i - c1.len()].len() / 2);
            }
        }
    }
}

/// `s` is strictly increasing.
pub open spec fn increasing(s: Seq<u64>) -> bool {
    forall|i: int, j: int| 0 <= i < j < s.len() ==> s[i] < s[j]
}

/// The members of a finite set of ids in increasing order.
pub open spec fn sorted_ids(ids: Set<u64>) -> Seq<u64> {
    choose|s: Seq<u64>| increasing(s) && s.to_set() == ids
}

/// There is only one increasing sequence of a given set of ids, and
/// `sorted_ids` is that sequence.
pub proof fn lemma_sorted_ids_unique(s: Seq<u64>, ids: Set<u64>)
    requires
        increasing(s),
        s.to_set() == ids,
    ensures
        sorted_ids(ids) == s,
{
    let t = sorted_ids(ids);
    lemma_increasing_unique(s, t);
}

/// Two increasing sequences with the same elements are equal.
pub proof fn lemma_increasing_unique(s: Seq<u64>, t: Seq<u64>)
    requires
        increasing(s),
        increasing(t),
        s.to_set() == t.to_set(),
    ensures
        s == t,
    decreases s.len(),
{
    broadcast use vstd::seq_lib::group_seq_properties;
    if s.len() == 0 {
        if t.len() > 0 {
            assert(t.to_set().contains(t[0]));
        }
        assert(t.len() == 0);
        assert(s =~= t);
    } else {
        assert(s.to_set().contains(s[0]));
        if t.len() == 0 {
            assert(t.to_set().contains(s[0]));
        }
        assert(t.to_set().contains(t[0]));
        assert(s.contains(t[0]));
        assert(t.contains(s[0]));
        let a = choose|i: int| 0 <= i < s.len() && s[i] == t[0];
        let b = choose|i: int| 0 <= i < t.len() && t[i] == s[0];
        assert(s[0] <= s[a]);
        assert(t[0] <= t[b]);
        assert(s[0] == t[0]);
        let s1 = s.drop_first();
        let t1 = t.drop_first();
        assert forall|x: u64| s1.to_set().contains(x) <==> t1.to_set().contains(x) by {
            if s1.to_set().contains(x) {
                assert(s1.contains(x));
                let i = choose|i: int| 0 <= i < s1.len() && s1[i] == x;
                assert(s[i + 1] == x);
                assert(s.to_set().contains(x));
                assert(t.contains(x));
                let j = choose|j: int| 0 <= j < t.len() && t[j] == x;
                assert(j != 0);
                assert(t1[j - 1] == x);
                assert(t1.contains(x));
            }
            if t1.to_set().contains(x) {
                assert(t1.contains(x));
                let i = choose|i: int| 0 <= i < t1.len() && t1[i] == x;
                assert(t[i + 1] == x);
                assert(t.to_set().contains(x));
                assert(s.contains(x));
                let j = choose|j: int| 0 <= j < s.len() && s[j] == x;
                assert(j != 0);
                assert(s1[j - 1] == x);
                assert(s1.contains(x));
            }
        }
        assert(s1.to_set() =~= t1.to_set());
        lemma_increasing_unique(s1, t1);
        assert(s =~= t);
    }
}

/// Every group of `config` is a finite set.
pub open spec fn groups_finite(config: Seq<Set<u64>>) -> bool {
    forall|i: int| 0 <= i < config.len() ==> #[trigger] config[i].finite()
}

/// The ids held by a `BTreeSet` form a finite set.
pub proof fn lemma_btree_set_finite(s: &BTreeSet<u64>)
    ensures
        s@.finite(),
{
    let keys = vstd::std_specs::btree::spec_btree_keys_iter(s).remaining().unref();
    vstd::seq_lib::seq_to_set_is_finite(keys);
}

/// A config made of `BTreeSet`s has finite groups.
pub proof fn lemma_config_finite(c: Seq<BTreeSet<u64>>)
    ensures
        groups_finite(config_view(c)),
{
    assert forall|i: int| 0 <= i < config_view(c).len() implies #[trigger] config_view(c)[i].finite() by {
        lemma_btree_set_finite(&c[i]);
    }
}

/// A config with finite groups has finitely many members.
pub proof fn lemma_members_finite(config: Seq<Set<u64>>)
    requires
        groups_finite(config),
    ensures
        all_members(config).finite(),
    decreases config.len(),
{
    if config.len() == 0 {
        assert(all_members(config) =~= Set::<u64>::empty());
    } else {
        let rest = config.drop_last();
        assert(groups_finite(rest)) by {
            assert forall|i: int| 0 <= i < rest.len() implies #[trigger] rest[i].finite() by {
                assert(rest[i] == config[i]);
            }
        }
        lemma_members_finite(rest);
        assert(config[config.len() - 1].finite());
        assert(all_members(config) =~= all_members(rest).union(config.last())) by {
            assert forall|x: u64| all_members(config).contains(x) implies all_members(rest).union(config.last()).contains(x) by {
                let i = choose|i: int| 0 <= i < config.len() && #[trigger] config[i].contains(x);
                if i < config.len() - 1 {
                    assert(rest[i].contains(x));
                }
            }
            assert forall|x: u64| all_members(rest).union(config.last()).contains(x) implies all_members(config).contains(x) by {
                if all_members(rest).contains(x) {
                    let i = choose|i: int| 0 <= i < rest.len() && #[trigger] rest[i].contains(x);
                    assert(config[i].contains(x));
                } else {
                    assert(config[config.len() - 1].contains(x));
                }
            }
        }
    }
}

/// A finite non-empty set of ids has a greatest element.
pub proof fn lemma_finite_max(s: Set<u64>) -> (m: u64)
    requires
        s.finite(),
        s.len() > 0,
    ensures
        s.contains(m),
        forall|x: u64| #[trigger] s.contains(x) ==> x <= m,
    decreases s.len(),
{
    let x = s.choose();
    assert(s.contains(x)) by {
        if !s.contains(x) {
            assert(s =~= Set::<u64>::empty());
        }
    }
    let rest = s.remove(x);
    if rest.len() == 0 {
        assert forall|y: u64| #[trigger] s.contains(y) implies y <= x by {
            if y != x {
                assert(rest.contains(y));
            }
        }
        x
    } else {
        let m = lemma_finite_max(rest);
        if m < x {
            assert forall|y: u64| #[trigger] s.contains(y) implies y <= x by {
                if y != x {
                    assert(rest.contains(y));
                }
            }
            x
        } else {
            assert forall|y: u64| #[trigger] s.contains(y) implies y <= m by {
                if y != x {
                    assert(rest.contains(y));
                }
            }
            m
        }
    }
}

/// Every finite set of ids has its increasing sequence, which `sorted_ids`
/// names.
pub proof fn lemma_sorted_ids_exists(s: Set<u64>)
    requires
        s.finite(),
    ensures
        increasing(sorted_ids(s)),
        sorted_ids(s).to_set() == s,
    decreases s.len(),
{
    broadcast use vstd::seq_lib::group_seq_properties;
    if s.len() == 0 {
        assert(s =~= Set::<u64>::empty());
        let e = Seq::<u64>::empty();
        assert(e.to_set() =~= s);
        lemma_sorted_ids_unique(e, s);
    } else {
        let m = lemma_finite_max(s);
        let rest = s.remove(m);
        lemma_sorted_ids_exists(rest);
        let q = sorted_ids(rest);
        let q2 = q.push(m);
        lemma_push_to_set(q, m);
        assert(q2.to_set() =~= s);
        assert forall|i: int, j: int| 0 <= i < j < q2.len() implies q2[i] < q2[j] by {
            if j == q.len() {
                assert(q.to_set().contains(q[i]));
                assert(rest.contains(q[i]));
            }
        }
        lemma_sorted_ids_unique(q2, s);
    }
}

/// Whether two sets of ids hold the same ids.
pub fn same_ids(a: &BTreeSet<u64>, b: &BTreeSet<u64>) -> (r: bool)
    ensures
        r == (a@ == b@),
{
    proof {
        lemma_btree_set_finite(a);
        lemma_btree_set_finite(b);
        assert(a@.len() == a.len());
        assert(b@.len() == b.len());
    }
    if a.len() != b.len() {
        return false;
    }
    let ghost keys = a.iter().remaining().unref();
    for x in it: a.iter()
        invariant
            keys == it.seq().unref(),
            keys.to_set() == a@,
            forall|j: int| 0 <= j < it.index() ==> b@.contains(#[trigger] keys[j]),
    {
        let ghost i = it.index();
        assert(keys[i] == *x);
        if !b.contains(x) {
            proof {
                assert(a@.contains(*x));
            }
            return false;
        }
    }
    proof {
        assert forall|x: u64| a@.contains(x) implies b@.contains(x) by {
            assert(keys.contains(x));
            let w = choose|w: int| 0 <= w < keys.len() && keys[w] == x;
            assert(b@.contains(keys[w]));
        }
        vstd::set_lib::lemma_subset_equality(a@, b@);
    }
    true
}

/// Whether two membership configs are made of the same groups.
pub fn same_config(a: &Vec<BTreeSet<u64>>, b: &Vec<BTreeSet<u64>>) -> (r: bool)
    ensures
        r == (config_view(a@) == config_view(b@)),
{
    if a.len() != b.len() {
        proof {
            assert(config_view(a@).len() != config_view(b@).len());
        }
        return false;
    }
    for i in 0..a.len()
        invariant
            a.len() == b.len(),
            forall|j: int| 0 <= j < i ==> #[trigger] config_view(a@)[j] == config_view(b@)[j],
    {
        if !same_ids(&a[i], &b[i]) {
            proof {
                assert(config_view(a@)[i as int] != config_view(b@)[i as int]);
            }
            return false;
        }
    }
    proof {
        assert(config_view(a@) =~= config_view(b@));
    }
    true
}

} // verus!
