use std::collections::BTreeSet;

use one_file_raft::quorum::{is_quorum, node_ids, same_config, same_ids};

fn config(groups: &[&[u64]]) -> Vec<BTreeSet<u64>> {
    groups.iter().map(|g| g.iter().copied().collect()).collect()
}

fn set(ids: &[u64]) -> BTreeSet<u64> {
    ids.iter().copied().collect()
}

#[test]
fn quorum_needs_strict_majority_of_single_group() {
    let c = config(&[&[1, 2, 3]]);
    assert!(!is_quorum(&c, &set(&[])));
    assert!(!is_quorum(&c, &set(&[1])));
    assert!(is_quorum(&c, &set(&[1, 2])));
    assert!(is_quorum(&c, &set(&[2, 3])));
    assert!(is_quorum(&c, &set(&[1, 2, 3])));
    assert!(!is_quorum(&c, &set(&[4, 5, 6])));
}

#[test]
fn quorum_of_even_group_needs_more_than_half() {
    let c = config(&[&[1, 2, 3, 4]]);
    assert!(!is_quorum(&c, &set(&[1, 2])));
    assert!(is_quorum(&c, &set(&[1, 2, 3])));
}

#[test]
fn joint_quorum_needs_majority_of_every_group() {
    let c = config(&[&[1, 2, 3], &[1, 2, 3, 4]]);
    assert!(!is_quorum(&c, &set(&[1, 2])));
    assert!(is_quorum(&c, &set(&[1, 2, 4])));
    assert!(is_quorum(&c, &set(&[2, 3, 4])));
    let c2 = config(&[&[1, 2, 3], &[4, 5, 6]]);
    assert!(!is_quorum(&c2, &set(&[1, 2, 3])));
    assert!(is_quorum(&c2, &set(&[1, 2, 4, 5])));
}

#[test]
fn empty_group_is_never_granted_and_empty_config_always_is() {
    assert!(!is_quorum(&config(&[&[]]), &set(&[1, 2, 3])));
    assert!(is_quorum(&config(&[]), &set(&[])));
}

#[test]
fn node_ids_are_the_sorted_union_without_duplicates() {
    let c = config(&[&[3, 1, 2], &[2, 4, 1]]);
    assert_eq!(node_ids(&c), vec![1, 2, 3, 4]);
    assert_eq!(node_ids(&config(&[])), Vec::<u64>::new());
    assert_eq!(node_ids(&config(&[&[], &[7]])), vec![7]);
}

#[test]
fn two_quorums_share_a_member_of_every_group() {
    let c = config(&[&[1, 2, 3], &[3, 4, 5, 6]]);
    let a = set(&[1, 2, 4, 5, 6]);
    let b = set(&[2, 3, 4, 5]);
    assert!(is_quorum(&c, &a));
    assert!(is_quorum(&c, &b));
    for g in &c {
        assert!(g.iter().any(|x| a.contains(x) && b.contains(x)));
    }
    // adding members keeps a quorum
    let mut bigger = a.clone();
    bigger.insert(3);
    assert!(is_quorum(&c, &bigger));
}

#[test]
fn same_ids_and_same_config_compare_contents() {
    let a: BTreeSet<u64> = [1, 2, 3].into_iter().collect();
    let b: BTreeSet<u64> = [3, 2, 1].into_iter().collect();
    let c: BTreeSet<u64> = [1, 2, 4].into_iter().collect();
    assert!(same_ids(&a, &b));
    assert!(!same_ids(&a, &c));
    assert!(!same_ids(&a, &BTreeSet::new()));
    assert!(same_config(&vec![a.clone(), c.clone()], &vec![b.clone(), c.clone()]));
    assert!(!same_config(&vec![a.clone(), c.clone()], &vec![c.clone(), a.clone()]));
    assert!(!same_config(&vec![a.clone()], &vec![a.clone(), a.clone()]));
}
