use std::cmp::Ordering;

use one_file_raft::{LeaderId, LogId, Vote};

#[test]
fn leader_ids_compare_only_when_equal() {
    assert_eq!(LeaderId(1).partial_cmp(&LeaderId(1)), Some(Ordering::Equal));
    assert_eq!(LeaderId(1).partial_cmp(&LeaderId(2)), None);
    assert!(!(LeaderId(2) > LeaderId(1)));
    assert!(!(LeaderId(1) < LeaderId(2)));
    assert!(LeaderId(3) >= LeaderId(3));
}

#[test]
fn higher_term_wins() {
    let a = Vote::new(2, None, LeaderId(1));
    let b = Vote::new(1, Some(()), LeaderId(3));
    assert!(a > b);
    assert!(b < a);
    assert_eq!(a.partial_cmp(&b), Some(Ordering::Greater));
}

#[test]
fn committed_vote_wins_within_a_term() {
    let a = Vote::new(2, Some(()), LeaderId(1));
    let b = Vote::new(2, None, LeaderId(3));
    assert!(a > b);
    assert_eq!(b.partial_cmp(&a), Some(Ordering::Less));
}

#[test]
fn different_leaders_of_same_term_and_state_are_incomparable() {
    let a = Vote::new(2, None, LeaderId(1));
    let b = Vote::new(2, None, LeaderId(3));
    assert_eq!(a.partial_cmp(&b), None);
    assert!(!(a > b) && !(b > a) && a != b);
    let c = Vote::new(2, Some(()), LeaderId(1));
    let d = Vote::new(2, Some(()), LeaderId(3));
    assert_eq!(c.partial_cmp(&d), None);
}

#[test]
fn vote_equality_and_default() {
    assert_eq!(Vote::new(2, Some(()), LeaderId(1)), Vote::new(2, Some(()), LeaderId(1)));
    assert_ne!(Vote::new(2, Some(()), LeaderId(1)), Vote::new(2, None, LeaderId(1)));
    assert_eq!(Vote::default(), Vote::new(0, None, LeaderId(0)));
    assert_eq!(Vote::new(4, None, LeaderId(4)).partial_cmp(&Vote::new(4, None, LeaderId(4))), Some(Ordering::Equal));
}

#[test]
fn log_ids_order_by_term_then_index() {
    let a = LogId { term: 1, index: 9 };
    let b = LogId { term: 2, index: 1 };
    let c = LogId { term: 2, index: 3 };
    assert!(a < b);
    assert!(b < c);
    assert!(c >= c);
    assert_eq!(b.partial_cmp(&b), Some(Ordering::Equal));
    assert_eq!(LogId::default(), LogId { term: 0, index: 0 });
}

#[test]
fn texts_of_ids_and_votes() {
    assert_eq!(LeaderId(7).to_string(), "L(7)");
    assert_eq!(LogId { term: 3, index: 12 }.to_string(), "T3-12");
    assert_eq!(Vote::new(5, Some(()), LeaderId(2)).to_string(), "T5-COMMITTED-L(2)");
    assert_eq!(Vote::new(0, None, LeaderId(0)).to_string(), "T0-uncommitted-L(0)");
    assert_eq!(LogId { term: 18446744073709551615, index: 1000000 }.to_string(), "T18446744073709551615-1000000");
}
