use std::collections::BTreeSet;

use one_file_raft::{Log, LogId, Store};

fn btset(groups: &[&[u64]]) -> Vec<BTreeSet<u64>> {
    groups.iter().map(|g| g.iter().copied().collect()).collect()
}

fn log_id(term: u64, index: u64) -> LogId {
    LogId { term, index }
}

fn entry(term: u64, index: u64, config: Option<Vec<BTreeSet<u64>>>) -> Log {
    let mut l = Log::new(Some(format!("{}-{}", term, index)), config);
    l.log_id = log_id(term, index);
    l
}

#[test]
fn new_store_holds_the_zero_entry_and_initial_config() {
    let s = Store::<u64>::new(btset(&[&[1, 2]]));
    assert_eq!(s.logs.len(), 1);
    assert_eq!(s.last(), log_id(0, 0));
    assert_eq!(s.config(), &btset(&[&[1, 2]]));
    assert_eq!(s.last_config_index(), 0);
    assert!(s.replies.is_empty());
}

#[test]
fn appended_entries_are_read_back() {
    let mut s = Store::<u64>::new(btset(&[&[1, 2, 3]]));
    s.append(vec![entry(1, 1, None), entry(1, 2, None), entry(1, 3, None)]);
    assert_eq!(s.last(), log_id(1, 3));
    assert_eq!(s.get_log_id(2), Some(log_id(1, 2)));
    assert_eq!(s.get_log_id(4), None);
    let got = s.read_logs(2, 5);
    assert_eq!(got.iter().map(|l| l.log_id).collect::<Vec<_>>(), vec![log_id(1, 2), log_id(1, 3)]);
    assert_eq!(got[0].data.as_deref(), Some("1-2"));
    assert!(s.read_logs(1, 0).is_empty());
    assert!(s.read_logs(4, 3).is_empty());
    assert_eq!(s.read_logs(0, 1).len(), 1);
}

#[test]
fn appending_present_entries_changes_nothing() {
    let mut s = Store::<u64>::new(btset(&[&[1, 2, 3]]));
    s.append(vec![entry(1, 1, None), entry(1, 2, None)]);
    s.append(vec![entry(1, 1, None)]);
    assert_eq!(s.logs.len(), 3);
    assert_eq!(s.last(), log_id(1, 2));
}

#[test]
fn conflicting_entry_truncates_before_appending() {
    let mut s = Store::<u64>::new(btset(&[&[1, 2, 3]]));
    s.append(vec![entry(1, 1, None), entry(1, 2, Some(btset(&[&[1, 2]]))), entry(1, 3, None)]);
    assert_eq!(s.last_config_index(), 2);
    s.replies.insert(3, 33);
    s.append(vec![entry(2, 2, None)]);
    assert_eq!(s.logs.len(), 3);
    assert_eq!(s.last(), log_id(2, 2));
    assert_eq!(s.last_config_index(), 0);
    assert_eq!(s.config(), &btset(&[&[1, 2, 3]]));
    assert!(s.replies.is_empty());
}

#[test]
fn config_takes_effect_once_appended() {
    let mut s = Store::<u64>::new(btset(&[&[1, 2, 3]]));
    s.append(vec![entry(1, 1, Some(btset(&[&[1, 2, 3], &[4]])))]);
    assert_eq!(s.config(), &btset(&[&[1, 2, 3], &[4]]));
    assert_eq!(s.last_config_index(), 1);
}

#[test]
fn truncate_drops_entries_configs_and_replies_from_index() {
    let mut s = Store::<u64>::new(btset(&[&[1]]));
    s.append(vec![entry(1, 1, None), entry(1, 2, Some(btset(&[&[2]]))), entry(1, 3, None)]);
    s.replies.insert(1, 10);
    s.replies.insert(3, 30);
    s.truncate(log_id(1, 2));
    assert_eq!(s.logs.len(), 2);
    assert_eq!(s.config(), &btset(&[&[1]]));
    assert_eq!(s.replies.keys().copied().collect::<Vec<_>>(), vec![1]);
    // truncating past the end keeps the log
    s.truncate(log_id(9, 9));
    assert_eq!(s.logs.len(), 2);
}

#[test]
fn log_text_shows_what_the_entry_carries() {
    let mut noop = Log::default();
    noop.log_id = log_id(1, 1);
    assert_eq!(noop.to_string(), "Log(T1-1, noop))");
    assert_eq!(entry(2, 3, None).to_string(), "Log(T2-3, data:2-3)");
    let mut m = Log::new(None, Some(btset(&[&[1, 2, 3], &[1, 2, 3, 4]])));
    m.log_id = log_id(2, 4);
    assert_eq!(m.to_string(), "Log(T2-4, members:[{1, 2, 3}, {1, 2, 3, 4}])");
}

#[test]
fn cloned_log_is_equal() {
    let l = entry(3, 4, Some(btset(&[&[5, 6]])));
    let c = l.clone();
    assert_eq!(c.log_id, l.log_id);
    assert_eq!(c.data, l.data);
    assert_eq!(c.config, l.config);
}

#[test]
fn appending_the_same_entries_twice_equals_appending_once() {
    let mut s = Store::<u64>::new(btset(&[&[1, 2, 3]]));
    s.append(vec![entry(1, 1, None), entry(1, 2, None), entry(1, 3, None)]);
    let batch = vec![entry(2, 2, None), entry(2, 3, Some(btset(&[&[1, 2]]))), entry(2, 4, None)];
    s.append(batch.clone());
    let once: Vec<LogId> = s.logs.iter().map(|l| l.log_id).collect();
    let once_configs: Vec<u64> = s.configs.keys().copied().collect();
    s.append(batch);
    let twice: Vec<LogId> = s.logs.iter().map(|l| l.log_id).collect();
    assert_eq!(once, twice);
    assert_eq!(once, vec![log_id(0, 0), log_id(1, 1), log_id(2, 2), log_id(2, 3), log_id(2, 4)]);
    assert_eq!(s.configs.keys().copied().collect::<Vec<_>>(), once_configs);
}

#[test]
fn length_after_consecutive_append() {
    // every entry already held: the length stays
    let mut s = Store::<u64>::new(btset(&[&[1]]));
    s.append(vec![entry(1, 1, None), entry(1, 2, None), entry(1, 3, None)]);
    s.append(vec![entry(1, 1, None), entry(1, 2, None)]);
    assert_eq!(s.logs.len(), 4);
    // a conflict: the log ends right after the last received entry
    s.append(vec![entry(1, 1, None), entry(2, 2, None)]);
    assert_eq!(s.logs.len(), 3);
    // entries past the end: the log ends right after the last one
    s.append(vec![entry(2, 2, None), entry(2, 3, None), entry(2, 4, None)]);
    assert_eq!(s.logs.len(), 5);
}

#[test]
fn appended_entry_config_is_recorded_under_its_index() {
    let mut s = Store::<u64>::new(btset(&[&[1, 2, 3]]));
    s.append(vec![entry(1, 1, None), entry(1, 2, Some(btset(&[&[4, 5]]))), entry(1, 3, None)]);
    assert_eq!(s.configs.get(&2), Some(&btset(&[&[4, 5]])));
    assert_eq!(s.configs.get(&1), None);
    assert_eq!(s.configs.get(&3), None);
    assert!(s.is_well_formed());
}

#[test]
fn well_formed_store_check() {
    let mut s = Store::<u64>::new(btset(&[&[1, 2, 3]]));
    assert!(s.is_well_formed());
    s.append(vec![entry(1, 1, Some(btset(&[&[1, 2]]))), entry(1, 2, None)]);
    assert!(s.is_well_formed());
    // a recorded config that differs from the entry's own
    s.configs.insert(1, btset(&[&[7]]));
    assert!(!s.is_well_formed());
    s.configs.insert(1, btset(&[&[1, 2]]));
    assert!(s.is_well_formed());
    // a reply handle past the log
    s.replies.insert(9, 1);
    assert!(!s.is_well_formed());
    s.replies.remove(&9);
    // an entry out of place
    s.logs[2].log_id = log_id(1, 5);
    assert!(!s.is_well_formed());
    assert!(!Store::<u64> { id: 0, vote: Default::default(), configs: Default::default(), replies: Default::default(), logs: vec![] }.is_well_formed());
}
