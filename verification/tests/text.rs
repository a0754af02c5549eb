use std::collections::{BTreeMap, BTreeSet};

use one_file_raft::text::{config_to_string, group_to_string, progresses_to_string, u64_text};
use one_file_raft::{Display, LeaderId, Log, LogId, Progress, Reply, Request, Vote};

#[test]
fn decimal_texts() {
    assert_eq!(u64_text(0), "0");
    assert_eq!(u64_text(9), "9");
    assert_eq!(u64_text(10), "10");
    assert_eq!(u64_text(1234567890), "1234567890");
    assert_eq!(u64_text(u64::MAX), "18446744073709551615");
}

#[test]
fn group_and_config_texts() {
    let g: BTreeSet<u64> = [3, 1, 2].into_iter().collect();
    assert_eq!(group_to_string(&g), "{1, 2, 3}");
    assert_eq!(group_to_string(&BTreeSet::new()), "{}");
    let c = vec![g.clone(), [4].into_iter().collect()];
    assert_eq!(config_to_string(&c), "[{1, 2, 3}, {4}]");
    assert_eq!(config_to_string(&vec![]), "[]");
    assert_eq!(Display::new(&c).to_string(), "[{1, 2, 3}, {4}]");
    assert_eq!(Display::new(&g).to_string(), "{1, 2, 3}");
}

#[test]
fn progress_texts() {
    let p = Progress::new(LogId { term: 1, index: 2 }, 5, Some(()));
    assert_eq!(p.to_string(), "([T1-2, 5), READY)");
    let q = Progress::new(LogId { term: 0, index: 0 }, 0, None);
    assert_eq!(q.to_string(), "([T0-0, 0), busy)");
    assert_eq!(Progress::default().to_string(), "([T0-0, 0), READY)");
    let mut m = BTreeMap::new();
    m.insert(2, q);
    m.insert(1, p);
    assert_eq!(progresses_to_string(&m), "{1=([T1-2, 5), READY), 2=([T0-0, 0), busy)}");
    assert_eq!(Display::new(&m).to_string(), "{1=([T1-2, 5), READY), 2=([T0-0, 0), busy)}");
}

#[test]
fn reply_texts() {
    let v = Vote::new(1, Some(()), LeaderId(1));
    let ok = Reply { granted: true, vote: v, log: Ok(LogId { term: 1, index: 4 }) };
    assert_eq!(ok.to_string(), "(granted, vote:T1-COMMITTED-L(1), Ack(T1-4))");
    let no = Reply { granted: false, vote: v, log: Err(7) };
    assert_eq!(no.to_string(), "(denied, vote:T1-COMMITTED-L(1), Conflict(7))");
    let r: Result<LogId, u64> = Ok(LogId { term: 2, index: 3 });
    assert_eq!(Display::new(&r).to_string(), "Ok(T2-3)");
    let e: Result<LogId, u64> = Err(5);
    assert_eq!(Display::new(&e).to_string(), "Err(5)");
}

#[test]
fn request_texts() {
    let mut a = Log::new(Some("x=1".to_string()), None);
    a.log_id = LogId { term: 1, index: 2 };
    let mut b = Log::default();
    b.log_id = LogId { term: 1, index: 3 };
    let req = Request {
        vote: Vote::new(1, Some(()), LeaderId(1)),
        last_log_id: LogId { term: 1, index: 3 },
        prev: LogId { term: 1, index: 1 },
        logs: vec![a, b],
        commit: 1,
    };
    assert_eq!(
        req.to_string(),
        "(vote:T1-COMMITTED-L(1), last:T1-3 commit:1 logs:T1-1<Log(T1-2, data:x=1),Log(T1-3, noop)))"
    );
    let empty = Request {
        vote: Vote::default(),
        last_log_id: LogId::default(),
        prev: LogId::default(),
        logs: vec![],
        commit: 0,
    };
    assert_eq!(empty.to_string(), "(vote:T0-uncommitted-L(0), last:T0-0 commit:0 logs:T0-0<)");
}
