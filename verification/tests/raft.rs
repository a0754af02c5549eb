use std::collections::{BTreeMap, BTreeSet, VecDeque};

use one_file_raft::commit::find_max_committed;
use one_file_raft::{Event, LeaderId, Log, LogId, Message, Progress, Raft, Reply, Request, Store, Vote};

fn btset(groups: &[&[u64]]) -> Vec<BTreeSet<u64>> {
    groups.iter().map(|g| g.iter().copied().collect()).collect()
}

fn log_id(term: u64, index: u64) -> LogId {
    LogId { term, index }
}

/// A cluster of nodes whose messages are delivered one at a time, in order.
struct Cluster {
    nodes: BTreeMap<u64, Raft<u64>>,
    queue: VecDeque<(u64, u64, Message)>,
    committed: BTreeMap<u64, u64>,
    next_token: u64,
}

impl Cluster {
    fn new(members: &[(u64, Vec<BTreeSet<u64>>)]) -> Self {
        let mut nodes = BTreeMap::new();
        for (id, config) in members {
            nodes.insert(*id, Raft::new(*id, Store::new(config.clone())));
        }
        Cluster { nodes, queue: VecDeque::new(), committed: BTreeMap::new(), next_token: 1000 }
    }

    fn collect(&mut self, id: u64) {
        let node = self.nodes.get_mut(&id).unwrap();
        for env in node.net.outbox.drain(..) {
            self.queue.push_back((env.from, env.target, env.msg));
        }
        for (index, token) in node.net.resolved.drain(..) {
            self.committed.insert(token, index);
        }
    }

    fn run(&mut self) {
        let mut steps = 0;
        while let Some((from, target, msg)) = self.queue.pop_front() {
            steps += 1;
            assert!(steps < 10_000, "the cluster does not settle");
            let ev = match msg {
                Message::Request(req) => Event::Request(req),
                Message::Reply(reply) => Event::Reply(reply),
                Message::Write(log) => {
                    self.next_token += 1;
                    Event::Write(self.next_token, log)
                },
            };
            self.nodes.get_mut(&target).unwrap().handle_event(from, ev);
            self.collect(target);
        }
    }

    fn elect(&mut self, id: u64) {
        self.nodes.get_mut(&id).unwrap().elect();
        self.collect(id);
        self.run();
        let vote = self.nodes[&id].sto.vote;
        assert_eq!(vote.voted_for, LeaderId(id));
        assert!(vote.committed.is_some());
    }

    fn write(&mut self, id: u64, token: u64, log: Log) -> u64 {
        let r = self.nodes.get_mut(&id).unwrap().handle_event(id, Event::Write(token, log));
        assert!(r.is_some());
        self.collect(id);
        self.run();
        *self.committed.get(&token).expect("the write commits")
    }
}

#[test]
fn test_raft() {
    let sto123 = btset(&[&[1, 2, 3]]);
    let mut c = Cluster::new(&[
        (1, sto123.clone()),
        (2, sto123.clone()),
        (3, sto123.clone()),
        (4, btset(&[&[]])),
    ]);

    c.elect(1);
    let i = c.write(1, 1, Log::new(Some("x=1".to_string()), None));
    assert_eq!(i, 2);

    c.elect(2);
    let i = c.write(2, 2, Log::new(None, Some(btset(&[&[1, 2, 3], &[1, 2, 3, 4]]))));
    assert_eq!(i, 4);
    let i = c.write(2, 3, Log::new(None, Some(btset(&[&[1, 2, 3, 4]]))));
    assert_eq!(i, 5);

    let m = c.nodes[&2].metrics();
    assert_eq!(m.vote, Vote::new(2, Some(()), LeaderId(2)));
    assert_eq!(m.last_log, log_id(2, 5));
    assert_eq!(m.commit, 5);
    assert_eq!(m.config, btset(&[&[1, 2, 3, 4]]));
    let ps = m.progresses.clone().unwrap();
    assert_eq!(ps.keys().copied().collect::<Vec<_>>(), vec![1, 2, 3, 4]);
    for p in ps.values() {
        assert_eq!(p.acked, log_id(2, 5));
    }
    // Node 4 joined and holds the whole log.
    assert_eq!(c.nodes[&4].sto.last(), log_id(2, 5));
    assert_eq!(c.nodes[&4].sto.config(), &btset(&[&[1, 2, 3, 4]]));
    // The old leader follows the new one.
    assert!(c.nodes[&1].leading.is_none());
    assert_eq!(c.nodes[&1].sto.vote, Vote::new(2, Some(()), LeaderId(2)));
    assert_eq!(
        m.to_string(),
        "Metrics(vote:T2-COMMITTED-L(2), last:T2-5, commit:5, config:[{1, 2, 3, 4}], progresses:{ \
         N1=([T2-5, 6), READY), N2=([T2-5, 5), busy), N3=([T2-5, 6), READY), N4=([T2-5, 6), READY) })"
    );
}

#[test]
fn elect_votes_for_itself_in_next_term_and_sends_to_every_member() {
    let mut n = Raft::<u64>::new(1, Store::new(btset(&[&[1, 2, 3]])));
    n.elect();
    assert_eq!(n.sto.vote, Vote::new(1, None, LeaderId(1)));
    let l = n.leading.as_ref().unwrap();
    assert_eq!(l.log_index_range, (1, 1));
    assert!(l.granted_by.is_empty());
    assert_eq!(l.progresses.keys().copied().collect::<Vec<_>>(), vec![1, 2, 3]);
    for p in l.progresses.values() {
        assert_eq!(p.acked, log_id(0, 0));
        assert_eq!(p.len, 1);
        assert_eq!(p.ready, None);
    }
    let targets: Vec<u64> = n.net.outbox.iter().map(|e| e.target).collect();
    assert_eq!(targets, vec![1, 2, 3]);
    for e in &n.net.outbox {
        assert_eq!(e.from, 1);
        match &e.msg {
            Message::Request(req) => {
                assert_eq!(req.vote, Vote::new(1, None, LeaderId(1)));
                assert_eq!(req.last_log_id, log_id(0, 0));
                assert_eq!(req.prev, log_id(0, 0));
                assert!(req.logs.is_empty());
                assert_eq!(req.commit, 0);
            },
            _ => panic!("elect sends requests"),
        }
    }
}

#[test]
fn write_is_refused_unless_leading_with_committed_vote() {
    let mut n = Raft::<u64>::new(1, Store::new(btset(&[&[1, 2, 3]])));
    assert_eq!(n.write(7, Log::new(Some("a".to_string()), None)), None);
    n.elect();
    assert_eq!(n.write(7, Log::new(Some("a".to_string()), None)), None);
    assert_eq!(n.sto.logs.len(), 1);
}

fn request(vote: Vote, last: LogId, prev: LogId, logs: Vec<Log>, commit: u64) -> Request {
    Request { vote, last_log_id: last, prev, logs, commit }
}

fn entry(term: u64, index: u64) -> Log {
    let mut l = Log::new(Some(format!("d{}", index)), None);
    l.log_id = log_id(term, index);
    l
}

#[test]
fn follower_appends_and_commits_granted_request() {
    let mut n = Raft::<u64>::new(2, Store::new(btset(&[&[1, 2, 3]])));
    let v = Vote::new(1, Some(()), LeaderId(1));
    let r = n.handle_replicate_req(request(v, log_id(1, 2), log_id(0, 0), vec![entry(1, 1), entry(1, 2)], 5));
    assert!(r.granted);
    assert_eq!(r.vote, v);
    assert_eq!(r.log, Ok(log_id(1, 2)));
    assert_eq!(n.sto.vote, v);
    assert_eq!(n.sto.last(), log_id(1, 2));
    assert_eq!(n.commit, 2);
    assert_eq!(n.sto.get_log_id(1), Some(log_id(1, 1)));
}

#[test]
fn follower_commit_is_bounded_by_leader_commit() {
    let mut n = Raft::<u64>::new(2, Store::new(btset(&[&[1, 2, 3]])));
    let v = Vote::new(1, Some(()), LeaderId(1));
    n.handle_replicate_req(request(v, log_id(1, 2), log_id(0, 0), vec![entry(1, 1), entry(1, 2)], 1));
    assert_eq!(n.commit, 1);
}

#[test]
fn request_with_lower_vote_or_older_log_is_denied() {
    let mut n = Raft::<u64>::new(2, Store::new(btset(&[&[1, 2, 3]])));
    let v2 = Vote::new(2, Some(()), LeaderId(3));
    n.handle_replicate_req(request(v2, log_id(2, 1), log_id(0, 0), vec![entry(2, 1)], 0));
    // a lower vote
    let v1 = Vote::new(1, Some(()), LeaderId(1));
    let r = n.handle_replicate_req(request(v1, log_id(1, 5), log_id(0, 0), vec![], 0));
    assert!(!r.granted);
    assert_eq!(r.vote, v2);
    assert_eq!(r.log, Err(2));
    // a greater vote but an older log
    let v3 = Vote::new(3, None, LeaderId(1));
    let r = n.handle_replicate_req(request(v3, log_id(1, 9), log_id(0, 0), vec![], 0));
    assert!(!r.granted);
    assert_eq!(r.vote, v3);
    assert_eq!(r.log, Err(2));
    assert_eq!(n.sto.vote, v3);
}

#[test]
fn mismatching_prev_truncates_the_log() {
    let mut n = Raft::<u64>::new(2, Store::new(btset(&[&[1, 2, 3]])));
    let v = Vote::new(1, Some(()), LeaderId(1));
    n.handle_replicate_req(request(v, log_id(1, 3), log_id(0, 0), vec![entry(1, 1), entry(1, 2), entry(1, 3)], 0));
    let v2 = Vote::new(2, Some(()), LeaderId(3));
    let r = n.handle_replicate_req(request(v2, log_id(2, 4), log_id(2, 2), vec![], 0));
    assert!(r.granted);
    assert_eq!(r.log, Err(2));
    assert_eq!(n.sto.logs.len(), 2);
    assert_eq!(n.sto.last(), log_id(1, 1));
}

#[test]
fn conflicting_entry_replaces_the_rest_of_the_log() {
    let mut n = Raft::<u64>::new(2, Store::new(btset(&[&[1, 2, 3]])));
    let v = Vote::new(1, Some(()), LeaderId(1));
    n.handle_replicate_req(request(v, log_id(1, 3), log_id(0, 0), vec![entry(1, 1), entry(1, 2), entry(1, 3)], 0));
    let v2 = Vote::new(2, Some(()), LeaderId(3));
    let r = n.handle_replicate_req(request(v2, log_id(2, 2), log_id(1, 1), vec![entry(2, 2)], 0));
    assert_eq!(r.log, Ok(log_id(2, 2)));
    assert_eq!(n.sto.logs.len(), 3);
    assert_eq!(n.sto.last(), log_id(2, 2));
    assert_eq!(n.sto.get_log_id(3), None);
}

#[test]
fn check_vote_adopts_greater_vote_and_quits_leading() {
    let mut n = Raft::<u64>::new(1, Store::new(btset(&[&[1, 2, 3]])));
    n.elect();
    assert!(n.leading.is_some());
    let mine = n.sto.vote;
    // an equal vote is granted and changes nothing
    assert_eq!(n.check_vote(mine), (true, mine));
    assert!(n.leading.is_some());
    // a smaller vote is not granted
    let older = Vote::new(0, Some(()), LeaderId(2));
    assert_eq!(n.check_vote(older), (false, mine));
    // an incomparable vote of the same term is not granted
    let rival = Vote::new(1, None, LeaderId(2));
    assert_eq!(n.check_vote(rival), (false, mine));
    // a greater vote of another leader is adopted and ends leadership
    let newer = Vote::new(2, None, LeaderId(3));
    assert_eq!(n.check_vote(newer), (true, newer));
    assert!(n.leading.is_none());
}

#[test]
fn reply_from_stale_term_only_checks_vote() {
    let mut n = Raft::<u64>::new(1, Store::new(btset(&[&[1, 2, 3]])));
    n.elect();
    let r = Reply { granted: false, vote: Vote::new(5, Some(()), LeaderId(3)), log: Err(1) };
    assert!(n.handle_replicate_reply(2, r).is_none());
    assert!(n.leading.is_none());
    assert_eq!(n.sto.vote, Vote::new(5, Some(()), LeaderId(3)));
}

#[test]
fn leader_is_established_by_quorum_and_proposes_noop() {
    let mut n = Raft::<u64>::new(1, Store::new(btset(&[&[1, 2, 3]])));
    n.elect();
    n.net.outbox.clear();
    let mine = n.sto.vote;
    n.handle_replicate_reply(1, Reply { granted: true, vote: mine, log: Ok(log_id(0, 0)) });
    assert!(n.sto.vote.committed.is_none());
    n.handle_replicate_reply(2, Reply { granted: true, vote: mine, log: Ok(log_id(0, 0)) });
    assert!(n.sto.vote.committed.is_some());
    let writes: Vec<_> = n
        .net
        .outbox
        .iter()
        .filter(|e| matches!(e.msg, Message::Write(_)))
        .map(|e| (e.from, e.target))
        .collect();
    assert_eq!(writes, vec![(1, 1)]);
}

#[test]
fn send_if_idle_sends_from_the_middle_and_marks_busy() {
    let mut n = Raft::<u64>::new(1, Store::new(btset(&[&[1, 2]])));
    n.elect();
    let mine = n.sto.vote;
    n.handle_replicate_reply(1, Reply { granted: true, vote: mine, log: Ok(log_id(0, 0)) });
    n.handle_replicate_reply(2, Reply { granted: true, vote: mine, log: Ok(log_id(0, 0)) });
    assert!(n.sto.vote.committed.is_some());
    for i in 0..4u64 {
        assert_eq!(n.write(i, Log::new(Some(format!("v{}", i)), None)), Some(log_id(1, i + 1)));
    }
    n.net.outbox.clear();
    // node 2 is busy: nothing is sent
    assert_eq!(n.send_if_idle(2, 3), None);
    assert!(n.net.outbox.is_empty());
    n.handle_replicate_reply(2, Reply { granted: true, vote: mine, log: Err(3) });
    let p = n.leading.as_ref().unwrap().progresses[&2];
    assert_eq!(p.acked, log_id(0, 0));
    assert_eq!(p.len, 1);
    // the reply keeps replication going from the middle of [0, 1)
    let last = n.net.outbox.last().unwrap();
    assert_eq!(last.target, 2);
    match &last.msg {
        Message::Request(req) => {
            assert_eq!(req.prev, log_id(0, 0));
            assert_eq!(req.logs.len(), 4);
            assert_eq!(req.logs[0].log_id, log_id(1, 1));
        },
        _ => panic!("a request is sent"),
    }
}

#[test]
fn commit_hands_out_replies_in_index_order() {
    let mut n = Raft::<u64>::new(1, Store::new(btset(&[&[1, 2, 3]])));
    n.elect();
    let mine = n.sto.vote;
    n.handle_replicate_reply(1, Reply { granted: true, vote: mine, log: Ok(log_id(0, 0)) });
    n.handle_replicate_reply(2, Reply { granted: true, vote: mine, log: Ok(log_id(0, 0)) });
    assert_eq!(n.write(10, Log::default()), Some(log_id(1, 1)));
    assert_eq!(n.write(20, Log::new(Some("b".to_string()), None)), Some(log_id(1, 2)));
    assert_eq!(n.write(30, Log::new(Some("c".to_string()), None)), Some(log_id(1, 3)));
    assert!(n.net.resolved.is_empty());
    // node 3 acknowledges everything: with the leader it is a quorum
    n.leading.as_mut().unwrap().progresses.get_mut(&3).unwrap().ready = None;
    n.handle_replicate_reply(3, Reply { granted: true, vote: mine, log: Ok(log_id(1, 2)) });
    assert_eq!(n.commit, 2);
    assert_eq!(n.net.resolved, vec![(1, 10), (2, 20)]);
    assert_eq!(n.sto.replies.keys().copied().collect::<Vec<_>>(), vec![3]);
}

#[test]
fn commit_needs_an_entry_of_the_current_term() {
    // entries of an older term are not committed on their own
    let mut n = Raft::<u64>::new(1, Store::new(btset(&[&[1, 2, 3]])));
    let old = Vote::new(1, Some(()), LeaderId(2));
    n.handle_replicate_req(request(old, log_id(1, 1), log_id(0, 0), vec![entry(1, 1)], 0));
    n.elect();
    let mine = n.sto.vote;
    n.handle_replicate_reply(2, Reply { granted: true, vote: mine, log: Ok(log_id(1, 1)) });
    assert_eq!(n.commit, 0);
}

#[test]
fn handle_event_answers_requests_back_to_the_sender() {
    let mut n = Raft::<u64>::new(2, Store::new(btset(&[&[1, 2, 3]])));
    let v = Vote::new(1, Some(()), LeaderId(1));
    let r = n.handle_event(1, Event::Request(request(v, log_id(0, 0), log_id(0, 0), vec![], 0)));
    assert_eq!(r, None);
    assert_eq!(n.net.outbox.len(), 1);
    let e = &n.net.outbox[0];
    assert_eq!((e.from, e.target), (2, 1));
    match &e.msg {
        Message::Reply(reply) => {
            assert!(reply.granted);
            assert_eq!(reply.log, Ok(log_id(0, 0)));
        },
        _ => panic!("a reply is sent"),
    }
}

#[test]
fn metrics_of_a_follower_have_no_progresses() {
    let n = Raft::<u64>::new(3, Store::new(btset(&[&[1, 2, 3]])));
    let m = n.metrics();
    assert_eq!(m.vote, Vote::default());
    assert_eq!(m.last_log, LogId::default());
    assert_eq!(m.commit, 0);
    assert_eq!(m.config, btset(&[&[1, 2, 3]]));
    assert!(m.progresses.is_none());
    assert_eq!(m.to_string(), "Metrics(vote:T0-uncommitted-L(0), last:T0-0, commit:0, config:[{1, 2, 3}])");
}

#[test]
fn commit_picks_the_greatest_entry_a_quorum_holds() {
    let mut n = Raft::<u64>::new(1, Store::new(btset(&[&[1, 2, 3]])));
    n.elect();
    let mine = n.sto.vote;
    n.handle_replicate_reply(1, Reply { granted: true, vote: mine, log: Ok(log_id(0, 0)) });
    n.handle_replicate_reply(2, Reply { granted: true, vote: mine, log: Ok(log_id(0, 0)) });
    for i in 1..=3u64 {
        assert_eq!(n.write(i, Log::new(Some(format!("v{}", i)), None)), Some(log_id(1, i)));
    }
    for t in [2u64, 3] {
        n.leading.as_mut().unwrap().progresses.get_mut(&t).unwrap().ready = None;
    }
    n.handle_replicate_reply(3, Reply { granted: true, vote: mine, log: Ok(log_id(1, 2)) });
    assert_eq!(n.commit, 2);
    // node 2 now holds everything: ids in node order are T1-3, T1-3, T1-2,
    // and the greatest entry held by a quorum is T1-3
    n.handle_replicate_reply(2, Reply { granted: true, vote: mine, log: Ok(log_id(1, 3)) });
    assert_eq!(n.commit, 3);
    assert_eq!(n.net.resolved, vec![(1, 1), (2, 2), (3, 3)]);
}

#[test]
fn vote_and_commit_only_move_forward_in_a_cluster() {
    let sto123 = btset(&[&[1, 2, 3]]);
    let mut c = Cluster::new(&[(1, sto123.clone()), (2, sto123.clone()), (3, sto123.clone())]);
    let mut last: BTreeMap<u64, (u64, u64)> = BTreeMap::new();
    for round in 0..3u64 {
        let leader = round % 3 + 1;
        c.elect(leader);
        c.write(leader, 100 + round, Log::new(Some(format!("r{}", round)), None));
        for (id, n) in &c.nodes {
            let now = (n.sto.vote.term, n.commit);
            if let Some(before) = last.get(id) {
                assert!(now.0 >= before.0 && now.1 >= before.1);
            }
            last.insert(*id, now);
        }
    }
    assert_eq!(c.nodes[&3].sto.vote, Vote::new(3, Some(()), LeaderId(3)));
}

#[test]
fn progress_search_range_shrinks() {
    let mut n = Raft::<u64>::new(1, Store::new(btset(&[&[1, 2]])));
    n.elect();
    let mine = n.sto.vote;
    n.handle_replicate_reply(1, Reply { granted: true, vote: mine, log: Ok(log_id(0, 0)) });
    // an acknowledgement raises both ends past the acknowledged entry
    n.handle_replicate_reply(2, Reply { granted: true, vote: mine, log: Ok(log_id(0, 0)) });
    let p = n.leading.as_ref().unwrap().progresses[&2];
    assert_eq!(p.acked, log_id(0, 0));
    assert_eq!(p.len, 1);
    assert!(p.ready.is_some() || n.net.outbox.iter().any(|e| e.target == 2));
}

#[test]
fn written_entry_is_read_back_from_the_leader_log() {
    let mut n = Raft::<u64>::new(1, Store::new(btset(&[&[1, 2, 3]])));
    n.elect();
    let mine = n.sto.vote;
    n.handle_replicate_reply(1, Reply { granted: true, vote: mine, log: Ok(log_id(0, 0)) });
    n.handle_replicate_reply(2, Reply { granted: true, vote: mine, log: Ok(log_id(0, 0)) });
    let id = n.write(42, Log::new(Some("k=v".to_string()), None)).unwrap();
    assert_eq!(id, log_id(1, 1));
    assert_eq!(n.sto.get_log_id(1), Some(id));
    assert_eq!(n.sto.logs[1].data.as_deref(), Some("k=v"));
    assert_eq!(n.sto.replies.get(&1), Some(&42));
    assert_eq!(n.leading.as_ref().unwrap().log_index_range, (1, 2));
}

#[test]
fn request_of_another_leader_ends_leadership() {
    let mut n = Raft::<u64>::new(1, Store::new(btset(&[&[1, 2, 3]])));
    n.elect();
    assert!(n.leading.is_some());
    let other = Vote::new(2, None, LeaderId(2));
    let r = n.handle_replicate_req(request(other, log_id(0, 0), log_id(0, 0), vec![], 0));
    assert!(r.granted);
    assert!(n.leading.is_none());
    assert_eq!(n.sto.vote, other);
}

#[test]
fn request_of_a_stale_leader_leaves_the_leader_alone() {
    let mut n = Raft::<u64>::new(1, Store::new(btset(&[&[1, 2, 3]])));
    n.elect();
    n.elect();
    let stale = Vote::new(1, Some(()), LeaderId(2));
    let r = n.handle_replicate_req(request(stale, log_id(0, 0), log_id(0, 0), vec![], 0));
    assert!(!r.granted);
    assert_eq!(r.log, Err(1));
    assert!(n.leading.is_some());
    assert_eq!(n.sto.vote, Vote::new(2, None, LeaderId(1)));
}

#[test]
fn membership_change_rebuilds_progresses() {
    let mut n = Raft::<u64>::new(1, Store::new(btset(&[&[1, 2, 3]])));
    n.elect();
    let mine = n.sto.vote;
    n.handle_replicate_reply(1, Reply { granted: true, vote: mine, log: Ok(log_id(0, 0)) });
    n.handle_replicate_reply(2, Reply { granted: true, vote: mine, log: Ok(log_id(0, 0)) });
    let id = n.write(1, Log::new(None, Some(btset(&[&[1, 2, 3], &[1, 2, 3, 4]])))).unwrap();
    assert_eq!(id, log_id(1, 1));
    assert_eq!(n.sto.config(), &btset(&[&[1, 2, 3], &[1, 2, 3, 4]]));
    let l = n.leading.as_ref().unwrap();
    assert_eq!(l.progresses.keys().copied().collect::<Vec<_>>(), vec![1, 2, 3, 4]);
    assert_eq!(l.progresses[&1].acked, log_id(1, 1));
    assert_eq!(l.progresses[&1].ready, None);
    // node 4 was new: it got a fresh progress and was sent a request
    assert!(n.net.outbox.iter().any(|e| e.target == 4));
}

#[test]
fn greatest_committable_entry_of_unsorted_progresses() {
    let mut ps = BTreeMap::new();
    ps.insert(1, Progress::new(log_id(2, 7), 8, None));
    ps.insert(2, Progress::new(log_id(2, 9), 10, Some(())));
    ps.insert(3, Progress::new(log_id(1, 4), 9, Some(())));
    ps.insert(4, Progress::new(log_id(2, 8), 9, Some(())));
    ps.insert(5, Progress::new(log_id(2, 5), 9, Some(())));
    let c = btset(&[&[1, 2, 3, 4, 5]]);
    // three of five hold T2-7 or later
    assert_eq!(find_max_committed(&ps, 5, &c), Some(log_id(2, 7)));
    // entries before the first entry of the leader's term are not committed
    assert_eq!(find_max_committed(&ps, 8, &c), None);
    assert_eq!(find_max_committed(&BTreeMap::new(), 0, &c), None);
}

#[test]
fn a_node_grants_one_leader_per_term() {
    let mut n = Raft::<u64>::new(3, Store::new(btset(&[&[1, 2, 3]])));
    let a = Vote::new(4, None, LeaderId(1));
    let b = Vote::new(4, None, LeaderId(2));
    assert!(n.handle_replicate_req(request(a, log_id(0, 0), log_id(0, 0), vec![], 0)).granted);
    let r = n.handle_replicate_req(request(b, log_id(0, 0), log_id(0, 0), vec![], 0));
    assert!(!r.granted);
    assert_eq!(r.vote, a);
    // the committed vote of the other leader of that term is accepted
    let b_committed = Vote::new(4, Some(()), LeaderId(2));
    assert!(n.handle_replicate_req(request(b_committed, log_id(0, 0), log_id(0, 0), vec![], 0)).granted);
}

/// A leader of `members` in term 1 whose vote is committed.
fn established(members: &[u64]) -> Raft<u64> {
    let mut n = Raft::<u64>::new(1, Store::new(btset(&[members])));
    n.elect();
    let mine = n.sto.vote;
    for id in members {
        n.handle_replicate_reply(*id, Reply { granted: true, vote: mine, log: Ok(log_id(0, 0)) });
    }
    assert!(n.sto.vote.committed.is_some());
    n.net.outbox.clear();
    assert_eq!(n.write(0, Log::default()), Some(log_id(1, 1)));
    n
}

fn requests_to(n: &Raft<u64>, from: usize, target: u64) -> usize {
    n.net.outbox[from..]
        .iter()
        .filter(|e| e.target == target && matches!(e.msg, Message::Request(_)))
        .count()
}

#[test]
fn ready_token_comes_back_unless_a_new_request_goes_out() {
    let mut n = established(&[1, 2, 3]);
    assert_eq!(n.write(7, Log::new(Some("x".to_string()), None)), Some(log_id(1, 2)));
    let mine = n.sto.vote;
    // node 2 has a request in flight
    assert!(n.leading.as_ref().unwrap().progresses[&2].ready.is_none());
    // it acknowledges only the first entry: a new request goes out, the token stays taken
    let before = n.net.outbox.len();
    n.handle_replicate_reply(2, Reply { granted: true, vote: mine, log: Ok(log_id(0, 0)) });
    assert_eq!(requests_to(&n, before, 2), 1);
    assert!(n.leading.as_ref().unwrap().progresses[&2].ready.is_none());
    // it acknowledges everything: nothing more to send, the token is back
    let before = n.net.outbox.len();
    n.handle_replicate_reply(2, Reply { granted: true, vote: mine, log: Ok(log_id(1, 2)) });
    assert_eq!(requests_to(&n, before, 2), 0);
    assert!(n.leading.as_ref().unwrap().progresses[&2].ready.is_some());
    // a denied reply of the same leader gives the token back too
    n.leading.as_mut().unwrap().progresses.get_mut(&3).unwrap().ready = None;
    let before = n.net.outbox.len();
    n.handle_replicate_reply(3, Reply { granted: false, vote: mine, log: Err(1) });
    assert_eq!(requests_to(&n, before, 3), 0);
    assert!(n.leading.as_ref().unwrap().progresses[&3].ready.is_some());
    assert!(n.leading.is_some());
}

#[test]
fn own_request_keeps_the_leader() {
    let mut n = established(&[1, 2, 3]);
    n.write(7, Log::new(Some("x".to_string()), None));
    let req = request(n.sto.vote, n.sto.last(), log_id(0, 0), n.sto.read_logs(1, 10), n.commit);
    let logs_before: Vec<LogId> = n.sto.logs.iter().map(|l| l.log_id).collect();
    let progresses_before = n.leading.as_ref().unwrap().progresses.clone();
    let outbox_before = n.net.outbox.len();
    let reply = n.handle_replicate_req(req);
    assert!(reply.granted);
    assert_eq!(reply.log, Ok(log_id(1, 2)));
    assert_eq!(n.sto.logs.iter().map(|l| l.log_id).collect::<Vec<_>>(), logs_before);
    assert_eq!(n.leading.as_ref().unwrap().progresses, progresses_before);
    assert_eq!(n.net.outbox.len(), outbox_before);
    assert!(n.is_leader_well_formed());
}

#[test]
fn commit_at_or_below_the_commit_index_changes_nothing() {
    let mut n = established(&[1, 2]);
    n.write(5, Log::new(Some("a".to_string()), None));
    let mine = n.sto.vote;
    n.handle_replicate_reply(2, Reply { granted: true, vote: mine, log: Ok(log_id(1, 2)) });
    assert_eq!(n.commit, 2);
    let resolved = n.net.resolved.clone();
    // a follower request carrying a lower commit index does not lower it
    let mut f = Raft::<u64>::new(2, Store::new(btset(&[&[1, 2]])));
    let r = f.handle_replicate_req(request(mine, log_id(1, 2), log_id(0, 0), n.sto.read_logs(1, 2), 2));
    assert!(r.granted);
    assert_eq!(f.commit, 2);
    f.handle_replicate_req(request(mine, log_id(1, 2), log_id(1, 2), vec![], 1));
    assert_eq!(f.commit, 2);
    assert_eq!(n.net.resolved, resolved);
}

#[test]
fn leader_well_formed_check() {
    let mut n = established(&[1, 2, 3]);
    assert!(n.is_leader_well_formed());
    n.leading.as_mut().unwrap().progresses.remove(&3);
    assert!(!n.is_leader_well_formed());
    let mut f = Raft::<u64>::new(2, Store::new(btset(&[&[1, 2, 3]])));
    assert!(f.is_leader_well_formed());
    f.sto.logs.clear();
    assert!(!f.is_leader_well_formed());
}

#[test]
fn acknowledgement_past_the_log_is_accepted() {
    let mut n = established(&[1, 2, 3]);
    let mine = n.sto.vote;
    n.leading.as_mut().unwrap().progresses.get_mut(&2).unwrap().ready = None;
    let before = n.net.outbox.len();
    n.handle_replicate_reply(2, Reply { granted: true, vote: mine, log: Ok(log_id(1, 9)) });
    let p = n.leading.as_ref().unwrap().progresses[&2];
    assert_eq!(p.acked, log_id(1, 9));
    assert_eq!(p.len, 10);
    assert_eq!(requests_to(&n, before, 2), 0);
}
