use std::collections::BTreeSet;

use bytes::Bytes;
use rand_chacha::ChaChaRng;
use rand_core::SeedableRng;

use redisless::raft::log::memory::InMemoryLog;
use redisless::raft::log::{Log, LogState};
use redisless::raft::message::{
    AppendRequest, AppendResponse, LogEntry, LogIndex, Message, MessageDestination, Rpc,
    SendableMessage, TermId, VoteRequest, VoteResponse,
};
use redisless::raft::node::{AppendError, Config, Node};
use redisless::raft::state::{election_timeout_from, quorum_size, State};

type TestRaft = State<InMemoryLog, ChaChaRng>;
type TestNode = Node<InMemoryLog, ChaChaRng>;

fn config(chunk: usize) -> Config {
    Config { election_timeout_ticks: 10, heartbeat_interval_ticks: 9, replication_chunk_size: chunk }
}

fn peers(ids: &[u64]) -> BTreeSet<u64> {
    ids.iter().cloned().collect()
}

fn state(node_id: u64, ids: &[u64], log: InMemoryLog, chunk: usize) -> TestRaft {
    State::new(node_id, peers(ids), log, ChaChaRng::seed_from_u64(node_id), config(chunk))
}

fn node(node_id: u64, ids: &[u64]) -> TestNode {
    Node::new(
        node_id,
        peers(ids),
        InMemoryLog::new_unbounded(),
        ChaChaRng::seed_from_u64(node_id),
        config(1024),
    )
}

fn entry(term: u64, data: &'static [u8]) -> LogEntry {
    LogEntry { term: TermId { id: term }, data: Bytes::from_static(data) }
}

fn message(term: u64, rpc: Rpc) -> Message {
    Message { term: TermId { id: term }, rpc: Some(rpc) }
}

fn vote(granted: bool) -> Rpc {
    Rpc::VoteResponse(VoteResponse { vote_granted: granted })
}

fn taken(raft: &mut TestRaft) -> Vec<LogEntry> {
    let mut committed = raft.take_committed();
    let mut entries = Vec::new();
    while let Some(entry) = committed.next() {
        entries.push(entry);
    }
    entries
}

fn append_request(message: &SendableMessage) -> AppendRequest {
    match &message.message.rpc {
        Some(Rpc::AppendRequest(request)) => request.clone(),
        other => panic!("no request to append: {:?}", other),
    }
}

fn append_response(message: &SendableMessage) -> AppendResponse {
    match &message.message.rpc {
        Some(Rpc::AppendResponse(response)) => *response,
        other => panic!("no answer to a request to append: {:?}", other),
    }
}

/// A leader of term 1 with one peer, 2, that has answered nothing yet.
fn leader_of_two(log: InMemoryLog, chunk: usize) -> TestRaft {
    let mut raft = state(1, &[1, 2], log, chunk);
    let request = raft.timeout().unwrap();
    let term = request.message.term;
    raft.receive(Message { term, rpc: Some(vote(true)) }, 2);
    assert!(raft.is_leader());
    raft
}

fn test_entries() -> [LogEntry; 5] {
    [
        entry(1, &[]),
        entry(1, &[2; 1]),
        entry(2, &[3; 2]),
        entry(9, &[4; 100]),
        entry(u64::MAX, &[5; 100]),
    ]
}

fn verify_log(log: &mut InMemoryLog, entries: &[LogEntry], prev: u64, last: u64) {
    assert_eq!(log.prev_index(), LogIndex { id: prev });
    assert_eq!(log.get(LogIndex::default()), None);
    assert_eq!(log.get_len(LogIndex::default()), None);
    assert_eq!(log.get(LogIndex { id: prev }), None);
    let prev_term = if prev == 0 { TermId::default() } else { entries[prev as usize - 1].term };
    assert_eq!(log.get_term(LogIndex { id: prev }), Some(prev_term));
    assert_eq!(log.last_index(), LogIndex { id: last });
    let last_term = if last == 0 { TermId::default() } else { entries[last as usize - 1].term };
    assert_eq!(log.last_term(), last_term);
    for index in 0..=(entries.len() as u64 + 1) {
        let expected = if prev < index && index <= last {
            Some(entries[index as usize - 1].clone())
        } else {
            None
        };
        assert_eq!(log.get(LogIndex { id: index }), expected);
        if index != prev {
            assert_eq!(
                log.get_term(LogIndex { id: index }),
                expected.as_ref().map(|entry| entry.term)
            );
        }
        assert_eq!(
            log.get_len(LogIndex { id: index }),
            expected.as_ref().map(|entry| log.entry_len(entry))
        );
    }
}

#[test]
pub fn test_log_empty() {
    let mut log = InMemoryLog::new_unbounded();
    verify_log(&mut log, &[], 0, 0);
    assert_eq!(log.last_taken_index(), LogIndex { id: 0 });
    assert_eq!(log.take_next(), None);
}

#[test]
pub fn test_log_append() {
    let mut log = InMemoryLog::new_unbounded();
    let entries = test_entries();
    for (index, entry) in entries.iter().cloned().enumerate() {
        log.append(entry).unwrap();
        verify_log(&mut log, &entries, 0, 1 + index as u64);
    }
}

#[test]
pub fn test_log_cancel_from() {
    let mut log = InMemoryLog::new_unbounded();
    let entries = test_entries();
    for entry in entries.iter().cloned() {
        log.append(entry).unwrap();
    }
    for &truncate_len in &[1u64, 2, 1] {
        let last = log.last_index();
        log.cancel_from(last.plus(2)).unwrap_err();
        assert_eq!(log.cancel_from(last.plus(1)), Ok(0));
        verify_log(&mut log, &entries, 0, last.id);
        assert_eq!(log.cancel_from(last.plus(1).minus(truncate_len)), Ok(truncate_len as usize));
        verify_log(&mut log, &entries, 0, last.id - truncate_len);
    }
    log.cancel_from(log.last_index().plus(2)).unwrap_err();
    assert_eq!(log.last_index(), LogIndex { id: 1 });
}

#[test]
pub fn log_keeps_what_was_taken_from_being_cancelled() {
    let mut log = InMemoryLog::new_unbounded();
    for entry in test_entries().iter().cloned() {
        log.append(entry).unwrap();
    }
    assert_eq!(log.take_next(), Some(entry(1, &[])));
    assert_eq!(log.take_next(), Some(entry(1, &[2; 1])));
    assert_eq!(log.last_taken_index(), LogIndex { id: 2 });
    log.cancel_from(LogIndex { id: 0 }).unwrap_err();
    log.cancel_from(LogIndex { id: 1 }).unwrap_err();
    log.cancel_from(LogIndex { id: 2 }).unwrap_err();
    assert_eq!(log.last_index(), LogIndex { id: 5 });
    assert_eq!(log.cancel_from(LogIndex { id: 3 }), Ok(3));
    assert_eq!(log.last_index(), LogIndex { id: 2 });
    assert_eq!(log.take_next(), None);
}

#[test]
pub fn bounded_log_discards_taken_entries_only() {
    let mut log = InMemoryLog::with_capacity(4, 5);
    log.append(entry(1, &[1; 2])).unwrap();
    log.append(entry(2, &[2; 3])).unwrap();
    // Nothing was taken, so nothing may go.
    log.append(entry(3, &[3; 1])).unwrap_err();
    assert_eq!(log.prev_index(), LogIndex { id: 0 });
    assert_eq!(log.last_index(), LogIndex { id: 2 });
    // More than the log holds at all.
    log.append(entry(3, &[3; 6])).unwrap_err();
    assert_eq!(log.take_next(), Some(entry(1, &[1; 2])));
    // The first entry makes room for two bytes, and stays known by its term.
    log.append(entry(3, &[3; 2])).unwrap();
    assert_eq!(log.prev_index(), LogIndex { id: 1 });
    assert_eq!(log.prev_term(), TermId { id: 1 });
    assert_eq!(log.get_term(LogIndex { id: 1 }), Some(TermId { id: 1 }));
    assert_eq!(log.get(LogIndex { id: 1 }), None);
    assert_eq!(log.last_index(), LogIndex { id: 3 });
    assert_eq!(log.last_term(), TermId { id: 3 });
    assert_eq!(log.get(LogIndex { id: 3 }), Some(entry(3, &[3; 2])));
    // The second entry was not taken: it stays, and the append fails.
    log.append(entry(4, &[4; 1])).unwrap_err();
    assert_eq!(log.prev_index(), LogIndex { id: 1 });
    assert_eq!(log.take_next(), Some(entry(2, &[2; 3])));
    assert_eq!(log.take_next(), Some(entry(3, &[3; 2])));
    assert_eq!(log.take_next(), None);
    // Both go for an entry that fills the log.
    log.append(entry(5, &[5; 5])).unwrap();
    assert_eq!(log.prev_index(), LogIndex { id: 3 });
    assert_eq!(log.prev_term(), TermId { id: 3 });
    assert_eq!(log.last_index(), LogIndex { id: 4 });
}

#[test]
pub fn entry_len_is_four_more_than_the_data() {
    let log = InMemoryLog::new_unbounded();
    assert_eq!(log.entry_len(&entry(1, &[])), 4);
    assert_eq!(log.entry_len(&entry(1, &[7; 10])), 14);
    assert_eq!(LogEntry::default().data.len(), 0);
    assert_eq!(LogEntry::default().term, TermId { id: 0 });
    let first = entry(3, &[1, 2, 3]);
    let copy = first.clone();
    assert_eq!(copy, first);
    assert_eq!(copy.data, Bytes::from_static(&[1, 2, 3]));
}

#[test]
pub fn log_state_hands_index_zero_out_as_nothing() {
    let mut log = InMemoryLog::new_unbounded();
    log.append(entry(7, &[1])).unwrap();
    let mut state = LogState::new(log);
    assert_eq!(state.get(LogIndex { id: 0 }), None);
    assert_eq!(state.get_term(LogIndex { id: 0 }), Some(TermId { id: 0 }));
    assert_eq!(state.get_term(LogIndex { id: 1 }), Some(TermId { id: 7 }));
    assert_eq!(state.get_term(LogIndex { id: 2 }), None);
    assert_eq!(state.get_len(LogIndex { id: 1 }), Some(5));
    assert_eq!(state.get_len(LogIndex { id: 2 }), None);
    assert_eq!(state.last_index(), LogIndex { id: 1 });
    assert_eq!(state.last_term(), TermId { id: 7 });
    assert_eq!(state.prev_index(), LogIndex { id: 0 });
    assert_eq!(state.prev_term(), TermId { id: 0 });
    assert_eq!(state.entry_len(&entry(1, &[0; 3])), 7);
    // Nothing is committed, so nothing is handed out.
    let mut committed = state.take_committed();
    assert_eq!(committed.size_hint(), (0, Some(0)));
    assert_eq!(committed.next(), None);
    state.commit_idx = LogIndex { id: 1 };
    let mut committed = state.take_committed();
    assert_eq!(committed.size_hint(), (1, Some(1)));
    assert_eq!(committed.next(), Some(entry(7, &[1])));
    assert_eq!(committed.next(), None);
    assert_eq!(state.log().last_taken_index(), LogIndex { id: 1 });
    assert_eq!(state.cancel_from(LogIndex { id: 1 }).map_err(drop), Err(()));
    state.append(entry(8, &[2])).unwrap();
    assert_eq!(state.cancel_from(LogIndex { id: 2 }), Ok(1));
    assert_eq!(state.log_mut().last_index(), LogIndex { id: 1 });
}

#[test]
pub fn quorum_is_more_than_half_of_the_group() {
    assert_eq!(quorum_size(0), 1);
    assert_eq!(quorum_size(1), 2);
    assert_eq!(quorum_size(2), 2);
    assert_eq!(quorum_size(3), 3);
    assert_eq!(quorum_size(4), 3);
    assert_eq!(quorum_size(5), 4);
    assert_eq!(quorum_size(usize::MAX - 1), usize::MAX / 2 + 1);
    assert_eq!(quorum_size(usize::MAX), usize::MAX / 2 + 1);
}

#[test]
pub fn election_timeout_is_the_base_and_a_remainder() {
    assert_eq!(election_timeout_from(0, 10), 10);
    assert_eq!(election_timeout_from(7, 10), 17);
    assert_eq!(election_timeout_from(9, 10), 19);
    assert_eq!(election_timeout_from(25, 10), 15);
    assert_eq!(election_timeout_from(12345, 1), 1);
    assert_eq!(election_timeout_from(12345, 0), 0);
    assert_eq!(election_timeout_from(u32::MAX - 1, u32::MAX), u32::MAX);
}

#[test]
pub fn log_index_arithmetic() {
    assert_eq!(LogIndex { id: 5 }.checked_sub(2), Some(LogIndex { id: 3 }));
    assert_eq!(LogIndex { id: 5 }.checked_sub(5), Some(LogIndex { id: 0 }));
    assert_eq!(LogIndex { id: 5 }.checked_sub(6), None);
    assert_eq!(LogIndex { id: 5 }.minus(2), LogIndex { id: 3 });
    assert_eq!(LogIndex { id: 5 }.minus(9), LogIndex { id: 0 });
    assert_eq!(LogIndex { id: 5 }.plus(2), LogIndex { id: 7 });
    let mut term = TermId { id: 41 };
    term.add_assign(1);
    assert_eq!(term, TermId { id: 42 });
    assert!(TermId { id: 41 } < term);
    assert!(LogIndex { id: 7 } > LogIndex { id: 5 });
    assert_eq!(LogIndex { id: 7 }.max(LogIndex { id: 9 }), LogIndex { id: 9 });
}

#[test]
pub fn election_starts_between_the_base_and_twice_the_base() {
    for seed in 0..50u64 {
        let mut raft = State::new(
            1,
            peers(&[2, 3]),
            InMemoryLog::new_unbounded(),
            ChaChaRng::seed_from_u64(seed),
            config(1024),
        );
        let mut ticks = 0;
        loop {
            ticks += 1;
            if raft.timer_tick().is_some() {
                break;
            }
            assert!(ticks < 20);
        }
        assert!(10 <= ticks && ticks <= 19, "timeout after {} ticks", ticks);
        assert_eq!(raft.leader(), (None, &TermId { id: 1 }));
    }
}

#[test]
pub fn self_among_the_peers_makes_no_difference() {
    let with = state(1, &[1, 2, 3], InMemoryLog::new_unbounded(), 1024);
    let without = state(1, &[2, 3], InMemoryLog::new_unbounded(), 1024);
    assert_eq!(with.peers(), without.peers());
    assert_eq!(with.peers(), &peers(&[2, 3]));
    assert_eq!(with.peer_order(), &vec![2, 3]);
    assert_eq!(without.peer_order(), &vec![2, 3]);
    assert_eq!(with.node_id(), without.node_id());
    assert_eq!(with.leader(), without.leader());
    assert_eq!(with.config(), without.config());
    assert_eq!(with.commit_idx(), &LogIndex { id: 0 });
}

#[test]
pub fn single_node_commits_at_once() {
    let mut raft = state(1, &[1], InMemoryLog::new_unbounded(), 1024);
    let mut ticks = 0;
    while !raft.is_leader() {
        assert!(raft.timer_tick().is_none());
        ticks += 1;
        assert!(ticks < 20);
    }
    assert_eq!(raft.leader(), (Some(&1), &TermId { id: 1 }));
    assert!(raft.client_request(Bytes::from("one")).is_ok());
    assert_eq!(raft.commit_idx(), &LogIndex { id: 2 });
    let committed = taken(&mut raft);
    assert_eq!(committed, vec![entry(1, &[]), entry(1, b"one")]);
    assert!(committed[0].data.is_empty());
    // No entry is handed out twice.
    assert_eq!(taken(&mut raft), vec![]);
    assert!(raft.client_request(Bytes::from("two")).is_ok());
    assert_eq!(taken(&mut raft), vec![entry(1, b"two")]);
}

#[test]
pub fn three_nodes_commit_what_the_leader_appends() {
    let ids = [1u64, 2, 3];
    let mut nodes: Vec<TestNode> = ids.iter().map(|id| node(*id, &ids)).collect();
    let mut inbox: Vec<(u64, SendableMessage)> = Vec::new();
    while !nodes[0].is_leader() {
        assert!(nodes[0].can_tick());
        for sendable in nodes[0].timer_tick() {
            inbox.push((1, sendable));
        }
        deliver(&mut nodes, &mut inbox);
    }
    let messages = match nodes[0].append(Bytes::from("hello")) {
        Ok(messages) => messages,
        Err(_) => panic!("the leader appends"),
    };
    for sendable in messages {
        inbox.push((1, sendable));
    }
    deliver(&mut nodes, &mut inbox);
    // The followers learn of the commit with the next request of the leader.
    for _ in 0..10 {
        for index in 0..nodes.len() {
            let from = ids[index];
            for sendable in nodes[index].timer_tick() {
                inbox.push((from, sendable));
            }
        }
        deliver(&mut nodes, &mut inbox);
    }
    for node in nodes.iter_mut() {
        assert_eq!(node.last_committed_log_index(), LogIndex { id: 2 });
        let mut committed = node.take_committed();
        let noop = committed.next().unwrap();
        assert!(noop.data.is_empty());
        assert_eq!(committed.next().unwrap().data, "hello");
        assert_eq!(committed.next(), None);
    }
    assert_eq!(nodes[1].leader(), (Some(&1), nodes[0].leader().1));
    assert!(matches!(
        nodes[1].append(Bytes::from("elsewhere")),
        Err(AppendError::Cancelled { data }) if data == "elsewhere"
    ));
}

fn deliver(nodes: &mut Vec<TestNode>, inbox: &mut Vec<(u64, SendableMessage)>) {
    while !inbox.is_empty() {
        let (from, sendable) = inbox.remove(0);
        for node in nodes.iter_mut() {
            let to = *node.node_id();
            let addressed = match sendable.dest {
                MessageDestination::Broadcast => to != from,
                MessageDestination::To(id) => to == id,
            };
            if addressed {
                assert!(node.accepts(&sendable.message, from));
                for reply in node.receive(sendable.message.clone(), from) {
                    inbox.push((to, reply));
                }
            }
        }
    }
}

#[test]
pub fn probing_steps_back_to_the_end_of_the_peers_log() {
    let mut log = InMemoryLog::new_unbounded();
    for _ in 0..999 {
        log.append(entry(1, &[0; 8])).unwrap();
    }
    // A chunk too small for any entry keeps the probe from stepping back further.
    let mut leader = leader_of_two(log, 3);
    let term = *leader.leader().1;
    assert_eq!(leader.replication_state(&2).unwrap().next_idx, LogIndex { id: 1000 });
    let first = leader.append_entries(2).unwrap();
    assert_eq!(first.dest, MessageDestination::To(2));
    let request = append_request(&first);
    assert_eq!(request.prev_log_idx, LogIndex { id: 999 });
    assert_eq!(request.prev_log_term, TermId { id: 1 });
    assert_eq!(request.entries.len(), 1);
    assert_eq!(leader.replication_state(&2).unwrap().inflight, Some(LogIndex { id: 1000 }));
    assert!(leader.append_entries(2).is_none());

    let rejection = Rpc::AppendResponse(AppendResponse {
        success: false,
        match_idx: LogIndex { id: 0 },
        last_log_idx: LogIndex { id: 10 },
    });
    leader.receive(Message { term, rpc: Some(rejection) }, 2);
    let replication = leader.replication_state(&2).unwrap();
    assert_eq!(replication.next_idx, LogIndex { id: 11 });
    assert!(replication.send_probe);
    assert_eq!(replication.inflight, None);
    assert_eq!(replication.match_idx, LogIndex { id: 0 });
    // No probe goes out before the next heartbeat is due.
    assert!(leader.append_entries(2).is_none());
    for _ in 0..9 {
        leader.timer_tick();
    }
    let probe = append_request(&leader.append_entries(2).unwrap());
    assert_eq!(probe.prev_log_idx, LogIndex { id: 10 });
    assert!(probe.entries.is_empty());
    let acceptance = Rpc::AppendResponse(AppendResponse {
        success: true,
        match_idx: LogIndex { id: 10 },
        last_log_idx: LogIndex { id: 10 },
    });
    leader.receive(Message { term, rpc: Some(acceptance) }, 2);
    let replication = leader.replication_state(&2).unwrap();
    assert_eq!(replication.next_idx, LogIndex { id: 11 });
    assert_eq!(replication.match_idx, LogIndex { id: 10 });
    assert!(!replication.send_probe);
    let recovery = append_request(&leader.append_entries(2).unwrap());
    assert_eq!(recovery.prev_log_idx, LogIndex { id: 10 });
    assert_eq!(recovery.entries.len(), 1);
}

#[test]
pub fn probing_steps_back_by_a_chunk_of_entries() {
    let mut log = InMemoryLog::new_unbounded();
    for _ in 0..100 {
        log.append(entry(1, &[0; 6])).unwrap();
    }
    // Each entry counts ten bytes, so 35 bytes allow three steps back from index 50.
    let mut leader = leader_of_two(log, 35);
    let term = *leader.leader().1;
    leader.append_entries(2).unwrap();
    let rejection = Rpc::AppendResponse(AppendResponse {
        success: false,
        match_idx: LogIndex { id: 0 },
        last_log_idx: LogIndex { id: 49 },
    });
    leader.receive(Message { term, rpc: Some(rejection) }, 2);
    assert_eq!(leader.replication_state(&2).unwrap().next_idx, LogIndex { id: 47 });
    // The indices never fall to what the peer holds from before.
    let rejection = Rpc::AppendResponse(AppendResponse {
        success: false,
        match_idx: LogIndex { id: 45 },
        last_log_idx: LogIndex { id: 49 },
    });
    leader.receive(Message { term, rpc: Some(rejection) }, 2);
    assert_eq!(leader.replication_state(&2).unwrap().next_idx, LogIndex { id: 46 });
}

#[test]
pub fn requests_carry_as_many_entries_as_the_chunk_allows() {
    let mut leader = leader_of_two(InMemoryLog::new_unbounded(), 100);
    let term = *leader.leader().1;
    let noop = append_request(&leader.append_entries(2).unwrap());
    assert_eq!(noop.entries, vec![entry(1, &[])]);
    let accepted = |match_idx: u64| {
        Rpc::AppendResponse(AppendResponse {
            success: true,
            match_idx: LogIndex { id: match_idx },
            last_log_idx: LogIndex { id: match_idx },
        })
    };
    leader.receive(Message { term, rpc: Some(accepted(1)) }, 2);
    for _ in 0..50 {
        assert!(leader.client_request(Bytes::from_static(&[9; 10])).is_ok());
    }
    // Seven entries of fourteen bytes are the most that stay within a hundred.
    let first = append_request(&leader.append_entries(2).unwrap());
    assert_eq!(first.prev_log_idx, LogIndex { id: 1 });
    assert_eq!(first.entries.len(), 7);
    assert_eq!(first.leader_commit, LogIndex { id: 1 });
    assert!(leader.append_entries(2).is_none());
    leader.receive(Message { term, rpc: Some(accepted(8)) }, 2);
    assert_eq!(leader.replication_state(&2).unwrap().match_idx, LogIndex { id: 8 });
    assert_eq!(leader.commit_idx(), &LogIndex { id: 8 });
    let second = append_request(&leader.append_entries(2).unwrap());
    assert_eq!(second.prev_log_idx, LogIndex { id: 8 });
    assert_eq!(second.entries.len(), 7);
    assert_eq!(second.leader_commit, LogIndex { id: 8 });
}

#[test]
pub fn a_single_entry_goes_out_however_large() {
    let mut leader = leader_of_two(InMemoryLog::new_unbounded(), 2);
    let term = *leader.leader().1;
    assert!(leader.client_request(Bytes::from_static(&[9; 10])).is_ok());
    let first = append_request(&leader.append_entries(2).unwrap());
    assert_eq!(first.entries, vec![entry(1, &[])]);
    let accepted = Rpc::AppendResponse(AppendResponse {
        success: true,
        match_idx: LogIndex { id: 1 },
        last_log_idx: LogIndex { id: 1 },
    });
    leader.receive(Message { term, rpc: Some(accepted) }, 2);
    let second = append_request(&leader.append_entries(2).unwrap());
    assert_eq!(second.entries, vec![entry(1, &[9; 10])]);
}

#[test]
pub fn split_vote_is_settled_by_the_next_election() {
    let ids = [0u64, 1, 2, 3, 4];
    let mut nodes: Vec<TestRaft> = ids
        .iter()
        .map(|id| state(*id, &ids, InMemoryLog::new_unbounded(), 1024))
        .collect();
    let ask0 = nodes[0].timeout().unwrap().message;
    let ask1 = nodes[1].timeout().unwrap().message;
    assert_eq!(ask0.term, TermId { id: 1 });
    assert_eq!(ask1.term, TermId { id: 1 });
    let answer = |reply: Option<SendableMessage>| reply.unwrap().message;
    let from2 = answer(nodes[2].receive(ask0.clone(), 0));
    let from3 = answer(nodes[3].receive(ask1.clone(), 1));
    assert_eq!(from2.rpc, Some(vote(true)));
    assert_eq!(from3.rpc, Some(vote(true)));
    // Who has voted votes for no other in the term, and a candidate votes for itself.
    assert_eq!(answer(nodes[2].receive(ask1.clone(), 1)).rpc, Some(vote(false)));
    assert_eq!(answer(nodes[3].receive(ask0.clone(), 0)).rpc, Some(vote(false)));
    assert_eq!(answer(nodes[1].receive(ask0.clone(), 0)).rpc, Some(vote(false)));
    nodes[0].receive(from2, 2);
    nodes[1].receive(from3, 3);
    assert!(!nodes[0].is_leader());
    assert!(!nodes[1].is_leader());

    let ask = nodes[0].timeout().unwrap().message;
    assert_eq!(ask.term, TermId { id: 2 });
    let mut votes = 1;
    for voter in [2usize, 3, 4] {
        let reply = answer(nodes[voter].receive(ask.clone(), 0));
        assert_eq!(reply.rpc, Some(vote(true)));
        nodes[0].receive(reply, voter as u64);
        votes += 1;
        assert_eq!(nodes[0].is_leader(), votes >= 3);
    }
    assert_eq!(nodes[0].leader(), (Some(&0), &TermId { id: 2 }));
    assert_eq!(nodes[2].leader(), (None, &TermId { id: 2 }));
}

#[test]
pub fn the_same_request_to_append_changes_nothing_the_second_time() {
    let mut follower = state(2, &[1, 2], InMemoryLog::new_unbounded(), 1024);
    let request = Rpc::AppendRequest(AppendRequest {
        prev_log_idx: LogIndex { id: 0 },
        prev_log_term: TermId { id: 77 },
        leader_commit: LogIndex { id: 1 },
        entries: vec![entry(1, b"a"), entry(1, b"b")],
    });
    assert!(follower.accepts(&message(1, request.clone()), 1));
    let reply = follower.receive(message(1, request.clone()), 1).unwrap();
    assert_eq!(reply.dest, MessageDestination::To(1));
    assert_eq!(reply.message.term, TermId { id: 1 });
    assert_eq!(
        append_response(&reply),
        AppendResponse {
            success: true,
            match_idx: LogIndex { id: 2 },
            last_log_idx: LogIndex { id: 2 },
        }
    );
    assert_eq!(follower.leader(), (Some(&1), &TermId { id: 1 }));
    assert_eq!(follower.commit_idx(), &LogIndex { id: 1 });
    assert_eq!(follower.log().last_index(), LogIndex { id: 2 });

    let again = follower.receive(message(1, request), 1).unwrap();
    assert_eq!(append_response(&again), append_response(&reply));
    assert_eq!(follower.log().last_index(), LogIndex { id: 2 });
    assert_eq!(follower.log_mut().get(LogIndex { id: 1 }), Some(entry(1, b"a")));
    assert_eq!(follower.log_mut().get(LogIndex { id: 2 }), Some(entry(1, b"b")));
    assert_eq!(follower.commit_idx(), &LogIndex { id: 1 });
}

#[test]
pub fn a_follower_cuts_its_log_where_the_leader_has_another_term() {
    let mut follower = state(2, &[1, 2], InMemoryLog::new_unbounded(), 1024);
    let first = Rpc::AppendRequest(AppendRequest {
        prev_log_idx: LogIndex { id: 0 },
        prev_log_term: TermId { id: 0 },
        leader_commit: LogIndex { id: 1 },
        entries: vec![entry(1, b"a"), entry(1, b"b"), entry(1, b"c")],
    });
    follower.receive(message(1, first), 1);
    let second = AppendRequest {
        prev_log_idx: LogIndex { id: 1 },
        prev_log_term: TermId { id: 1 },
        leader_commit: LogIndex { id: 2 },
        entries: vec![entry(2, b"x")],
    };
    assert!(follower.accepts(&message(2, Rpc::AppendRequest(second.clone())), 1));
    let reply = follower.receive(message(2, Rpc::AppendRequest(second)), 1).unwrap();
    assert_eq!(
        append_response(&reply),
        AppendResponse {
            success: true,
            match_idx: LogIndex { id: 2 },
            last_log_idx: LogIndex { id: 2 },
        }
    );
    assert_eq!(follower.log_mut().get(LogIndex { id: 1 }), Some(entry(1, b"a")));
    assert_eq!(follower.log_mut().get(LogIndex { id: 2 }), Some(entry(2, b"x")));
    assert_eq!(follower.log_mut().get(LogIndex { id: 3 }), None);
    assert_eq!(follower.commit_idx(), &LogIndex { id: 2 });

    // A request that contradicts what was committed is not to be handed over.
    let against = Rpc::AppendRequest(AppendRequest {
        prev_log_idx: LogIndex { id: 0 },
        prev_log_term: TermId { id: 0 },
        leader_commit: LogIndex { id: 0 },
        entries: vec![entry(3, b"z")],
    });
    assert!(!follower.accepts(&message(3, against), 1));
    // A request that does not fit the log is rejected, with the end of the log.
    let ahead = Rpc::AppendRequest(AppendRequest {
        prev_log_idx: LogIndex { id: 5 },
        prev_log_term: TermId { id: 2 },
        leader_commit: LogIndex { id: 0 },
        entries: vec![],
    });
    assert!(follower.accepts(&message(2, ahead.clone()), 1));
    let reply = follower.receive(message(2, ahead), 1).unwrap();
    assert_eq!(
        append_response(&reply),
        AppendResponse {
            success: false,
            match_idx: LogIndex { id: 0 },
            last_log_idx: LogIndex { id: 2 },
        }
    );
    // A request of an earlier term is rejected without a look at the log.
    let stale = Rpc::AppendRequest(AppendRequest {
        prev_log_idx: LogIndex { id: 0 },
        prev_log_term: TermId { id: 0 },
        leader_commit: LogIndex { id: 0 },
        entries: vec![entry(9, b"q")],
    });
    let reply = follower.receive(message(1, stale), 1).unwrap();
    assert!(!append_response(&reply).success);
    assert_eq!(reply.message.term, TermId { id: 2 });
    assert_eq!(follower.log().last_index(), LogIndex { id: 2 });
}

#[test]
pub fn the_first_index_fits_whatever_term_is_named_before_it() {
    for term in [0u64, 1, 5, u64::MAX] {
        let mut follower = state(2, &[1, 2], InMemoryLog::new_unbounded(), 1024);
        let request = Rpc::AppendRequest(AppendRequest {
            prev_log_idx: LogIndex { id: 0 },
            prev_log_term: TermId { id: term },
            leader_commit: LogIndex { id: 0 },
            entries: vec![entry(1, b"a")],
        });
        let reply = follower.receive(message(1, request), 1).unwrap();
        assert!(append_response(&reply).success);
    }
}

#[test]
pub fn the_same_answer_takes_the_leader_no_further_the_second_time() {
    let mut leader = leader_of_two(InMemoryLog::new_unbounded(), 1024);
    let term = *leader.leader().1;
    for _ in 0..5 {
        assert!(leader.client_request(Bytes::from_static(&[1])).is_ok());
    }
    leader.append_entries(2).unwrap();
    let accepted = Rpc::AppendResponse(AppendResponse {
        success: true,
        match_idx: LogIndex { id: 3 },
        last_log_idx: LogIndex { id: 3 },
    });
    leader.receive(Message { term, rpc: Some(accepted.clone()) }, 2);
    let once = *leader.replication_state(&2).unwrap();
    assert_eq!(once.next_idx, LogIndex { id: 4 });
    assert_eq!(once.match_idx, LogIndex { id: 3 });
    // The request in flight went further than the answer says, and stays in flight.
    assert_eq!(once.inflight, Some(LogIndex { id: 6 }));
    leader.receive(Message { term, rpc: Some(accepted) }, 2);
    assert_eq!(*leader.replication_state(&2).unwrap(), once);
    assert_eq!(leader.commit_idx(), &LogIndex { id: 3 });
    // An answer of an earlier term is dropped.
    let stale = Rpc::AppendResponse(AppendResponse {
        success: true,
        match_idx: LogIndex { id: 6 },
        last_log_idx: LogIndex { id: 6 },
    });
    leader.receive(message(0, stale), 2);
    assert_eq!(*leader.replication_state(&2).unwrap(), once);
}

#[test]
pub fn a_leader_commits_entries_of_its_own_term_only() {
    let mut log = InMemoryLog::new_unbounded();
    log.append(entry(0, b"old")).unwrap();
    let mut leader = leader_of_two(log, 1024);
    let term = *leader.leader().1;
    assert_eq!(term, TermId { id: 1 });
    assert_eq!(leader.log().last_index(), LogIndex { id: 2 });
    // The old entry is on a quorum, but it is of an earlier term.
    let accepted = Rpc::AppendResponse(AppendResponse {
        success: true,
        match_idx: LogIndex { id: 1 },
        last_log_idx: LogIndex { id: 1 },
    });
    leader.receive(Message { term, rpc: Some(accepted) }, 2);
    assert_eq!(leader.replication_state(&2).unwrap().match_idx, LogIndex { id: 1 });
    assert_eq!(leader.commit_idx(), &LogIndex { id: 0 });
    // With an entry of the leader's term on a quorum, what lies before is committed with it.
    let further = Rpc::AppendResponse(AppendResponse {
        success: true,
        match_idx: LogIndex { id: 2 },
        last_log_idx: LogIndex { id: 2 },
    });
    leader.receive(Message { term, rpc: Some(further) }, 2);
    assert_eq!(leader.commit_idx(), &LogIndex { id: 2 });
}

#[test]
pub fn a_refusal_of_the_log_comes_back_to_the_client() {
    let mut full = InMemoryLog::with_capacity(1, 3);
    full.append(entry(1, b"old")).unwrap();
    // The entry without data of the new leader needs no room.
    let mut leader = leader_of_two(full, 1024);
    assert_eq!(leader.log().last_index(), LogIndex { id: 2 });
    assert!(matches!(
        leader.client_request(Bytes::from_static(&[1])),
        Err(AppendError::LogErr(()))
    ));
    assert!(leader.is_leader());
    assert_eq!(leader.leader(), (Some(&1), &TermId { id: 1 }));
    assert_eq!(leader.log().last_index(), LogIndex { id: 2 });
    let mut follower = state(2, &[1, 2], InMemoryLog::new_unbounded(), 1024);
    assert!(matches!(
        follower.client_request(Bytes::from("here")),
        Err(AppendError::Cancelled { data }) if data == "here"
    ));
    assert_eq!(follower.log().last_index(), LogIndex { id: 0 });
}

#[test]
pub fn messages_from_strangers_are_dropped() {
    let mut raft = state(1, &[2, 3], InMemoryLog::new_unbounded(), 1024);
    let request = Rpc::VoteRequest(VoteRequest {
        last_log_idx: LogIndex { id: 9 },
        last_log_term: TermId { id: 9 },
    });
    assert!(raft.receive(message(5, request.clone()), 4).is_none());
    assert_eq!(raft.leader(), (None, &TermId { id: 0 }));
    // The node's own identifier is no peer either.
    assert!(raft.receive(message(5, request.clone()), 1).is_none());
    assert_eq!(raft.leader(), (None, &TermId { id: 0 }));
    let reply = raft.receive(message(5, request), 2).unwrap();
    assert_eq!(reply.dest, MessageDestination::To(2));
    assert_eq!(reply.message, message(5, vote(true)));
    assert!(raft.receive(Message { term: TermId { id: 5 }, rpc: None }, 2).is_none());
}

#[test]
pub fn votes_go_to_logs_that_are_far_enough() {
    let mut log = InMemoryLog::new_unbounded();
    log.append(entry(2, b"a")).unwrap();
    log.append(entry(3, b"b")).unwrap();
    let ask = |last_log_idx: u64, last_log_term: u64| {
        Rpc::VoteRequest(VoteRequest {
            last_log_idx: LogIndex { id: last_log_idx },
            last_log_term: TermId { id: last_log_term },
        })
    };
    let granted = |raft: &mut TestRaft, term: u64, rpc: Rpc, from: u64| {
        raft.receive(message(term, rpc), from).unwrap().message.rpc == Some(vote(true))
    };
    let mut raft = state(1, &[2, 3], log, 1024);
    assert!(!granted(&mut raft, 4, ask(5, 2), 2));
    assert!(!granted(&mut raft, 4, ask(1, 3), 2));
    assert!(granted(&mut raft, 4, ask(2, 3), 2));
    assert!(granted(&mut raft, 4, ask(2, 3), 2));
    assert!(!granted(&mut raft, 4, ask(9, 9), 3));
    assert!(!granted(&mut raft, 3, ask(9, 9), 3));
    assert!(granted(&mut raft, 5, ask(0, 4), 3));
}

#[test]
pub fn a_leader_is_not_handed_a_request_of_its_own_term() {
    let mut leader = leader_of_two(InMemoryLog::new_unbounded(), 1024);
    let term = *leader.leader().1;
    let request = Rpc::AppendRequest(AppendRequest::default());
    assert!(!leader.accepts(&Message { term, rpc: Some(request.clone()) }, 2));
    assert!(leader.accepts(&message(term.id + 1, request.clone()), 2));
    assert!(leader.accepts(&message(term.id - 1, request.clone()), 2));
    assert!(leader.accepts(&Message { term, rpc: Some(request) }, 7));
    let at_the_end = Rpc::AppendResponse(AppendResponse {
        success: true,
        match_idx: LogIndex { id: u64::MAX },
        last_log_idx: LogIndex { id: 0 },
    });
    assert!(!leader.accepts(&Message { term, rpc: Some(at_the_end) }, 2));
    assert!(leader.can_tick());
}

#[test]
pub fn heartbeats_fall_due_with_the_timer() {
    let mut leader = leader_of_two(InMemoryLog::new_unbounded(), 1024);
    let term = *leader.leader().1;
    leader.append_entries(2).unwrap();
    let accepted = Rpc::AppendResponse(AppendResponse {
        success: true,
        match_idx: LogIndex { id: 1 },
        last_log_idx: LogIndex { id: 1 },
    });
    leader.receive(Message { term, rpc: Some(accepted) }, 2);
    assert_eq!(leader.commit_idx(), &LogIndex { id: 1 });
    // A new leader sends a heartbeat with its first tick, and then every ninth.
    assert!(leader.append_entries(2).is_none());
    assert!(leader.timer_tick().is_none());
    let heartbeat = append_request(&leader.append_entries(2).unwrap());
    assert!(heartbeat.entries.is_empty());
    assert_eq!(heartbeat.prev_log_idx, LogIndex { id: 1 });
    assert_eq!(heartbeat.prev_log_term, term);
    assert_eq!(heartbeat.leader_commit, LogIndex { id: 1 });
    let answer = Rpc::AppendResponse(AppendResponse {
        success: true,
        match_idx: LogIndex { id: 1 },
        last_log_idx: LogIndex { id: 1 },
    });
    leader.receive(Message { term, rpc: Some(answer) }, 2);
    for _ in 0..8 {
        assert!(leader.timer_tick().is_none());
        assert!(leader.append_entries(2).is_none());
    }
    assert!(leader.timer_tick().is_none());
    assert!(leader.append_entries(2).is_some());
}

#[test]
pub fn reset_peer_starts_over() {
    let mut leader = leader_of_two(InMemoryLog::new_unbounded(), 1024);
    leader.append_entries(2).unwrap();
    assert!(leader.reset_peer(2).is_none());
    let replication = *leader.replication_state(&2).unwrap();
    assert_eq!(replication.next_idx, LogIndex { id: 2 });
    assert_eq!(replication.inflight, None);
    assert!(replication.send_probe);
    assert!(replication.send_heartbeat);
    assert!(leader.reset_peer(9).is_none());
    assert!(leader.replication_state(&9).is_none());

    let mut candidate = state(1, &[2, 3], InMemoryLog::new_unbounded(), 1024);
    assert!(candidate.reset_peer(2).is_none());
    let broadcast = candidate.timeout().unwrap();
    assert_eq!(broadcast.dest, MessageDestination::Broadcast);
    let again = candidate.reset_peer(2).unwrap();
    assert_eq!(again.dest, MessageDestination::To(2));
    assert_eq!(again.message, broadcast.message);
    assert!(candidate.reset_peer(4).is_none());
    assert!(candidate.replication_state(&2).is_none());
}

#[test]
pub fn set_config_cuts_the_timers() {
    let mut follower = state(1, &[2, 3], InMemoryLog::new_unbounded(), 1024);
    follower.set_config(Config {
        election_timeout_ticks: 2,
        heartbeat_interval_ticks: 1,
        replication_chunk_size: 7,
    });
    assert_eq!(follower.config().election_timeout_ticks, 2);
    assert_eq!(follower.config().replication_chunk_size, 7);
    // The timer was drawn for a base of ten; a base of two lets at most four ticks stand.
    let mut ticks = 0;
    while follower.timer_tick().is_none() {
        ticks += 1;
        assert!(ticks < 4);
    }
    let mut leader = leader_of_two(InMemoryLog::new_unbounded(), 1024);
    leader.timer_tick();
    leader.set_config(Config {
        election_timeout_ticks: 10,
        heartbeat_interval_ticks: 2,
        replication_chunk_size: 1024,
    });
    leader.append_entries(2).unwrap();
    let term = *leader.leader().1;
    let accepted = Rpc::AppendResponse(AppendResponse {
        success: true,
        match_idx: LogIndex { id: 1 },
        last_log_idx: LogIndex { id: 1 },
    });
    leader.receive(Message { term, rpc: Some(accepted) }, 2);
    assert!(leader.timer_tick().is_none());
    assert!(leader.append_entries(2).is_none());
    assert!(leader.timer_tick().is_none());
    assert!(leader.append_entries(2).is_some());
}

#[test]
pub fn stale_answers_are_told_from_fresh_ones() {
    let mut raft = state(1, &[2, 3], InMemoryLog::new_unbounded(), 1024);
    raft.timeout();
    raft.timeout();
    assert_eq!(raft.drop_stale_response(TermId { id: 1 }, "vote"), Ok(()));
    assert_eq!(raft.drop_stale_response(TermId { id: 2 }, "vote"), Err("vote"));
    assert_eq!(raft.drop_stale_response(TermId { id: 3 }, "vote"), Err("vote"));
}

#[test]
pub fn the_node_answers_and_then_sends_what_it_has_for_its_peers() {
    let mut leader = node(1, &[1, 2, 3]);
    assert!(leader.state().peers().contains(&3));
    let asked = leader.state_mut().timeout().unwrap();
    let term = asked.message.term;
    let sent = leader.receive(Message { term, rpc: Some(vote(true)) }, 2);
    assert!(leader.is_leader());
    assert_eq!(leader.peers(), &peers(&[2, 3]));
    assert_eq!(leader.config().heartbeat_interval_ticks, 9);
    assert_eq!(leader.log().last_index(), LogIndex { id: 1 });
    assert_eq!(leader.log_mut().last_index(), LogIndex { id: 1 });
    // The no-op of the new leader goes to each peer, in the order of the peers.
    assert_eq!(sent.len(), 2);
    assert_eq!(sent[0].dest, MessageDestination::To(2));
    assert_eq!(sent[1].dest, MessageDestination::To(3));
    assert_eq!(append_request(&sent[0]).entries, vec![entry(1, &[])]);
    assert_eq!(leader.replication_state(&3).unwrap().inflight, Some(LogIndex { id: 1 }));
    // A request is answered first.
    let ask = Rpc::VoteRequest(VoteRequest {
        last_log_idx: LogIndex { id: 0 },
        last_log_term: TermId { id: 0 },
    });
    let sent = leader.receive(Message { term, rpc: Some(ask) }, 3);
    assert_eq!(sent.len(), 1);
    assert_eq!(sent[0].dest, MessageDestination::To(3));
    assert_eq!(sent[0].message, Message { term, rpc: Some(vote(false)) });
    assert!(leader.timer_tick().is_empty());
}

#[test]
pub fn terms_and_commits_never_go_back_and_no_term_has_two_leaders() {
    let ids = [1u64, 2, 3, 4, 5];
    let mut nodes: Vec<TestNode> = ids.iter().map(|id| node(*id, &ids)).collect();
    let mut inbox: Vec<(u64, SendableMessage)> = Vec::new();
    let mut seen: Vec<(TermId, LogIndex)> =
        nodes.iter().map(|node| (node.leader().1, node.last_committed_log_index())).collect();
    let mut leaders: Vec<(TermId, u64)> = Vec::new();
    let mut appended = 0u8;
    for round in 0..400u32 {
        // For a while the leader of the moment hears nothing and nobody hears it.
        let cut_off = if (100..200).contains(&round) { leaders.last().map(|l| l.1) } else { None };
        for index in 0..nodes.len() {
            let from = ids[index];
            assert!(nodes[index].can_tick());
            for sendable in nodes[index].timer_tick() {
                inbox.push((from, sendable));
            }
            if nodes[index].is_leader() && appended < 40 && round % 7 == 0 {
                appended += 1;
                if let Ok(messages) = nodes[index].append(Bytes::from(vec![appended; 3])) {
                    for sendable in messages {
                        inbox.push((from, sendable));
                    }
                }
            }
        }
        while !inbox.is_empty() {
            let (from, sendable) = inbox.remove(0);
            for node in nodes.iter_mut() {
                let to = *node.node_id();
                let addressed = match sendable.dest {
                    MessageDestination::Broadcast => to != from,
                    MessageDestination::To(id) => to == id,
                };
                if !addressed || cut_off == Some(from) || cut_off == Some(to) {
                    continue;
                }
                assert!(node.accepts(&sendable.message, from));
                for reply in node.receive(sendable.message.clone(), from) {
                    inbox.push((to, reply));
                }
            }
        }
        for (index, node) in nodes.iter().enumerate() {
            let now = (node.leader().1, node.last_committed_log_index());
            assert!(now.0.id >= seen[index].0.id);
            assert!(now.1.id >= seen[index].1.id);
            assert!(now.1.id <= node.log().last_index().id);
            seen[index] = now;
            if node.is_leader() {
                let led = (now.0, *node.node_id());
                for earlier in leaders.iter() {
                    assert!(earlier.0 != led.0 || earlier.1 == led.1);
                }
                if !leaders.contains(&led) {
                    leaders.push(led);
                }
            }
        }
    }
    assert!(leaders.len() >= 2);
    assert!(appended > 0);
    // What is committed is the same on every node, as far as it goes.
    let mut committed: Vec<Vec<LogEntry>> = Vec::new();
    for node in nodes.iter_mut() {
        let mut taken = node.take_committed();
        let mut entries = Vec::new();
        while let Some(entry) = taken.next() {
            entries.push(entry);
        }
        committed.push(entries);
    }
    let longest = committed.iter().map(|entries| entries.len()).max().unwrap();
    assert!(longest > 2);
    for entries in committed.iter() {
        for other in committed.iter() {
            for (mine, theirs) in entries.iter().zip(other.iter()) {
                assert_eq!(mine, theirs);
            }
        }
    }
}

#[test]
pub fn votes_and_ticks_leave_the_log_of_a_follower_alone() {
    let mut log = InMemoryLog::new_unbounded();
    log.append(entry(1, b"a")).unwrap();
    log.append(entry(1, b"b")).unwrap();
    let mut follower = state(2, &[1, 2, 3], log, 1024);
    let unchanged = |follower: &mut TestRaft| {
        assert_eq!(follower.log().last_index(), LogIndex { id: 2 });
        assert_eq!(follower.log().prev_index(), LogIndex { id: 0 });
        assert_eq!(follower.log_mut().get(LogIndex { id: 1 }), Some(entry(1, b"a")));
        assert_eq!(follower.log_mut().get(LogIndex { id: 2 }), Some(entry(1, b"b")));
    };
    let ask = Rpc::VoteRequest(VoteRequest {
        last_log_idx: LogIndex { id: 7 },
        last_log_term: TermId { id: 3 },
    });
    follower.receive(message(4, ask), 1);
    unchanged(&mut follower);
    follower.receive(message(4, vote(true)), 3);
    unchanged(&mut follower);
    let answer = Rpc::AppendResponse(AppendResponse {
        success: true,
        match_idx: LogIndex { id: 9 },
        last_log_idx: LogIndex { id: 9 },
    });
    follower.receive(message(4, answer), 3);
    unchanged(&mut follower);
    follower.receive(Message { term: TermId { id: 9 }, rpc: None }, 1);
    unchanged(&mut follower);
    // A tick that starts an election leaves the log alone as well, with peers to ask.
    let mut asked = false;
    for _ in 0..20 {
        asked = asked || follower.timer_tick().is_some();
        unchanged(&mut follower);
    }
    assert!(asked);
    assert!(!follower.is_leader());
    // A heartbeat that fits changes nothing either.
    let heartbeat = Rpc::AppendRequest(AppendRequest {
        prev_log_idx: LogIndex { id: 2 },
        prev_log_term: TermId { id: 1 },
        leader_commit: LogIndex { id: 0 },
        entries: vec![],
    });
    let term = follower.leader().1.id;
    let reply = follower.receive(message(term, heartbeat), 1).unwrap();
    assert!(append_response(&reply).success);
    unchanged(&mut follower);
}

#[test]
pub fn a_request_below_what_the_log_still_holds_is_not_handed_over() {
    let mut follower = state(2, &[1, 2], InMemoryLog::with_capacity(4, 4), 1024);
    let first = Rpc::AppendRequest(AppendRequest {
        prev_log_idx: LogIndex { id: 0 },
        prev_log_term: TermId { id: 0 },
        leader_commit: LogIndex { id: 2 },
        entries: vec![entry(1, b"aa"), entry(1, b"bb")],
    });
    follower.receive(message(1, first.clone()), 1);
    assert_eq!(taken(&mut follower), vec![entry(1, b"aa"), entry(1, b"bb")]);
    let second = Rpc::AppendRequest(AppendRequest {
        prev_log_idx: LogIndex { id: 2 },
        prev_log_term: TermId { id: 1 },
        leader_commit: LogIndex { id: 2 },
        entries: vec![entry(1, b"cccc")],
    });
    let reply = follower.receive(message(1, second.clone()), 1).unwrap();
    assert_eq!(
        append_response(&reply),
        AppendResponse {
            success: true,
            match_idx: LogIndex { id: 3 },
            last_log_idx: LogIndex { id: 3 },
        }
    );
    // Both entries that were taken made room for the third.
    assert_eq!(follower.log().prev_index(), LogIndex { id: 2 });
    assert_eq!(follower.log().prev_term(), TermId { id: 1 });
    assert!(!follower.accepts(&message(1, first), 1));
    assert!(follower.accepts(&message(1, second.clone()), 1));
    let again = follower.receive(message(1, second), 1).unwrap();
    assert_eq!(append_response(&again), append_response(&reply));
    assert_eq!(follower.log().last_index(), LogIndex { id: 3 });
    // The log is full of what was not taken: the next entry finds no room.
    let third = Rpc::AppendRequest(AppendRequest {
        prev_log_idx: LogIndex { id: 3 },
        prev_log_term: TermId { id: 1 },
        leader_commit: LogIndex { id: 2 },
        entries: vec![entry(1, b"d"), entry(1, b"e")],
    });
    let reply = follower.receive(message(1, third), 1).unwrap();
    assert_eq!(
        append_response(&reply),
        AppendResponse {
            success: true,
            match_idx: LogIndex { id: 3 },
            last_log_idx: LogIndex { id: 3 },
        }
    );
}

#[test]
pub fn index_zero_has_the_preserved_term_whatever_was_discarded() {
    let mut state = LogState::new(InMemoryLog::with_capacity(4, 4));
    state.append(entry(3, b"aa")).unwrap();
    state.append(entry(5, b"bb")).unwrap();
    assert_eq!(state.get_term(LogIndex { id: 0 }), Some(TermId { id: 0 }));
    state.commit_idx = LogIndex { id: 2 };
    assert_eq!(state.take_next_committed(), Some(entry(3, b"aa")));
    assert_eq!(state.take_next_committed(), Some(entry(5, b"bb")));
    assert_eq!(state.take_next_committed(), None);
    state.append(entry(6, b"cccc")).unwrap();
    assert_eq!(state.prev_index(), LogIndex { id: 2 });
    assert_eq!(state.prev_term(), TermId { id: 5 });
    assert_eq!(state.get_term(LogIndex { id: 0 }), Some(TermId { id: 5 }));
    assert_eq!(state.get_term(LogIndex { id: 1 }), None);
    assert_eq!(state.get_term(LogIndex { id: 2 }), Some(TermId { id: 5 }));
    assert_eq!(state.get_term(LogIndex { id: 3 }), Some(TermId { id: 6 }));
    assert_eq!(state.get_term(LogIndex { id: 4 }), None);
    assert_eq!(state.get(LogIndex { id: 0 }), None);
}

#[test]
pub fn committed_entries_are_taken_one_by_one() {
    let mut raft = state(1, &[1], InMemoryLog::new_unbounded(), 1024);
    raft.timeout();
    assert!(raft.client_request(Bytes::from("one")).is_ok());
    assert!(raft.client_request(Bytes::from("two")).is_ok());
    assert_eq!(raft.commit_idx(), &LogIndex { id: 3 });
    {
        let mut committed = raft.take_committed();
        assert_eq!(committed.size_hint(), (3, Some(3)));
        assert_eq!(committed.next(), Some(entry(1, &[])));
        assert_eq!(committed.size_hint(), (2, Some(2)));
    }
    // What was not asked for stays with the log, and comes with the next call.
    assert_eq!(raft.log().last_taken_index(), LogIndex { id: 1 });
    assert_eq!(raft.take_next_committed(), Some(entry(1, b"one")));
    assert_eq!(raft.log().last_taken_index(), LogIndex { id: 2 });
    assert_eq!(taken(&mut raft), vec![entry(1, b"two")]);
    assert_eq!(raft.log().last_taken_index(), LogIndex { id: 3 });
    assert_eq!(raft.take_next_committed(), None);
    assert_eq!(taken(&mut raft), vec![]);
    let mut alone = node(7, &[]);
    alone.state_mut().timeout();
    assert_eq!(alone.take_next_committed(), Some(entry(1, &[])));
    assert_eq!(alone.take_next_committed(), None);
}

#[test]
pub fn a_refused_entry_leaves_the_log_as_it_was() {
    let mut log = InMemoryLog::with_capacity(4, 5);
    log.append(entry(1, &[1; 2])).unwrap();
    log.append(entry(2, &[2; 2])).unwrap();
    assert_eq!(log.take_next(), Some(entry(1, &[1; 2])));
    // The first entry was taken, but its two bytes make no room for four.
    log.append(entry(3, &[3; 4])).unwrap_err();
    assert_eq!(log.prev_index(), LogIndex { id: 0 });
    assert_eq!(log.last_index(), LogIndex { id: 2 });
    assert_eq!(log.get(LogIndex { id: 1 }), Some(entry(1, &[1; 2])));
    // They make room for three.
    log.append(entry(3, &[3; 3])).unwrap();
    assert_eq!(log.prev_index(), LogIndex { id: 1 });
    assert_eq!(log.last_index(), LogIndex { id: 3 });
}

#[test]
pub fn a_later_term_is_taken_over_and_an_earlier_one_is_not() {
    let mut leader = leader_of_two(InMemoryLog::new_unbounded(), 1024);
    assert_eq!(leader.leader(), (Some(&1), &TermId { id: 1 }));
    // A message of an earlier term leaves the term and the leader.
    leader.receive(message(0, vote(true)), 2);
    assert_eq!(leader.leader(), (Some(&1), &TermId { id: 1 }));
    // One of a later term makes the node a follower of that term, which knows no leader.
    leader.receive(message(7, vote(false)), 2);
    assert!(!leader.is_leader());
    assert_eq!(leader.leader(), (None, &TermId { id: 7 }));
    // One of the same term leaves the term.
    leader.receive(message(7, vote(true)), 2);
    assert_eq!(leader.leader(), (None, &TermId { id: 7 }));

    // A vote given in one term does not bind the node in a later one.
    let ask = Rpc::VoteRequest(VoteRequest {
        last_log_idx: LogIndex { id: 0 },
        last_log_term: TermId { id: 0 },
    });
    let mut voter = state(1, &[2, 3], InMemoryLog::new_unbounded(), 1024);
    let first = voter.receive(message(1, ask.clone()), 2).unwrap();
    assert_eq!(first.message, message(1, vote(true)));
    let second = voter.receive(message(1, ask.clone()), 3).unwrap();
    assert_eq!(second.message, message(1, vote(false)));
    let third = voter.receive(message(2, ask), 3).unwrap();
    assert_eq!(third.message, message(2, vote(true)));
    assert_eq!(voter.leader(), (None, &TermId { id: 2 }));
}
