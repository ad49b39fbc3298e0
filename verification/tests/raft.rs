use std::collections::{BTreeSet, VecDeque};

use bytes::Bytes;
use rand_chacha::ChaChaRng;
use rand_core::{RngCore, SeedableRng};

use redisless::raft::log::memory::InMemoryLog;
use redisless::raft::message::{
    LogEntry, Message, MessageDestination, Rpc, SendableMessage, TermId, VoteResponse,
};
use redisless::raft::node::Config;
use redisless::raft::state::State;

pub const CONFIG: Config = Config {
    election_timeout_ticks: 10,
    heartbeat_interval_ticks: 9,
    replication_chunk_size: 1024,
};
const RANDOM_SEED: u64 = 0;
const MAX_TICKS: u32 = 100_000;

type NodeId = u64;
type TestRaft = State<InMemoryLog, ChaChaRng>;

struct TestRaftGroup {
    nodes: Vec<TestRaft>,
    tick: u32,
    config: TestRaftGroupConfig,
    dropped_messages: Vec<(NodeId, SendableMessage)>,
}

#[derive(Clone, Default)]
struct TestRaftGroupConfig {
    drops: BTreeSet<(Option<NodeId>, Option<NodeId>)>,
    down: BTreeSet<NodeId>,
}

fn rpc_types() -> [Rpc; 4] {
    [
        Rpc::VoteRequest(Default::default()),
        Rpc::VoteResponse(Default::default()),
        Rpc::AppendRequest(Default::default()),
        Rpc::AppendResponse(Default::default()),
    ]
}

fn init_random() -> ChaChaRng {
    ChaChaRng::seed_from_u64(RANDOM_SEED)
}

fn raft(node_id: u64, peers: Vec<u64>, log: Option<InMemoryLog>, random: &mut impl RngCore) -> TestRaft {
    State::new(
        node_id,
        peers.into_iter().collect(),
        log.unwrap_or_else(|| InMemoryLog::new_unbounded()),
        ChaChaRng::seed_from_u64(random.next_u64()),
        CONFIG,
    )
}

fn config() -> TestRaftGroupConfig {
    TestRaftGroupConfig::default()
}

fn send(raft: &mut TestRaft, from: u64, term: TermId, rpc: Rpc) -> Option<SendableMessage> {
    raft.receive(Message { term, rpc: Some(rpc) }, from)
}

fn committed(node: &mut TestRaft) -> Vec<LogEntry> {
    let mut taken = node.take_committed();
    let mut entries = Vec::new();
    while let Some(entry) = taken.next() {
        entries.push(entry);
    }
    entries
}

fn append_entries(node: &mut TestRaft, peers: &[NodeId]) -> Vec<SendableMessage> {
    let node_id = *node.node_id();
    let mut messages = Vec::new();
    for append_to_node_id in peers {
        if *append_to_node_id != node_id {
            if let Some(message) = node.append_entries(*append_to_node_id) {
                messages.push(message);
            }
        }
    }
    messages
}

fn run_group(
    nodes: &mut Vec<TestRaft>,
    initial_messages: Vec<(NodeId, SendableMessage)>,
    ticks: Option<u32>,
    config: &mut TestRaftGroupConfig,
    dropped_messages: &mut Vec<(NodeId, SendableMessage)>,
) {
    let node_ids: Vec<NodeId> = nodes.iter().map(|node| *node.node_id()).collect();
    let mut messages = VecDeque::with_capacity(nodes.len() * nodes.len());
    messages.extend(initial_messages.into_iter());
    messages.extend(dropped_messages.drain(..));

    for _tick in 0..ticks.unwrap_or(1) {
        if ticks.is_some() {
            for node in nodes.iter_mut() {
                let node_id = *node.node_id();
                if !config.is_node_down(node_id) {
                    messages.extend(node.timer_tick().map(|message| (node_id, message)));
                    messages.extend(
                        append_entries(node, &node_ids).into_iter().map(|message| (node_id, message)),
                    );
                }
            }
        }

        while let Some((from, sendable)) = messages.pop_front() {
            let reply_to_node_id = match sendable.dest {
                MessageDestination::Broadcast => None,
                MessageDestination::To(to) => Some(to),
            };
            for to_node in nodes.iter_mut() {
                let to_node_id = *to_node.node_id();
                let addressed = match reply_to_node_id {
                    Some(to) => to_node_id == to,
                    None => to_node_id != from,
                };
                if !addressed {
                    continue;
                }
                let message = sendable.message.clone();
                if !config.should_drop(from, to_node_id) {
                    messages.extend(
                        to_node.receive(message, from).map(|message| (to_node_id, message)),
                    );
                } else if let Some(reply_to_node_id) = reply_to_node_id {
                    dropped_messages.push((
                        from,
                        SendableMessage { message, dest: MessageDestination::To(reply_to_node_id) },
                    ));
                }
                messages.extend(
                    append_entries(to_node, &node_ids)
                        .into_iter()
                        .map(|message| (to_node_id, message)),
                );
            }
        }
    }
}

impl TestRaftGroup {
    fn new(size: u64, random: &mut impl RngCore, config: TestRaftGroupConfig) -> Self {
        let nodes: Vec<u64> = (0..size).collect();
        Self {
            nodes: nodes.iter().map(|node_id| raft(*node_id, nodes.clone(), None, random)).collect(),
            tick: 0,
            config,
            dropped_messages: Default::default(),
        }
    }

    fn step(&mut self) {
        self.tick += 1;
        run_group(
            &mut self.nodes,
            Vec::new(),
            Some(1),
            &mut self.config,
            &mut self.dropped_messages,
        );
    }

    fn run_until(&mut self, mut until_fun: impl FnMut(&mut Self) -> bool) -> &mut Self {
        let mut ticks_remaining = MAX_TICKS;
        while !until_fun(self) {
            ticks_remaining = ticks_remaining
                .checked_sub(1)
                .expect("condition failed after maximum simulation length");
            self.step();
        }
        self
    }

    fn run_until_commit(&mut self, mut until_fun: impl FnMut(&LogEntry) -> bool) -> &mut Self {
        self.run_until(|group| {
            let result = group
                .take_committed()
                .iter()
                .any(|commit| !commit.data.is_empty() && until_fun(commit));
            group.take_committed();
            result
        })
    }

    fn run_for(&mut self, ticks: u32) -> &mut Self {
        self.run_for_inspect(ticks, |_| ())
    }

    fn run_for_inspect(&mut self, ticks: u32, mut fun: impl FnMut(&mut Self)) -> &mut Self {
        let mut ticks_remaining = ticks;
        while let Some(new_ticks_remaining) = ticks_remaining.checked_sub(1) {
            ticks_remaining = new_ticks_remaining;
            self.step();
            fun(self);
        }
        self
    }

    fn run_on_node(
        &mut self,
        node_idx: usize,
        fun: impl FnOnce(&mut TestRaft) -> Option<SendableMessage>,
    ) -> &mut Self {
        let node_id = *self.nodes[node_idx].node_id();
        let messages: Vec<(NodeId, SendableMessage)> =
            fun(&mut self.nodes[node_idx]).map(|message| (node_id, message)).into_iter().collect();
        run_group(&mut self.nodes, messages, None, &mut self.config, &mut self.dropped_messages);
        self
    }

    fn inspect(&mut self, fun: impl FnOnce(&Self)) -> &mut Self {
        fun(self);
        self
    }

    fn modify(&mut self, fun: impl FnOnce(&mut Self)) -> &mut Self {
        fun(self);
        self
    }

    fn take_committed(&mut self) -> Vec<LogEntry> {
        let mut entries = Vec::new();
        for node in self.nodes.iter_mut() {
            entries.extend(committed(node));
        }
        entries
    }

    fn has_leader(&self) -> bool {
        self.nodes.iter().any(|node| node.is_leader())
    }
}

impl TestRaftGroupConfig {
    fn node_down(mut self, node_id: u64) -> Self {
        self.down.insert(node_id);
        self
    }

    fn isolate(mut self, node_id: u64) -> Self {
        self.drops.insert((Some(node_id), None));
        self.drops.insert((None, Some(node_id)));
        self
    }

    fn drop_between(mut self, from: u64, to: u64) -> Self {
        self.drops.insert((Some(from), Some(to)));
        self.drops.insert((Some(to), Some(from)));
        self
    }

    fn drop_to(mut self, node_id: u64) -> Self {
        self.drops.insert((None, Some(node_id)));
        self
    }

    fn is_node_down(&self, node_id: NodeId) -> bool {
        self.down.contains(&node_id)
    }

    fn should_drop(&self, from: NodeId, to: NodeId) -> bool {
        self.drops.contains(&(Some(from), Some(to)))
            || self.drops.contains(&(Some(from), None))
            || self.drops.contains(&(None, Some(to)))
            || self.down.contains(&from)
            || self.down.contains(&to)
    }
}

#[test]
pub fn _1_commit() {
    TestRaftGroup::new(1, &mut init_random(), config())
        .run_until(|group| group.has_leader())
        .modify(|group| {
            assert!(group
                .nodes
                .iter_mut()
                .any(|raft| raft.client_request(Bytes::from("one")).is_ok()))
        })
        .run_until_commit(|commit| {
            assert_eq!(commit.data, "one");
            true
        });
}

#[test]
pub fn _2_commit() {
    TestRaftGroup::new(2, &mut init_random(), config())
        .run_until(|group| group.has_leader())
        .modify(|group| {
            assert!(group
                .nodes
                .iter_mut()
                .any(|raft| raft.client_request(Bytes::from("one")).is_ok()))
        })
        .run_until_commit(|commit| {
            assert_eq!(commit.data, "one");
            true
        });
}

#[test]
pub fn _3_commit() {
    TestRaftGroup::new(3, &mut init_random(), config())
        .run_until(|group| group.has_leader())
        .modify(|group| {
            assert!(group
                .nodes
                .iter_mut()
                .any(|raft| raft.client_request(Bytes::from("one")).is_ok()))
        })
        .run_until_commit(|commit| {
            assert_eq!(commit.data, "one");
            true
        });
}

#[test]
pub fn commit_leader_change() {
    let mut group = TestRaftGroup::new(3, &mut init_random(), config());
    group.run_on_node(0, |raft| raft.timeout());
    group.run_until(|group| group.nodes[0].is_leader());

    assert!(group.nodes[0].client_request(Bytes::from("one")).is_ok());
    group.config = config().drop_to(0);
    group.run_for(1);

    assert!(group.take_committed().iter().all(|commit| commit.data.is_empty()));
    group.config = config().isolate(0);
    group.run_until_commit(|commit| {
        assert_eq!(commit.data, "one");
        true
    });
}

#[test]
pub fn cancel_uncommitted() {
    let mut group = TestRaftGroup::new(3, &mut init_random(), config());
    group.run_on_node(0, |raft| raft.timeout());
    group.run_until(|group| group.nodes[0].is_leader());

    assert!(group.nodes[0].client_request(Bytes::from("one")).is_ok());
    group.config = config().isolate(0);
    group.run_until(|group| group.nodes[1..].iter().any(|raft| raft.is_leader()));

    assert!(group.nodes[1..]
        .iter_mut()
        .any(|raft| raft.client_request(Bytes::from("two")).is_ok()));
    group.run_until_commit(|commit| {
        assert_eq!(commit.data, "two");
        true
    });

    group.config = config();
    group.run_until(|group| {
        committed(&mut group.nodes[0]).iter().any(|commit| {
            if !commit.data.is_empty() {
                assert_eq!(commit.data, "two");
                true
            } else {
                false
            }
        })
    });
}

#[test]
pub fn append_request_update_leader() {
    let mut raft = raft(1, vec![2], None, &mut init_random());
    assert!(!raft.is_leader());
    let (_, &(mut term)) = raft.leader();
    term.add_assign(1);

    send(&mut raft, 2, term, Rpc::AppendRequest(Default::default()));
    assert_eq!(raft.leader(), (Some(&2), &term));
}

#[test]
pub fn no_update_leader() {
    for rpc in rpc_types().iter().cloned().filter(|rpc| !matches!(rpc, Rpc::AppendRequest(_))) {
        let mut raft = raft(1, vec![2, 3], None, &mut init_random());
        let mut term = TermId::default();
        assert_eq!(raft.leader(), (None, &term));

        term.add_assign(1);
        send(&mut raft, 2, term, rpc);
        assert_eq!(raft.leader(), (None, &term));
    }
}

#[test]
pub fn leader_update_term() {
    for rpc in rpc_types().iter().cloned() {
        let mut raft = raft(1, vec![2, 3], None, &mut init_random());
        let mut term = TermId::default();
        assert_eq!(raft.leader().1, &term);

        term.add_assign(1);
        let Message { term: new_term, .. } = raft.timeout().unwrap().message;
        assert_eq!(new_term, term);
        assert_eq!(raft.leader().1, &term);

        send(&mut raft, 2, term, Rpc::VoteResponse(VoteResponse { vote_granted: true }));
        assert_eq!(raft.leader(), (Some(raft.node_id()), &term));

        term.add_assign(1);
        send(&mut raft, 2, term, rpc);
        assert_eq!(raft.leader().1, &term);
    }
}

#[test]
pub fn candidate_update_term() {
    for rpc in rpc_types().iter().cloned() {
        let mut raft = raft(1, vec![2, 3], None, &mut init_random());
        let mut term = TermId::default();
        assert_eq!(raft.leader().1, &term);

        term.add_assign(1);
        let Message { term: new_term, .. } = raft.timeout().unwrap().message;
        assert_eq!(new_term, term);
        assert_eq!(raft.leader(), (None, &term));

        term.add_assign(1);
        send(&mut raft, 2, term, rpc);
        assert_eq!(raft.leader().1, &term);
    }
}

#[test]
pub fn follower_update_term() {
    for rpc in rpc_types().iter().cloned() {
        let mut raft = raft(1, vec![2, 3], None, &mut init_random());
        let mut term = TermId::default();
        assert_eq!(raft.leader(), (None, &term));

        term.add_assign(1);
        send(&mut raft, 2, term, rpc);
        assert_eq!(raft.leader().1, &term);
    }
}

#[test]
pub fn empty_group_become_leader() {
    let mut raft = raft(1, vec![], None, &mut init_random());
    assert!(!raft.is_leader());

    raft.timeout();
    assert!(raft.is_leader());
}

#[test]
pub fn _1_peer_become_leader() {
    let mut raft = raft(1, vec![2], None, &mut init_random());
    assert!(!raft.is_leader());

    let Message { term, .. } = raft.timeout().unwrap().message;
    assert!(!raft.is_leader());

    send(&mut raft, 2, term, Rpc::VoteResponse(VoteResponse { vote_granted: true }));
    assert!(raft.is_leader());
}

#[test]
pub fn become_leader() {
    let mut raft = raft(1, vec![2, 3], None, &mut init_random());
    assert!(!raft.is_leader());

    let Message { term, .. } = raft.timeout().unwrap().message;
    assert!(!raft.is_leader());

    send(&mut raft, 2, term, Rpc::VoteResponse(VoteResponse { vote_granted: false }));
    assert!(!raft.is_leader());

    send(&mut raft, 3, term, Rpc::VoteResponse(VoteResponse { vote_granted: true }));
    assert!(raft.is_leader());
}

#[test]
pub fn vote_old_term() {
    let mut raft = raft(1, vec![2, 3], None, &mut init_random());
    let Message { term, .. } = raft.timeout().unwrap().message;
    raft.timeout();

    send(&mut raft, 2, term, Rpc::VoteResponse(VoteResponse { vote_granted: true }));
    assert!(!raft.is_leader());
}

#[test]
pub fn vote_twice() {
    let mut raft = raft(1, vec![2, 3, 4, 5], None, &mut init_random());
    let Message { term, .. } = raft.timeout().unwrap().message;

    send(&mut raft, 2, term, Rpc::VoteResponse(VoteResponse { vote_granted: true }));
    send(&mut raft, 2, term, Rpc::VoteResponse(VoteResponse { vote_granted: true }));
    assert!(!raft.is_leader());

    send(&mut raft, 3, term, Rpc::VoteResponse(VoteResponse { vote_granted: true }));
    assert!(raft.is_leader());
}

#[test]
pub fn _1_timeout() {
    TestRaftGroup::new(1, &mut init_random(), config())
        .run_on_node(0, |raft| raft.timeout())
        .inspect(|group| assert!(group.has_leader()));
}

#[test]
pub fn _2_nodes_timeout() {
    TestRaftGroup::new(2, &mut init_random(), config())
        .run_on_node(0, |raft| raft.timeout())
        .inspect(|group| assert!(group.has_leader()));
}

#[test]
pub fn _2_nodes_failed_timeout() {
    TestRaftGroup::new(2, &mut init_random(), config().node_down(1))
        .run_on_node(0, |raft| raft.timeout())
        .inspect(|group| assert!(!group.has_leader()));
}

#[test]
pub fn _3_nodes_timeout() {
    TestRaftGroup::new(3, &mut init_random(), config())
        .run_on_node(0, |raft| raft.timeout())
        .inspect(|group| assert!(group.has_leader()));
}

#[test]
pub fn _3_nodes_degraded_timeout() {
    TestRaftGroup::new(3, &mut init_random(), config().isolate(1))
        .run_on_node(0, |raft| raft.timeout())
        .inspect(|group| assert!(group.has_leader()));
}

#[test]
pub fn _3_nodes_split_timeout() {
    TestRaftGroup::new(3, &mut init_random(), config().drop_between(0, 1))
        .run_on_node(0, |raft| raft.timeout())
        .inspect(|group| assert!(group.has_leader()));
}

#[test]
pub fn _3_nodes_failed_timeout() {
    TestRaftGroup::new(3, &mut init_random(), config().node_down(1).node_down(2))
        .run_on_node(0, |raft| raft.timeout())
        .inspect(|group| assert!(!group.has_leader()));
}

#[test]
pub fn _4_nodes_degraded_timeout() {
    TestRaftGroup::new(4, &mut init_random(), config().isolate(1))
        .run_on_node(0, |raft| raft.timeout())
        .inspect(|group| assert!(group.has_leader()));
}

#[test]
pub fn _4_nodes_failed_timeout() {
    TestRaftGroup::new(4, &mut init_random(), config().isolate(1).isolate(2))
        .run_on_node(0, |raft| raft.timeout())
        .inspect(|group| assert!(!group.has_leader()));
}

#[test]
pub fn _5_nodes_degraded_timeout() {
    TestRaftGroup::new(5, &mut init_random(), config().isolate(1).isolate(2))
        .run_on_node(0, |raft| raft.timeout())
        .inspect(|group| assert!(group.has_leader()));
}

#[test]
pub fn _5_nodes_failed_timeout() {
    TestRaftGroup::new(5, &mut init_random(), config().isolate(1).isolate(2).isolate(3))
        .run_on_node(0, |raft| raft.timeout())
        .inspect(|group| assert!(!group.has_leader()));
}

#[test]
pub fn election_timeout() {
    TestRaftGroup::new(3, &mut init_random(), config())
        .run_until(|group| group.has_leader())
        .run_for_inspect(10 * CONFIG.election_timeout_ticks, |group| assert!(group.has_leader()));
}

#[test]
pub fn degraded() {
    TestRaftGroup::new(3, &mut init_random(), config().isolate(0))
        .run_until(|group| group.has_leader())
        .run_for_inspect(10 * CONFIG.election_timeout_ticks, |group| assert!(group.has_leader()));
}

#[test]
pub fn split_unstable() {
    TestRaftGroup::new(3, &mut init_random(), config().drop_between(1, 2))
        .run_on_node(1, |raft| raft.timeout())
        .inspect(|group| assert!(group.nodes[1].is_leader()))
        .run_until(|group| !group.has_leader())
        .run_until(|group| group.has_leader());
}

#[test]
pub fn split_stable() {
    TestRaftGroup::new(3, &mut init_random(), config().drop_between(1, 2))
        .run_on_node(0, |raft| raft.timeout())
        .run_for_inspect(10 * CONFIG.election_timeout_ticks, |group| {
            assert!(group.nodes[0].is_leader())
        });
}

#[test]
pub fn split_rejoin() {
    TestRaftGroup::new(3, &mut init_random(), config().drop_between(1, 2))
        .run_on_node(1, |raft| raft.timeout())
        .inspect(|group| assert!(group.nodes[1].is_leader()))
        .run_until(|group| !group.has_leader())
        .modify(|group| group.config = config())
        .run_until(|group| group.has_leader())
        .run_for_inspect(10 * CONFIG.election_timeout_ticks, |group| assert!(group.has_leader()));
}
