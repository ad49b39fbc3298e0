//! The complete state of a Raft node and its transitions.
//!
//! The first half of the module is the abstract side: [`StateView`], the value of a node
//! that the contracts speak of, and the transitions as functions from one such value to the
//! next. Two things that the node does not decide come into these functions as arguments:
//! the election timeout that was drawn, and the log as the storage left it. The contracts
//! of the node take both from the state after the call, and say in which range the timeout
//! lies and how the log may differ from the log before. The second half is [`State`], the
//! node itself, whose functions are held to the transitions.

use crate::raft::laws::{
    law_client_request_never_goes_back, law_receive_adopts_term, law_receive_never_goes_back,
    law_timeout_never_goes_back,
};
use crate::raft::log::{CommittedIter, Log, LogState, LogView};
use crate::raft::message::{
    bytes_contents, entry_views, AppendRequest, AppendRequestView, AppendResponse, EntryView, LogEntry, LogIndex, Message,
    MessageDestination, MessageView, Rpc, RpcView, SendableMessage, SendableView, TermId,
    VoteRequest, VoteResponse,
};
use crate::raft::node::{AppendError, Config};
use crate::raft::ordered::{
    ascending, lemma_push_to_set, map_get, map_insert, set_ascending, set_contains,
    set_insert, set_len, set_remove,
};
use bytes::Bytes;
use rand_core::RngCore;
use std::collections::BTreeMap;
use std::collections::BTreeSet;
use vstd::prelude::*;

verus! {

/// The state of log replication from a leader to one of its peers.
#[derive(Clone, Copy, Debug, PartialEq, Eq, Structural)]
pub struct ReplicationState {
    /// The index of the next log entry to be sent to this peer.
    pub next_idx: LogIndex,
    /// The last index up to which the peer's log is known to match this node's log.
    pub match_idx: LogIndex,
    /// The last index of the request sent to this peer and not yet acknowledged.
    pub inflight: Option<LogIndex>,
    /// Whether this node is probing for the point where the peer's log matches its own.
    pub send_probe: bool,
    /// Whether a heartbeat is due to be sent to this peer.
    pub send_heartbeat: bool,
}

struct FollowerState {
    leader: Option<u64>,
    election_ticks: u32,
    random_election_ticks: u32,
}

struct CandidateState {
    votes_granted: BTreeSet<u64>,
    election_ticks: u32,
}

struct LeaderState {
    followers: BTreeMap<u64, ReplicationState>,
    heartbeat_ticks: u32,
}

enum LeadershipState {
    Follower(FollowerState),
    Candidate(CandidateState),
    Leader(LeaderState),
}

/// The abstract value of the role of a node.
pub enum LeadershipView {
    /// Following `leader`, if one is known. An election starts when `election_ticks` runs out;
    /// the timer restarts from `random_election_ticks`.
    Follower { leader: Option<u64>, election_ticks: u32, random_election_ticks: u32 },
    /// Standing for election, with the votes of `votes_granted`.
    Candidate { votes_granted: Set<u64>, election_ticks: u32 },
    /// Leading, with the replication state of each peer.
    Leader { followers: Map<u64, ReplicationState>, heartbeat_ticks: u32 },
}

/// The abstract value of the state of a node, which the contracts speak of.
pub struct StateView {
    pub node_id: u64,
    /// The other members of the group.
    pub peers: Set<u64>,
    /// The other members of the group in ascending order, in which the node addresses them.
    pub peer_order: Seq<u64>,
    pub config: Config,
    pub current_term: TermId,
    pub voted_for: Option<u64>,
    pub leadership: LeadershipView,
    pub log: LogView,
    pub commit_idx: LogIndex,
}

/// The complete state of a Raft node.
pub struct State<L, Random> {
    node_id: u64,
    peers: BTreeSet<u64>,
    peer_ids: Vec<u64>,
    random: Random,
    config: Config,
    current_term: TermId,
    voted_for: Option<u64>,
    leadership: LeadershipState,
    log: LogState<L>,
}

/// The least number of nodes that make a quorum in a group of this node and `peer_count`
/// peers: more than half of the group.
pub open spec fn quorum_size_spec(peer_count: nat) -> nat {
    (if peer_count >= usize::MAX {
        usize::MAX as nat
    } else {
        peer_count + 1
    }) / 2 + 1
}

/// Whether `ticks` is an election timeout that may be drawn for the base `base`: at least
/// the base and less than twice the base.
pub open spec fn timeout_ok(base: u32, ticks: u32) -> bool {
    if base == 0 {
        ticks == 0
    } else {
        base <= ticks && ticks - base < base
    }
}

/// The replication state that a new leader starts with for every peer, its own log ending at
/// `last_index`.
pub open spec fn fresh_replication(last_index: int) -> ReplicationState {
    ReplicationState {
        next_idx: LogIndex { id: (last_index + 1) as u64 },
        match_idx: LogIndex { id: 0 },
        inflight: None,
        send_probe: false,
        send_heartbeat: false,
    }
}

/// The entry without data that a new leader appends in its term.
pub open spec fn noop_entry(term: TermId) -> EntryView {
    EntryView { term, data: Seq::empty() }
}

impl StateView {
    /// The invariant of a node's state.
    pub open spec fn wf(self) -> bool {
        &&& self.log.wf()
        &&& self.log.last_taken <= self.commit_idx.id <= self.log.last_index()
        &&& self.peers.finite()
        &&& !self.peers.contains(self.node_id)
        &&& ascending(self.peer_order)
        &&& self.peer_order.no_duplicates()
        &&& self.peer_order.to_set() == self.peers
        &&& match self.leadership {
            LeadershipView::Follower { .. } => true,
            LeadershipView::Candidate { votes_granted, .. } => {
                &&& votes_granted.finite()
                &&& votes_granted.contains(self.node_id)
                &&& votes_granted.subset_of(self.peers.insert(self.node_id))
            },
            LeadershipView::Leader { followers, .. } => {
                &&& followers.dom() == self.peers
                &&& forall|p: u64| #[trigger]
                    followers.contains_key(p) ==> followers[p].next_idx.id >= 1
            },
        }
    }

    /// Whether the node leads its term.
    pub open spec fn is_leader(self) -> bool {
        self.leadership is Leader
    }

    /// The leader of the current term, as far as the node knows it.
    pub open spec fn leader(self) -> Option<u64> {
        match self.leadership {
            LeadershipView::Follower { leader, .. } => leader,
            LeadershipView::Candidate { .. } => None,
            LeadershipView::Leader { .. } => Some(self.node_id),
        }
    }

    /// The size of a quorum of the node's group.
    pub open spec fn quorum(self) -> nat {
        quorum_size_spec(self.peers.len())
    }

}

/// The peers whose log is known to match the leader's up to `index`.
pub open spec fn agreeing(followers: Map<u64, ReplicationState>, peers: Set<u64>, index: int) -> Set<
    u64,
> {
    peers.filter(|p: u64| followers[p].match_idx.id >= index)
}

/// The replication states with a heartbeat due for every peer.
pub open spec fn heartbeat_due(followers: Map<u64, ReplicationState>) -> Map<u64, ReplicationState> {
    Map::new(
        |p: u64| followers.contains_key(p),
        |p: u64| ReplicationState { send_heartbeat: true, ..followers[p] },
    )
}

/// Twice `ticks`, or `u32::MAX` where that does not fit.
pub open spec fn twice(ticks: u32) -> u32 {
    if ticks > u32::MAX / 2 {
        u32::MAX
    } else {
        (ticks * 2) as u32
    }
}

/// The view of a message to be sent, if there is one.
pub open spec fn sendable_view(message: Option<SendableMessage>) -> Option<SendableView> {
    match message {
        Some(m) => Some(m@),
        None => None,
    }
}

/// Among peers listed without repetition, as many satisfy a predicate as the set of peers
/// holds members that satisfy it.
pub proof fn lemma_count_members(ids: Seq<u64>, pred: spec_fn(u64) -> bool)
    requires
        ids.no_duplicates(),
    ensures
        ids.to_set().filter(pred).len() == ids.filter(pred).len(),
        ids.to_set().filter(pred).finite(),
    decreases ids.len(),
{
    vstd::seq_lib::seq_to_set_is_finite(ids);
    if ids.len() == 0 {
        assert(ids.to_set().filter(pred) =~= Set::<u64>::empty());
        assert(ids.filter(pred).len() == 0) by {
            reveal(Seq::filter);
        }
    } else {
        let front = ids.drop_last();
        let last = ids.last();
        lemma_count_members(front, pred);
        assert(!front.to_set().contains(last));
        assert(ids =~= front.push(last));
        lemma_push_to_set(front, last);
        let kept = front.to_set().filter(pred);
        assert(ids =~= front.push(last));
        front.lemma_filter_push(last, pred);
        assert(!kept.contains(last));
        if pred(last) {
            assert(ids.to_set().filter(pred) =~= kept.insert(last));
            assert(ids.filter(pred) == front.filter(pred).push(last));
            assert(kept.insert(last).len() == kept.len() + 1);
        } else {
            assert(ids.to_set().filter(pred) =~= kept);
            assert(ids.filter(pred) == front.filter(pred));
        }
    }
}

/// The further the index, the fewer agree on it.
pub proof fn lemma_agree_monotone(s: StateView, lo: int, hi: int)
    requires
        s.peers.finite(),
        lo <= hi,
    ensures
        s.agree_count(hi) <= s.agree_count(lo),
{
    let followers = s.leadership->followers;
    assert(agreeing(followers, s.peers, hi).subset_of(agreeing(followers, s.peers, lo)));
    s.peers.lemma_len_filter(|p: u64| followers[p].match_idx.id >= lo);
    vstd::set_lib::lemma_len_subset(
        agreeing(followers, s.peers, hi),
        agreeing(followers, s.peers, lo),
    );
}

/// There is at most one greatest index on which a quorum agrees.
pub proof fn lemma_quorum_index_unique(s: StateView, c1: int, c2: int)
    requires
        s.peers.finite(),
        s.is_quorum_index(c1),
        s.is_quorum_index(c2),
    ensures
        c1 == c2,
{
    if c1 < c2 {
        lemma_agree_monotone(s, c1 + 1, c2);
    }
    if c2 < c1 {
        lemma_agree_monotone(s, c2 + 1, c1);
    }
}

/// The greatest index on which a quorum agrees is the last index of the leader's log or the
/// `match_idx` of a follower.
pub proof fn lemma_quorum_index_is_held(s: StateView, c: int)
    requires
        s.peers.finite(),
        s.is_quorum_index(c),
    ensures
        s.log.last_index() == c || exists|p: u64|
            s.peers.contains(p) && (#[trigger] s.leadership->followers[p]).match_idx.id == c,
{
    let followers = s.leadership->followers;
    if s.log.last_index() != c && !(exists|p: u64|
        s.peers.contains(p) && (#[trigger] followers[p]).match_idx.id == c) {
        assert(agreeing(followers, s.peers, c) =~= agreeing(followers, s.peers, c + 1)) by {
            assert forall|p: u64| agreeing(followers, s.peers, c).contains(p) implies agreeing(
                followers,
                s.peers,
                c + 1,
            ).contains(p) by {
                assert(followers[p].match_idx.id != c);
            }
        }
    }
}


impl StateView {
    /// The number of group members whose log is known to match the node's up to `index`:
    /// the node itself, if its log reaches that far, and the followers whose `match_idx` does.
    pub open spec fn agree_count(self, index: int) -> nat
        recommends
            self.leadership is Leader,
    {
        agreeing(self.leadership->followers, self.peers, index).len() + (if self.log.last_index()
            >= index {
            1nat
        } else {
            0nat
        })
    }

    /// Whether `index` is the greatest index on which a quorum agrees.
    pub open spec fn is_quorum_index(self, index: int) -> bool {
        self.agree_count(index) >= self.quorum() && self.agree_count(index + 1) < self.quorum()
    }

    /// The state after the leader advanced its commit index: to the greatest index on which a
    /// quorum agrees, provided that the entry there is of the current term and the index is
    /// beyond the commit index. Nothing changes otherwise.
    pub open spec fn advance_commit(self) -> StateView {
        if self.leadership is Leader && exists|c: int| self.is_quorum_index(c) {
            let c = choose|c: int| self.is_quorum_index(c);
            if self.log.term_at(c) == Some(self.current_term) && c > self.commit_idx.id {
                StateView { commit_idx: LogIndex { id: c as u64 }, ..self }
            } else {
                self
            }
        } else {
            self
        }
    }

    /// Whether `log2` may be the log after an attempt to append `entry`: the log with the
    /// entry at its end, and with nothing lost but taken entries at the front, or the log
    /// as it was where the entry was refused.
    pub open spec fn append_step(self, entry: EntryView, log2: LogView) -> bool {
        if log2.last_index() > self.log.last_index() {
            log2.appended_to(self.log, entry)
        } else {
            log2 == self.log
        }
    }

    /// The state of a leader after an attempt to append to its log left the log as `log2`:
    /// where the log grew, the commit index advances.
    pub open spec fn client_request(self, log2: LogView) -> StateView {
        let s = StateView { log: log2, ..self };
        if log2.last_index() > self.log.last_index() {
            s.advance_commit()
        } else {
            s
        }
    }

    /// Whether the node is a candidate with the votes of a quorum.
    pub open spec fn wins_election(self) -> bool {
        self.leadership matches LeadershipView::Candidate { votes_granted, .. }
            && votes_granted.len() >= self.quorum()
    }

    /// The state after a candidate with a quorum of votes took the lead: every peer gets a
    /// fresh replication state, and a no-op entry of the new term is appended, which leaves
    /// the log as `log2`. Any other node stays as it is.
    pub open spec fn become_leader(self, log2: LogView) -> StateView {
        if self.wins_election() {
            (StateView {
                leadership: LeadershipView::Leader {
                    followers: Map::new(
                        |p: u64| self.peers.contains(p),
                        |p: u64| fresh_replication(self.log.last_index()),
                    ),
                    heartbeat_ticks: 0,
                },
                ..self
            }).client_request(log2)
        } else {
            self
        }
    }

    /// Whether `log2` may be the log after [`Self::become_leader`].
    pub open spec fn become_leader_step(self, log2: LogView) -> bool {
        if self.wins_election() {
            self.append_step(noop_entry(self.current_term), log2)
        } else {
            log2 == self.log
        }
    }

    /// The election timeout drawn last, as far as the state still shows it.
    pub open spec fn drawn(self) -> u32 {
        match self.leadership {
            LeadershipView::Follower { random_election_ticks, .. } => random_election_ticks,
            LeadershipView::Candidate { election_ticks, .. } => election_ticks,
            LeadershipView::Leader { .. } => 0,
        }
    }

    /// Whether a new election may start: a leader starts none, and any other node needs a
    /// term after the current one.
    pub open spec fn can_time_out(self) -> bool {
        self.is_leader() || self.current_term.id < u64::MAX
    }

    /// The state after an election timeout on a node that does not lead: the node enters the
    /// next term as a candidate with its own vote and the election timeout `ticks`, takes the
    /// lead at once if its vote is a quorum, and advances the commit index if it leads.
    pub open spec fn timeout(self, ticks: u32, log2: LogView) -> StateView {
        if self.is_leader() {
            self
        } else {
            (StateView {
                current_term: TermId { id: (self.current_term.id + 1) as u64 },
                voted_for: Some(self.node_id),
                leadership: LeadershipView::Candidate {
                    votes_granted: Set::empty().insert(self.node_id),
                    election_ticks: ticks,
                },
                ..self
            }).become_leader(log2).advance_commit()
        }
    }

    /// Whether `log2` may be the log after [`Self::timeout`].
    pub open spec fn timeout_step(self, log2: LogView) -> bool {
        if self.is_leader() {
            log2 == self.log
        } else {
            (StateView {
                current_term: TermId { id: (self.current_term.id + 1) as u64 },
                leadership: LeadershipView::Candidate {
                    votes_granted: Set::empty().insert(self.node_id),
                    election_ticks: 0,
                },
                ..self
            }).become_leader_step(log2)
        }
    }

    /// The request for votes that a candidate sends, to `dest`.
    pub open spec fn vote_request(self, dest: MessageDestination) -> Option<SendableView> {
        if self.leadership is Candidate {
            Some(
                SendableView {
                    message: MessageView {
                        term: self.current_term,
                        rpc: Some(
                            RpcView::VoteRequest(
                                VoteRequest {
                                    last_log_idx: LogIndex { id: self.log.last_index() as u64 },
                                    last_log_term: self.log.last_term(),
                                },
                            ),
                        ),
                    },
                    dest,
                },
            )
        } else {
            None
        }
    }

    /// Whether the next tick of the timer starts an election.
    pub open spec fn election_due(self) -> bool {
        match self.leadership {
            LeadershipView::Follower { election_ticks, .. } => election_ticks <= 1,
            LeadershipView::Candidate { election_ticks, .. } => election_ticks <= 1,
            LeadershipView::Leader { .. } => false,
        }
    }

    /// The state after a tick of the timer. On a node that does not lead, the election timer
    /// goes down by one, and an election starts where it reaches 0. On a leader, the
    /// heartbeat timer goes down by one; where it reaches 0, a heartbeat falls due for every
    /// peer and the timer starts again from the configured interval.
    pub open spec fn timer_tick(self, ticks: u32, log2: LogView) -> StateView {
        match self.leadership {
            LeadershipView::Follower { leader, election_ticks, random_election_ticks } => {
                if election_ticks <= 1 {
                    self.timeout(ticks, log2)
                } else {
                    StateView {
                        leadership: LeadershipView::Follower {
                            leader,
                            election_ticks: (election_ticks - 1) as u32,
                            random_election_ticks,
                        },
                        ..self
                    }
                }
            },
            LeadershipView::Candidate { votes_granted, election_ticks } => {
                if election_ticks <= 1 {
                    self.timeout(ticks, log2)
                } else {
                    StateView {
                        leadership: LeadershipView::Candidate {
                            votes_granted,
                            election_ticks: (election_ticks - 1) as u32,
                        },
                        ..self
                    }
                }
            },
            LeadershipView::Leader { followers, heartbeat_ticks } => {
                if heartbeat_ticks <= 1 {
                    StateView {
                        leadership: LeadershipView::Leader {
                            followers: heartbeat_due(followers),
                            heartbeat_ticks: self.config.heartbeat_interval_ticks,
                        },
                        ..self
                    }
                } else {
                    StateView {
                        leadership: LeadershipView::Leader {
                            followers,
                            heartbeat_ticks: (heartbeat_ticks - 1) as u32,
                        },
                        ..self
                    }
                }
            },
        }
    }

    /// The state after the node was given the parameters `config`. Timers that lie beyond
    /// twice the new election timeout are drawn anew as `ticks`; a follower's running timer
    /// is cut to its restart value and a leader's to the heartbeat interval.
    pub open spec fn set_config(self, config: Config, ticks: u32) -> StateView {
        StateView {
            config,
            leadership: match self.leadership {
                LeadershipView::Follower { leader, election_ticks, random_election_ticks } => {
                    let restart = if random_election_ticks > twice(config.election_timeout_ticks) {
                        ticks
                    } else {
                        random_election_ticks
                    };
                    LeadershipView::Follower {
                        leader,
                        election_ticks: if election_ticks > restart {
                            restart
                        } else {
                            election_ticks
                        },
                        random_election_ticks: restart,
                    }
                },
                LeadershipView::Candidate { votes_granted, election_ticks } => {
                    LeadershipView::Candidate {
                        votes_granted,
                        election_ticks: if election_ticks > twice(config.election_timeout_ticks) {
                            ticks
                        } else {
                            election_ticks
                        },
                    }
                },
                LeadershipView::Leader { followers, heartbeat_ticks } => LeadershipView::Leader {
                    followers,
                    heartbeat_ticks: if heartbeat_ticks > config.heartbeat_interval_ticks {
                        config.heartbeat_interval_ticks
                    } else {
                        heartbeat_ticks
                    },
                },
            },
            ..self
        }
    }

    /// Whether [`Self::set_config`] draws a timeout anew.
    pub open spec fn set_config_draws(self, config: Config) -> bool {
        match self.leadership {
            LeadershipView::Follower { random_election_ticks, .. } => random_election_ticks
                > twice(config.election_timeout_ticks),
            LeadershipView::Candidate { election_ticks, .. } => election_ticks > twice(
                config.election_timeout_ticks,
            ),
            LeadershipView::Leader { .. } => false,
        }
    }

    /// The state after the connection to `peer` was reset: a leader starts over with that
    /// peer, probing from the end of its own log. Nothing changes on other nodes, nor for an
    /// unknown peer.
    pub open spec fn reset_peer(self, peer: u64) -> StateView {
        match self.leadership {
            LeadershipView::Leader { followers, heartbeat_ticks } => {
                if followers.contains_key(peer) {
                    StateView {
                        leadership: LeadershipView::Leader {
                            followers: followers.insert(
                                peer,
                                ReplicationState {
                                    next_idx: LogIndex { id: (self.log.last_index() + 1) as u64 },
                                    send_probe: true,
                                    send_heartbeat: true,
                                    inflight: None,
                                    ..followers[peer]
                                },
                            ),
                            heartbeat_ticks,
                        },
                        ..self
                    }
                } else {
                    self
                }
            },
            _ => self,
        }
    }

    /// What [`Self::reset_peer`] leaves to be sent: on a candidate, the request for the
    /// peer's vote again.
    pub open spec fn reset_peer_message(self, peer: u64) -> Option<SendableView> {
        if self.leadership is Candidate && self.peers.contains(peer) {
            self.vote_request(MessageDestination::To(peer))
        } else {
            None
        }
    }
}

impl View for LeadershipState {
    type V = LeadershipView;

    closed spec fn view(&self) -> LeadershipView {
        match *self {
            LeadershipState::Follower(f) => LeadershipView::Follower {
                leader: f.leader,
                election_ticks: f.election_ticks,
                random_election_ticks: f.random_election_ticks,
            },
            LeadershipState::Candidate(c) => LeadershipView::Candidate {
                votes_granted: c.votes_granted@,
                election_ticks: c.election_ticks,
            },
            LeadershipState::Leader(l) => LeadershipView::Leader {
                followers: l.followers@,
                heartbeat_ticks: l.heartbeat_ticks,
            },
        }
    }
}

/// Computes the minimum size of a quorum of nodes in a Raft group of this node and
/// `peer_count` peers.
pub fn quorum_size(peer_count: usize) -> (r: usize)
    ensures
        r == quorum_size_spec(peer_count as nat),
        peer_count < usize::MAX ==> r == (peer_count + 1) / 2 + 1,
{
    (peer_count.saturating_add(1)) / 2 + 1
}

/// Draws the next 32 bits from a random source by `RngCore::next_u32`. Nothing is claimed of
/// the number drawn.
#[verifier::external_body]
fn draw_u32<Random: RngCore>(random: &mut Random) -> (r: u32) {
    random.next_u32()
}

/// The election timeout for the base `election_timeout_ticks` and a number drawn at random:
/// the base plus the remainder of the number by the base.
pub fn election_timeout_from(drawn: u32, election_timeout_ticks: u32) -> (r: u32)
    ensures
        timeout_ok(election_timeout_ticks, r),
        election_timeout_ticks == 0 ==> r == 0,
        election_timeout_ticks > 0 ==> r == (if election_timeout_ticks + drawn
            % election_timeout_ticks > u32::MAX {
            u32::MAX as int
        } else {
            election_timeout_ticks + drawn % election_timeout_ticks
        }),
{
    let random = match drawn.checked_rem(election_timeout_ticks) {
        Some(r) => r,
        None => 0,
    };
    election_timeout_ticks.saturating_add(random)
}

fn random_election_timeout<Random: RngCore>(random: &mut Random, election_timeout_ticks: u32) -> (r:
    u32)
    ensures
        timeout_ok(election_timeout_ticks, r),
{
    let drawn = draw_u32(random);
    election_timeout_from(drawn, election_timeout_ticks)
}

/// The sum of two sizes, or `usize::MAX` where it does not fit.
pub open spec fn size_sum(a: usize, b: usize) -> usize {
    if a + b > usize::MAX {
        usize::MAX
    } else {
        (a + b) as usize
    }
}

/// How many entries, from index `idx` on, go into one request when entries of the summed
/// size `size` were chosen already and `max` bytes are allowed. The first entry always goes;
/// another goes as long as the request is not full and stays within `max` with it.
pub open spec fn chunk_len<L: Log>(log: LogView, idx: int, size: usize, max: usize) -> nat
    decreases log.last_index() - idx + 1,
{
    if !log.has(idx) {
        0
    } else if size != 0 && size == max {
        0
    } else {
        let more = size_sum(size, L::entry_size(log.entry(idx)));
        if size == 0 || more <= max {
            1 + chunk_len::<L>(log, idx + 1, more, max)
        } else {
            0
        }
    }
}

impl StateView {
    /// The request that a leader has for the peer `to` at this moment, and the peer's
    /// replication state once the request is on its way. There is none on other nodes, for an
    /// unknown peer, while a request is in flight, where neither entries nor a heartbeat are
    /// due, nor where the term before the first entry to send is no longer known.
    pub open spec fn append_request_for<L: Log>(self, to: u64) -> Option<
        (AppendRequestView, ReplicationState),
    > {
        if self.leadership is Leader && self.leadership->followers.contains_key(to) {
            let replication = self.leadership->followers[to];
            let next = replication.next_idx.id as int;
            let send_entries = self.log.last_index() >= next && !replication.send_probe;
            if (!send_entries && !replication.send_heartbeat) || replication.inflight is Some {
                None
            } else {
                let prev = if next >= 1 {
                    next - 1
                } else {
                    0
                };
                let prev_term = if prev != 0 {
                    self.log.term_at(prev)
                } else {
                    Some(TermId { id: 0 })
                };
                match prev_term {
                    None => None,
                    Some(prev_log_term) => {
                        let n = if send_entries {
                            chunk_len::<L>(self.log, next, 0, self.config.replication_chunk_size)
                        } else {
                            0
                        };
                        let last_entry = prev + n;
                        Some(
                            (
                                AppendRequestView {
                                    prev_log_idx: LogIndex { id: prev as u64 },
                                    prev_log_term,
                                    leader_commit: if self.commit_idx.id <= last_entry {
                                        self.commit_idx
                                    } else {
                                        LogIndex { id: last_entry as u64 }
                                    },
                                    entries: if n == 0 {
                                        Seq::empty()
                                    } else {
                                        self.log.between(prev, last_entry)
                                    },
                                },
                                ReplicationState {
                                    send_heartbeat: false,
                                    inflight: Some(LogIndex { id: last_entry as u64 }),
                                    ..replication
                                },
                            ),
                        )
                    },
                }
            }
        } else {
            None
        }
    }

    /// The state after the request for the peer `to`, if there is one, was made.
    pub open spec fn append_entries<L: Log>(self, to: u64) -> StateView {
        match self.append_request_for::<L>(to) {
            Some((_, replication)) => StateView {
                leadership: LeadershipView::Leader {
                    followers: self.leadership->followers.insert(to, replication),
                    heartbeat_ticks: self.leadership->heartbeat_ticks,
                },
                ..self
            },
            None => self,
        }
    }

    /// The request for the peer `to`, if there is one, as a message to be sent.
    pub open spec fn append_entries_message<L: Log>(self, to: u64) -> Option<SendableView> {
        match self.append_request_for::<L>(to) {
            Some((request, _)) => Some(
                SendableView {
                    message: MessageView {
                        term: self.current_term,
                        rpc: Some(RpcView::AppendRequest(request)),
                    },
                    dest: MessageDestination::To(to),
                },
            ),
            None => None,
        }
    }
}

impl LogView {
    /// The log with `more` added at the end, in order.
    pub open spec fn extend(self, more: Seq<EntryView>) -> LogView {
        LogView { entries: self.entries + more, ..self }
    }
}

/// How far the entries of a request agree with the log: the position of the first of
/// `entries`, from position `k` on, whose index the log does not hold with the same term.
/// The entries lie at the indices after `prev`.
pub open spec fn matching_prefix(log: LogView, prev: int, entries: Seq<EntryView>, k: int) -> int
    decreases entries.len() - k,
{
    if 0 <= k < entries.len() && prev + 1 + k <= log.last_index() && log.term_at(prev + 1 + k)
        == Some(entries[k].term) {
        matching_prefix(log, prev, entries, k + 1)
    } else {
        k
    }
}

/// Whether the log `after` is `base` with the entries of `entries` from position `a` on
/// appended as far as the log grew, and with nothing lost but taken entries at the front.
pub open spec fn appended_run(base: LogView, entries: Seq<EntryView>, a: int, after: LogView) -> bool {
    let j = a + after.last_index() - base.last_index();
    &&& a <= j <= entries.len()
    &&& base.prev_index <= after.prev_index <= base.last_taken
    &&& after == base.evict(after.prev_index - base.prev_index).extend(entries.subrange(a, j))
}

/// Whether `after` may be the log once a follower with the log `log` took in the entries of
/// an accepted request, which lie at the indices after `prev`. Entries that the log holds
/// with the same term are passed over. From the first that it does not hold so, the rest is
/// appended, after the log was cut from there on where it held something else. The log may
/// refuse to go on at any point.
pub open spec fn walk_ok(log: LogView, prev: int, entries: Seq<EntryView>, after: LogView) -> bool {
    let a = matching_prefix(log, prev, entries, 0);
    let i = prev + 1 + a;
    if a == entries.len() {
        after == log
    } else if i == log.last_index() + 1 {
        appended_run(log, entries, a, after)
    } else {
        after == log || appended_run(log.truncate(i), entries, a, after)
    }
}

/// Whether the log of a follower was cut where a request to append asked for it: where the
/// log held another term at the index of an entry, the log was cut there and goes on with
/// the entries of the request.
pub open spec fn cut_where_asked(
    log: LogView,
    prev: int,
    entries: Seq<EntryView>,
    after: LogView,
) -> bool {
    let a = matching_prefix(log, prev, entries, 0);
    a < entries.len() && prev + 1 + a <= log.last_index() ==> appended_run(
        log.truncate(prev + 1 + a),
        entries,
        a,
        after,
    )
}

/// Whether an accepted request, whose entries lie at the indices after `prev`, brings an
/// entry that the log `log` does not hold with the same term.
pub open spec fn brings_new(log: LogView, prev: int, entries: Seq<EntryView>) -> bool {
    0 <= matching_prefix(log, prev, entries, 0) < entries.len()
}

/// Whether a follower with the log `log` has only to add to its end to take in the entries
/// of an accepted request: the log holds some of them, with the same terms, up to its end,
/// and the rest is new.
pub open spec fn adds_to(log: LogView, prev: int, entries: Seq<EntryView>) -> bool {
    brings_new(log, prev, entries) && prev + matching_prefix(log, prev, entries, 0)
        == log.last_index()
}

/// Whether a follower that went from the log `log` to the log `after` began to take in the
/// new entries of an accepted request, and stopped before the last of them.
pub open spec fn stopped_short(
    log: LogView,
    prev: int,
    entries: Seq<EntryView>,
    after: LogView,
) -> bool {
    &&& brings_new(log, prev, entries)
    &&& adds_to(log, prev, entries) || after != log
    &&& prev <= after.last_index() < prev + entries.len()
}

/// The entry of a request that comes after the end of the log `after`.
pub open spec fn next_due(prev: int, entries: Seq<EntryView>, after: LogView) -> EntryView
    recommends
        prev <= after.last_index() < prev + entries.len(),
{
    entries[after.last_index() - prev]
}

/// Whether the log `after` holds, at its index, the first of the entries of a request that
/// the log `log` did not hold with the same term.
pub open spec fn holds_first_new(
    log: LogView,
    prev: int,
    entries: Seq<EntryView>,
    after: LogView,
) -> bool {
    let i = prev + 1 + matching_prefix(log, prev, entries, 0);
    after.has(i) && after.entry(i) == first_new(log, prev, entries)
}

/// The first of the entries of a request that the log does not hold with the same term.
pub open spec fn first_new(log: LogView, prev: int, entries: Seq<EntryView>) -> EntryView
    recommends
        0 <= matching_prefix(log, prev, entries, 0) < entries.len(),
{
    entries[matching_prefix(log, prev, entries, 0)]
}

/// How many of the entries of an accepted request were dealt with, the log having gone from
/// `log` to `after`.
pub open spec fn processed(log: LogView, prev: int, entries: Seq<EntryView>, after: LogView) -> int {
    let a = matching_prefix(log, prev, entries, 0);
    if a == entries.len() || after == log {
        a
    } else {
        after.last_index() - prev
    }
}

/// Whether an entry of the request lies at a committed index where the log does not hold
/// it with its term: such a request contradicts what was committed, and is never to be
/// taken in.
pub open spec fn conflicts_with_committed(
    log: LogView,
    commit: int,
    prev: int,
    entries: Seq<EntryView>,
) -> bool {
    exists|k: int|
        0 <= k < entries.len() && prev + 1 + k <= commit && log.term_at(prev + 1 + k) != Some(
            (#[trigger] entries[k]).term,
        )
}

/// The entries of a request agree with the log from a position on up to a position no
/// earlier, and no further than there are entries.
pub proof fn lemma_matching_prefix_bounds(log: LogView, prev: int, entries: Seq<EntryView>, k: int)
    requires
        0 <= k <= entries.len(),
    ensures
        k <= matching_prefix(log, prev, entries, k) <= entries.len(),
    decreases entries.len() - k,
{
    if 0 <= k < entries.len() && prev + 1 + k <= log.last_index() && log.term_at(prev + 1 + k)
        == Some(entries[k].term) {
        lemma_matching_prefix_bounds(log, prev, entries, k + 1);
    }
}

/// A run of appended entries goes on with one more entry, or ends where the log refuses it.
pub proof fn lemma_run_step(
    base: LogView,
    entries: Seq<EntryView>,
    a: int,
    k: int,
    cur: LogView,
    next: LogView,
)
    requires
        base.wf(),
        0 <= a <= k < entries.len(),
        appended_run(base, entries, a, cur),
        cur.last_index() == base.last_index() + (k - a),
        next.appended_to(cur, entries[k]) || next == cur,
    ensures
        appended_run(base, entries, a, next),
        next.appended_to(cur, entries[k]) ==> next.last_index() == cur.last_index() + 1,
{
    let n = cur.prev_index - base.prev_index;
    let d = next.prev_index - cur.prev_index;
    let run = entries.subrange(a, k);
    assert(cur.entries == base.entries.skip(n) + run);
    assert(cur.entries.skip(d) =~= base.entries.skip(n + d) + run);
    if d > 0 {
        assert(cur.entries[d - 1] == base.entries[n + d - 1]);
    }
    if next.appended_to(cur, entries[k]) {
        assert(entries.subrange(a, k + 1) =~= run.push(entries[k]));
        assert(next.entries =~= base.entries.skip(n + d) + entries.subrange(a, k + 1));
    } else {
        assert(next.entries =~= base.entries.skip(n + d) + run);
    }
}

/// The replication state of a peer after it confirmed that its log matches the leader's up
/// to `response.match_idx`: the peer's indices move up to there and never back, probing
/// ends, and a request in flight counts as answered if it reached no further.
pub open spec fn on_append_success(
    replication: ReplicationState,
    response: AppendResponse,
) -> ReplicationState {
    ReplicationState {
        next_idx: if response.match_idx.id + 1 > replication.next_idx.id {
            LogIndex { id: (response.match_idx.id + 1) as u64 }
        } else {
            replication.next_idx
        },
        match_idx: if response.match_idx.id > replication.match_idx.id {
            response.match_idx
        } else {
            replication.match_idx
        },
        inflight: match replication.inflight {
            Some(sent) => if response.match_idx.id >= sent.id {
                None
            } else {
                Some(sent)
            },
            None => None,
        },
        send_probe: false,
        send_heartbeat: replication.send_heartbeat,
    }
}

/// Where probing goes on after it stepped back to `next`: further back by one entry at a
/// time, as long as the index stays beyond `floor` and the entry at hand is held and fits
/// into what is left of `budget` bytes.
pub open spec fn rewind<L: Log>(log: LogView, next: int, floor: int, budget: usize) -> int
    decreases next,
{
    if next >= 1 && next - 1 > floor && log.has(next) && L::entry_size(log.entry(next)) <= budget {
        rewind::<L>(
            log,
            next - 1,
            floor,
            (budget - L::entry_size(log.entry(next))) as usize,
        )
    } else {
        next
    }
}

/// The index that a leader steps back to when a peer rejects a request: one before the
/// next index, but no further on than one past the end of the peer's log, and beyond what
/// the peer says it holds from before.
pub open spec fn probe_start(replication: ReplicationState, response: AppendResponse) -> int {
    let back = if replication.next_idx.id >= 1 {
        replication.next_idx.id - 1
    } else {
        0
    };
    let capped = if back <= response.last_log_idx.id + 1 {
        back
    } else {
        response.last_log_idx.id + 1
    };
    if capped >= response.match_idx.id + 1 {
        capped
    } else {
        response.match_idx.id + 1
    }
}

/// The replication state of a peer after it rejected a request: the leader probes, from
/// [`probe_start`] stepped back further by as many entries as fit into `chunk` bytes.
pub open spec fn on_append_failure<L: Log>(
    replication: ReplicationState,
    response: AppendResponse,
    log: LogView,
    chunk: usize,
) -> ReplicationState {
    ReplicationState {
        next_idx: LogIndex {
            id: rewind::<L>(
                log,
                probe_start(replication, response),
                response.match_idx.id as int,
                chunk,
            ) as u64,
        },
        send_probe: true,
        inflight: None,
        ..replication
    }
}

/// Stepping back ends beyond the floor and no further on than where it began.
pub proof fn lemma_rewind_bounds<L: Log>(log: LogView, next: int, floor: int, budget: usize)
    requires
        floor < next,
    ensures
        floor < rewind::<L>(log, next, floor, budget) <= next,
    decreases next,
{
    if next >= 1 && next - 1 > floor && log.has(next) && L::entry_size(log.entry(next)) <= budget {
        lemma_rewind_bounds::<L>(
            log,
            next - 1,
            floor,
            (budget - L::entry_size(log.entry(next))) as usize,
        );
    }
}

impl StateView {
    /// The state after the node saw the term `msg_term` in a message: a later term than its
    /// own makes it a follower of that term with no vote cast and no leader known. A node
    /// that led draws the election timeout `ticks`; any other keeps its running timer.
    pub open spec fn update_term(self, msg_term: TermId, ticks: u32) -> StateView {
        if msg_term.id > self.current_term.id {
            StateView {
                current_term: msg_term,
                voted_for: None,
                leadership: LeadershipView::Follower {
                    leader: None,
                    election_ticks: match self.leadership {
                        LeadershipView::Follower { election_ticks, .. } => election_ticks,
                        LeadershipView::Candidate { election_ticks, .. } => election_ticks,
                        LeadershipView::Leader { .. } => ticks,
                    },
                    random_election_ticks: ticks,
                },
                ..self
            }
        } else {
            self
        }
    }

    /// Whether the log of a candidate is at least as far as the node's own.
    pub open spec fn vote_log_ok(self, request: VoteRequest) -> bool {
        request.last_log_term.id > self.log.last_term().id || (request.last_log_term
            == self.log.last_term() && request.last_log_idx.id >= self.log.last_index())
    }

    /// Whether the node grants its vote: the request is of the node's term, the candidate's
    /// log is at least as far as its own, and it has not voted for another in this term.
    pub open spec fn grants_vote(self, msg_term: TermId, request: VoteRequest, from: u64) -> bool {
        &&& msg_term == self.current_term
        &&& self.vote_log_ok(request)
        &&& (self.voted_for is None || self.voted_for == Some(from))
    }

    /// The state after a request for the node's vote: where the vote is granted it is
    /// recorded, and a follower starts its election timer again.
    pub open spec fn handle_vote_request(
        self,
        msg_term: TermId,
        request: VoteRequest,
        from: u64,
    ) -> StateView {
        if self.grants_vote(msg_term, request, from) {
            StateView {
                voted_for: Some(from),
                leadership: match self.leadership {
                    LeadershipView::Follower { leader, random_election_ticks, .. } => {
                        LeadershipView::Follower {
                            leader,
                            election_ticks: random_election_ticks,
                            random_election_ticks,
                        }
                    },
                    other => other,
                },
                ..self
            }
        } else {
            self
        }
    }

    /// The state after a vote came in that is not stale: a candidate counts a vote granted.
    pub open spec fn handle_vote_response(self, response: VoteResponse, from: u64) -> StateView {
        match self.leadership {
            LeadershipView::Candidate { votes_granted, election_ticks } => {
                if response.vote_granted {
                    StateView {
                        leadership: LeadershipView::Candidate {
                            votes_granted: votes_granted.insert(from),
                            election_ticks,
                        },
                        ..self
                    }
                } else {
                    self
                }
            },
            _ => self,
        }
    }

    /// The state after the answer of the peer `from` to a request to append came in that is
    /// not stale: a leader brings the peer's replication state up to date.
    pub open spec fn handle_append_response<L: Log>(
        self,
        response: AppendResponse,
        from: u64,
    ) -> StateView {
        match self.leadership {
            LeadershipView::Leader { followers, heartbeat_ticks } => {
                if followers.contains_key(from) {
                    StateView {
                        leadership: LeadershipView::Leader {
                            followers: followers.insert(
                                from,
                                if response.success {
                                    on_append_success(followers[from], response)
                                } else {
                                    on_append_failure::<L>(
                                        followers[from],
                                        response,
                                        self.log,
                                        self.config.replication_chunk_size,
                                    )
                                },
                            ),
                            heartbeat_ticks,
                        },
                        ..self
                    }
                } else {
                    self
                }
            },
            _ => self,
        }
    }

    /// Whether the node's log holds, at the index before the entries of the request, the
    /// term that the request names for it. At index 0 every log does.
    pub open spec fn append_log_ok(self, request: AppendRequestView) -> bool {
        request.prev_log_idx.id == 0 || self.log.term_at(request.prev_log_idx.id as int) == Some(
            request.prev_log_term,
        )
    }

    /// The state after the node took `from` for the leader of its term: a candidate turns
    /// follower with the election timeout `ticks`, and a follower starts its election timer
    /// again.
    pub open spec fn follow(self, from: u64, ticks: u32) -> StateView {
        match self.leadership {
            LeadershipView::Candidate { .. } => StateView {
                leadership: LeadershipView::Follower {
                    leader: Some(from),
                    election_ticks: ticks,
                    random_election_ticks: ticks,
                },
                ..self
            },
            LeadershipView::Follower { random_election_ticks, .. } => StateView {
                leadership: LeadershipView::Follower {
                    leader: Some(from),
                    election_ticks: random_election_ticks,
                    random_election_ticks,
                },
                ..self
            },
            LeadershipView::Leader { .. } => self,
        }
    }

    /// Whether the node takes the entries of the request in: the request is of the node's
    /// term and fits its log.
    pub open spec fn takes_in(self, msg_term: TermId, request: AppendRequestView) -> bool {
        msg_term.id >= self.current_term.id && self.append_log_ok(request)
    }

    /// The state after a request to append from `from`, the log being left as `log2` where
    /// the entries were taken in. The commit index follows the leader's as far as the
    /// entries dealt with reach, and never goes back.
    pub open spec fn handle_append_request(
        self,
        msg_term: TermId,
        request: AppendRequestView,
        from: u64,
        ticks: u32,
        log2: LogView,
    ) -> StateView {
        let followed = if msg_term == self.current_term {
            self.follow(from, ticks)
        } else {
            self
        };
        if self.takes_in(msg_term, request) {
            let reached = request.prev_log_idx.id + processed(
                self.log,
                request.prev_log_idx.id as int,
                request.entries,
                log2,
            );
            let leader_commit = if request.leader_commit.id <= reached {
                request.leader_commit.id as int
            } else {
                reached
            };
            StateView {
                log: log2,
                commit_idx: if leader_commit > self.commit_idx.id {
                    LogIndex { id: leader_commit as u64 }
                } else {
                    self.commit_idx
                },
                ..followed
            }
        } else {
            followed
        }
    }

    /// The answer to a request to append.
    pub open spec fn append_reply(
        self,
        msg_term: TermId,
        request: AppendRequestView,
        from: u64,
        log2: LogView,
    ) -> SendableView {
        let response = if self.takes_in(msg_term, request) {
            AppendResponse {
                success: true,
                match_idx: if request.prev_log_idx.id + request.entries.len() <= log2.last_index() {
                    LogIndex { id: (request.prev_log_idx.id + request.entries.len()) as u64 }
                } else {
                    LogIndex { id: log2.last_index() as u64 }
                },
                last_log_idx: LogIndex { id: log2.last_index() as u64 },
            }
        } else {
            AppendResponse {
                success: false,
                match_idx: LogIndex { id: self.log.prev_index as u64 },
                last_log_idx: LogIndex { id: self.log.last_index() as u64 },
            }
        };
        SendableView {
            message: MessageView {
                term: self.current_term,
                rpc: Some(RpcView::AppendResponse(response)),
            },
            dest: MessageDestination::To(from),
        }
    }

    /// The answer to a request for the node's vote.
    pub open spec fn vote_reply(self, msg_term: TermId, request: VoteRequest, from: u64) -> SendableView {
        SendableView {
            message: MessageView {
                term: self.current_term,
                rpc: Some(
                    RpcView::VoteResponse(
                        VoteResponse { vote_granted: self.grants_vote(msg_term, request, from) },
                    ),
                ),
            },
            dest: MessageDestination::To(from),
        }
    }

    /// Whether the node may be handed the message. A message is refused where taking it in
    /// would break the safety of the group or the range of an index: a request to append
    /// that reaches a leader of the same term or contradicts a committed entry, and
    /// messages with indices at the very end of the 64-bit range.
    pub open spec fn accepts(self, msg: MessageView, from: u64) -> bool {
        self.peers.contains(from) ==> match msg.rpc {
            Some(RpcView::AppendRequest(request)) => {
                &&& !(msg.term == self.current_term && self.is_leader())
                &&& self.takes_in(msg.term, request) ==> {
                    &&& request.prev_log_idx.id + request.entries.len() < u64::MAX
                    &&& !conflicts_with_committed(
                        self.log,
                        self.commit_idx.id as int,
                        request.prev_log_idx.id as int,
                        request.entries,
                    )
                }
            },
            Some(RpcView::AppendResponse(response)) => {
                msg.term == self.current_term && self.is_leader() ==> {
                    &&& response.match_idx.id < u64::MAX
                    &&& !response.success ==> response.last_log_idx.id < u64::MAX
                }
            },
            _ => true,
        }
    }

    /// The state after the call that a message carries was dealt with, the term having been
    /// brought up to date before. Answers of an earlier term are dropped.
    pub open spec fn handle<L: Log>(
        self,
        msg: MessageView,
        from: u64,
        ticks: u32,
        log2: LogView,
    ) -> StateView {
        match msg.rpc {
            Some(RpcView::VoteRequest(request)) => self.handle_vote_request(msg.term, request, from),
            Some(RpcView::VoteResponse(response)) => if msg.term.id < self.current_term.id {
                self
            } else {
                self.handle_vote_response(response, from)
            },
            Some(RpcView::AppendRequest(request)) => self.handle_append_request(
                msg.term,
                request,
                from,
                ticks,
                log2,
            ),
            Some(RpcView::AppendResponse(response)) => if msg.term.id < self.current_term.id {
                self
            } else {
                self.handle_append_response::<L>(response, from)
            },
            None => self,
        }
    }

    /// Whether the entries of the message are taken into the log.
    pub open spec fn takes_entries(self, msg: MessageView, from: u64) -> bool {
        self.peers.contains(from) && (msg.rpc matches Some(RpcView::AppendRequest(request))
            && self.takes_in(msg.term, request))
    }

    /// The state after the node received the message `msg` from `from`, with `ticks` for the
    /// election timeout that may be drawn and `log2` for the log as it is left. A message
    /// from outside the group changes nothing. Otherwise the node brings its term up to
    /// date, deals with the call, takes the lead if it is a candidate with a quorum of
    /// votes, and advances its commit index if it leads.
    pub open spec fn receive<L: Log>(
        self,
        msg: MessageView,
        from: u64,
        ticks: u32,
        log2: LogView,
    ) -> StateView {
        if !self.peers.contains(from) {
            self
        } else {
            self.update_term(msg.term, ticks).handle::<L>(msg, from, ticks, log2).become_leader(
                log2,
            ).advance_commit()
        }
    }

    /// Whether the message makes the node the leader of its term: it is none that brings
    /// entries, and once it is dealt with the node is a candidate with the votes of a quorum.
    pub open spec fn wins_by<L: Log>(self, msg: MessageView, from: u64) -> bool {
        self.peers.contains(from) && !self.takes_entries(msg, from) && self.update_term(
            msg.term,
            0,
        ).handle::<L>(msg, from, 0, self.log).wins_election()
    }

    /// Whether `log2` may be the log after [`Self::receive`].
    pub open spec fn receive_step<L: Log>(self, msg: MessageView, from: u64, log2: LogView) -> bool {
        if !self.peers.contains(from) {
            log2 == self.log
        } else if self.takes_entries(msg, from) {
            let request = msg.rpc->0->AppendRequest_0;
            walk_ok(self.log, request.prev_log_idx.id as int, request.entries, log2)
        } else {
            self.update_term(msg.term, 0).handle::<L>(msg, from, 0, self.log).become_leader_step(
                log2,
            )
        }
    }

    /// Whether [`Self::receive`] draws an election timeout.
    pub open spec fn receive_draws(self, msg: MessageView, from: u64) -> bool {
        self.peers.contains(from) && (msg.term.id > self.current_term.id || (msg.term
            == self.current_term && msg.rpc is Some && msg.rpc->0 is AppendRequest
            && self.leadership is Candidate))
    }

    /// What [`Self::receive`] leaves to be sent in answer: requests are answered, answers
    /// are not.
    pub open spec fn receive_reply(self, msg: MessageView, from: u64, log2: LogView) -> Option<
        SendableView,
    > {
        if !self.peers.contains(from) {
            None
        } else {
            let current = self.update_term(msg.term, 0);
            match msg.rpc {
                Some(RpcView::VoteRequest(request)) => Some(
                    current.vote_reply(msg.term, request, from),
                ),
                Some(RpcView::AppendRequest(request)) => Some(
                    current.append_reply(msg.term, request, from, log2),
                ),
                _ => None,
            }
        }
    }
}

/// Counts the peers whose `match_idx` is at least `index`.
fn count_agreeing(
    followers: &BTreeMap<u64, ReplicationState>,
    peer_ids: &Vec<u64>,
    index: u64,
) -> (n: usize)
    requires
        peer_ids@.no_duplicates(),
        followers@.dom() == peer_ids@.to_set(),
    ensures
        n == agreeing(followers@, peer_ids@.to_set(), index as int).len(),
        n <= peer_ids@.len(),
{
    let mut n: usize = 0;
    let mut i: usize = 0;
    let ghost pred = |p: u64| followers@[p].match_idx.id >= index as int;
    assert(peer_ids@.take(0).filter(pred).len() == 0) by {
        reveal(Seq::filter);
    }
    while i < peer_ids.len()
        invariant
            i <= peer_ids@.len(),
            n <= i,
            n == peer_ids@.take(i as int).filter(pred).len(),
            followers@.dom() == peer_ids@.to_set(),
            pred == |p: u64| followers@[p].match_idx.id >= index as int,
        decreases peer_ids@.len() - i,
    {
        let id = peer_ids[i];
        proof {
            assert(peer_ids@.to_set().contains(id));
            assert(peer_ids@.take(i + 1) =~= peer_ids@.take(i as int).push(id));
            peer_ids@.take(i as int).lemma_filter_push(id, pred);
        }
        match map_get(followers, id) {
            Some(replication) => {
                if replication.match_idx.id >= index {
                    n = n + 1;
                }
            },
            None => {},
        }
        i = i + 1;
    }
    proof {
        assert(peer_ids@.take(peer_ids@.len() as int) =~= peer_ids@);
        lemma_count_members(peer_ids@, pred);
        assert(peer_ids@.to_set().filter(pred) =~= agreeing(
            followers@,
            peer_ids@.to_set(),
            index as int,
        ));
    }
    n
}

impl<L: Log, Random> View for State<L, Random> {
    type V = StateView;

    closed spec fn view(&self) -> StateView {
        StateView {
            node_id: self.node_id,
            peers: self.peers@,
            peer_order: self.peer_ids@,
            config: self.config,
            current_term: self.current_term,
            voted_for: self.voted_for,
            leadership: self.leadership@,
            log: self.log.model(),
            commit_idx: self.log.commit(),
        }
    }
}

impl<L: Log, Random: RngCore> State<L, Random> {
    /// The log that the node keeps, with its commit index.
    pub closed spec fn log_state(&self) -> LogState<L> {
        self.log
    }

    /// The log that the node keeps.
    pub closed spec fn inner_log(&self) -> L {
        self.log.inner()
    }

    /// The entries that the node's log, as it stands, is bound to take.
    pub open spec fn room(&self) -> Set<EntryView> {
        self.inner_log().room()
    }

    /// Whether the node's log, as it stands, is bound to let go of entries that were not
    /// taken.
    pub open spec fn cuts(&self) -> bool {
        self.inner_log().cuts()
    }

    /// Whether the node's log is bound to take in the first new entry of a request whose
    /// entries lie at the indices after `prev`: it has room for the entry, and is bound to
    /// let go of what it holds in its place, if anything.
    pub open spec fn owes(&self, prev: int, entries: Seq<EntryView>) -> bool {
        &&& brings_new(self@.log, prev, entries)
        &&& self.room().contains(first_new(self@.log, prev, entries))
        &&& adds_to(self@.log, prev, entries) || self.cuts()
    }

    /// The invariant of a node: that of its log, and that of its state.
    pub open spec fn wf(&self) -> bool {
        &&& self.inner_log().inv()
        &&& self.inner_log().model() == self@.log
        &&& self@.wf()
    }

    /// Makes a node for `node_id` in the group of `peers`, which may name the node itself or
    /// not, with an empty log. The node starts as a follower in term 0 with its election timer
    /// set at random.
    pub fn new(node_id: u64, peers: BTreeSet<u64>, log: L, random: Random, config: Config) -> (r:
        Self)
        requires
            log.inv(),
            log.model().last_taken == 0,
        ensures
            r.wf(),
            r.inner_log() == log,
            r@.leadership is Follower,
            timeout_ok(config.election_timeout_ticks, r@.leadership->random_election_ticks),
            r@ == (StateView {
                node_id,
                peers: peers@.remove(node_id),
                peer_order: r@.peer_order,
                config,
                current_term: TermId { id: 0 },
                voted_for: None,
                leadership: LeadershipView::Follower {
                    leader: None,
                    election_ticks: r@.leadership->random_election_ticks,
                    random_election_ticks: r@.leadership->random_election_ticks,
                },
                log: log.model(),
                commit_idx: LogIndex { id: 0 },
            }),
    {
        let mut peers = peers;
        let mut random = random;
        set_remove(&mut peers, node_id);
        let peer_ids = set_ascending(&peers);
        let random_election_ticks = random_election_timeout(
            &mut random,
            config.election_timeout_ticks,
        );
        proof {
            log.inv_gives_wf();
            vstd::seq_lib::seq_to_set_is_finite(peer_ids@);
        }
        State {
            node_id,
            peers,
            peer_ids,
            random,
            config,
            log: LogState::new(log),
            current_term: TermId { id: 0 },
            voted_for: None,
            leadership: LeadershipState::Follower(
                FollowerState {
                    leader: None,
                    election_ticks: random_election_ticks,
                    random_election_ticks,
                },
            ),
        }
    }

    /// The index of the last committed entry.
    pub fn commit_idx(&self) -> (r: &LogIndex)
        ensures
            *r == self@.commit_idx,
    {
        &self.log.commit_idx
    }

    /// The node's configurable parameters.
    pub fn config(&self) -> (r: &Config)
        ensures
            *r == self@.config,
    {
        &self.config
    }

    /// Whether this node is the leader of the latest known term.
    pub fn is_leader(&self) -> (r: bool)
        ensures
            r == self@.is_leader(),
    {
        match &self.leadership {
            LeadershipState::Leader(_) => true,
            _ => false,
        }
    }

    /// The leader of the latest known term, if the node knows one, and that term.
    pub fn leader(&self) -> (r: (Option<&u64>, &TermId))
        ensures
            match r.0 {
                Some(id) => self@.leader() == Some(*id),
                None => self@.leader() is None,
            },
            *r.1 == self@.current_term,
    {
        let leader = match &self.leadership {
            LeadershipState::Follower(follower_state) => follower_state.leader.as_ref(),
            LeadershipState::Candidate(_) => None,
            LeadershipState::Leader(_) => Some(&self.node_id),
        };
        (leader, &self.current_term)
    }

    /// The log storage.
    pub fn log(&self) -> (r: &L)
        ensures
            *r == self.inner_log(),
    {
        self.log.log()
    }

    /// The log storage, for the host to work on. Whatever the host leaves there is the node's
    /// log from then on, so the host has to keep the node's invariant.
    pub fn log_mut(&mut self) -> (r: &mut L)
        ensures
            *r == old(self).inner_log(),
            final(self).inner_log() == *final(r),
            final(self)@ == (StateView { log: final(r).model(), ..old(self)@ }),
    {
        self.log.log_mut()
    }

    /// The node's own identifier.
    pub fn node_id(&self) -> (r: &u64)
        ensures
            *r == self@.node_id,
    {
        &self.node_id
    }

    /// The identifiers of the node's peers, without its own.
    pub fn peers(&self) -> (r: &BTreeSet<u64>)
        ensures
            r@ == self@.peers,
    {
        &self.peers
    }

    /// The identifiers of the node's peers, in the order in which the node addresses them.
    pub fn peer_order(&self) -> (r: &Vec<u64>)
        ensures
            r@ == self@.peer_order,
    {
        &self.peer_ids
    }

    /// The replication state kept for a peer, on a leader.
    pub fn replication_state(&self, peer_node_id: &u64) -> (r: Option<&ReplicationState>)
        ensures
            r matches Some(s) ==> self@.leadership is Leader
                && self@.leadership->followers.contains_key(*peer_node_id) && *s
                == self@.leadership->followers[*peer_node_id],
            r is None ==> !(self@.leadership is Leader
                && self@.leadership->followers.contains_key(*peer_node_id)),
    {
        match &self.leadership {
            LeadershipState::Leader(leader_state) => map_get(&leader_state.followers, *peer_node_id),
            _ => None,
        }
    }

    /// Takes the next committed entry from the log: the entry after the last taken, as long
    /// as that index is committed. No entry is handed out twice, and the entries come in
    /// index order.
    pub fn take_next_committed(&mut self) -> (r: Option<LogEntry>)
        requires
            old(self).wf(),
        ensures
            final(self).wf(),
            old(self)@.log.last_taken < old(self)@.commit_idx.id ==> r is Some
                && r->0@ == old(self)@.log.entry(old(self)@.log.last_taken + 1)
                && final(self)@ == (StateView { log: old(self)@.log.take(), ..old(self)@ }),
            old(self)@.log.last_taken >= old(self)@.commit_idx.id ==> r is None
                && final(self)@ == old(self)@,
    {
        self.log.take_next_committed()
    }

    /// Starts handing out the committed entries that were not handed out before, one by one
    /// as they are asked for. The value returned works on the log of the node, which is as
    /// the value leaves it from then on.
    pub fn take_committed(&mut self) -> (r: CommittedIter<'_, L>)
        ensures
            *r.log == old(self).log_state(),
            r.log.model() == old(self)@.log,
            r.log.commit() == old(self)@.commit_idx,
            old(self).wf() ==> r.log.wf(),
            final(self).log_state() == *final(r.log),
            final(self)@ == (StateView {
                log: final(r.log).model(),
                commit_idx: final(r.log).commit(),
                ..old(self)@
            }),
            old(self).wf() && final(r.log).wf() && final(r.log).model().wf()
                ==> final(self).wf(),
    {
        self.log.take_committed()
    }

    fn quorum_size(&self) -> (r: usize)
        requires
            self.wf(),
        ensures
            r == self@.quorum(),
    {
        quorum_size(set_len(&self.peers))
    }

    fn random_election_timeout(&mut self) -> (r: u32)
        ensures
            timeout_ok(old(self)@.config.election_timeout_ticks, r),
            final(self)@ == old(self)@,
            final(self).inner_log() == old(self).inner_log(),
    {
        random_election_timeout(&mut self.random, self.config.election_timeout_ticks)
    }

    /// Whether `index` is the greatest index on which a quorum agrees.
    fn quorum_agrees_on(&self, index: u64) -> (r: bool)
        requires
            self.wf(),
            self@.is_leader(),
        ensures
            r == self@.is_quorum_index(index as int),
    {
        match &self.leadership {
            LeadershipState::Leader(leader_state) => {
                let last = self.log.last_index().id;
                let quorum = self.quorum_size();
                let here = count_agreeing(&leader_state.followers, &self.peer_ids, index);
                let reached = if last >= index {
                    here >= quorum - 1
                } else {
                    here >= quorum
                };
                if !reached {
                    return false;
                }
                if index == u64::MAX {
                    proof {
                        assert(agreeing(self@.leadership->followers, self@.peers, index + 1)
                            =~= Set::<u64>::empty());
                    }
                    true
                } else {
                    let beyond = count_agreeing(&leader_state.followers, &self.peer_ids, index + 1);
                    if last >= index + 1 {
                        beyond < quorum - 1
                    } else {
                        beyond < quorum
                    }
                }
            },
            _ => false,
        }
    }

    /// Advances the commit index of a leader to the greatest index on which a quorum agrees,
    /// if the entry there is of the current term.
    #[verifier::rlimit(50)]
    fn advance_commit_idx(&mut self)
        requires
            old(self).wf(),
        ensures
            final(self).wf(),
            final(self)@ == old(self)@.advance_commit(),
            final(self).room() == old(self).room(),
            final(self).cuts() == old(self).cuts(),
    {
        let mut found: Option<u64> = None;
        match &self.leadership {
            LeadershipState::Leader(leader_state) => {
                let mut i: usize = 0;
                while i < self.peer_ids.len() && found.is_none()
                    invariant
                        self.wf(),
                        self@.is_leader(),
                        self.leadership == LeadershipState::Leader(*leader_state),
                        i <= self.peer_ids@.len(),
                        found matches Some(c) ==> self@.is_quorum_index(c as int),
                        found is None ==> forall|j: int|
                            0 <= j < i ==> !self@.is_quorum_index(
                                (#[trigger] self@.leadership->followers[self.peer_ids@[j]]).match_idx.id as int,
                            ),
                    decreases self.peer_ids@.len() - i,
                {
                    let id = self.peer_ids[i];
                    proof {
                        assert(self.peer_ids@.to_set().contains(id));
                    }
                    match map_get(&leader_state.followers, id) {
                        Some(replication) => {
                            if self.quorum_agrees_on(replication.match_idx.id) {
                                found = Some(replication.match_idx.id);
                            }
                        },
                        None => {},
                    }
                    i = i + 1;
                }
                if found.is_none() {
                    let last = self.log.last_index().id;
                    if self.quorum_agrees_on(last) {
                        found = Some(last);
                    }
                }
                proof {
                    let s = self@;
                    if found is None {
                        if exists|c: int| s.is_quorum_index(c) {
                            let c = choose|c: int| s.is_quorum_index(c);
                            lemma_quorum_index_is_held(s, c);
                            if s.log.last_index() != c {
                                let p = choose|p: u64|
                                    s.peers.contains(p) && (
                                    #[trigger] s.leadership->followers[p]).match_idx.id == c;
                                let j = choose|j: int|
                                    0 <= j < self.peer_ids@.len() && self.peer_ids@[j] == p;
                                assert(!s.is_quorum_index(
                                    s.leadership->followers[self.peer_ids@[j]].match_idx.id as int,
                                ));
                            }
                            assert(false);
                        }
                    } else {
                        let c = choose|c: int| s.is_quorum_index(c);
                        lemma_quorum_index_unique(s, c, found->0 as int);
                    }
                }
            },
            _ => {},
        }
        match found {
            Some(index) => {
                proof {
                    self.log.wf_gives_model_wf();
                }
                match self.log.get_term(LogIndex { id: index }) {
                    Some(term) => {
                        if term.id == self.current_term.id && index > self.log.commit_idx.id {
                            self.log.commit_idx = LogIndex { id: index };
                        }
                    },
                    None => {},
                }
            },
            None => {},
        }
    }

    /// Asks the leader to append an entry with `data` to the log. On any other node the
    /// request is cancelled and the data comes back. Where the log refuses the entry, the
    /// node stays as it was; a log that has room for the entry does not refuse it.
    #[verifier::rlimit(50)]
    pub fn client_request(&mut self, data: Bytes) -> (r: Result<(), AppendError<L::Error>>)
        requires
            old(self).wf(),
        ensures
            final(self).wf(),
            !old(self)@.is_leader() ==> final(self)@ == old(self)@ && (r matches Err(
                AppendError::Cancelled { data: back },
            ) && bytes_contents(back) == bytes_contents(data)),
            old(self)@.is_leader() ==> {
                &&& final(self)@ == old(self)@.client_request(final(self)@.log)
                &&& old(self)@.append_step(
                    EntryView { term: old(self)@.current_term, data: bytes_contents(data) },
                    final(self)@.log,
                )
                &&& r is Ok <==> final(self)@.log.last_index() > old(self)@.log.last_index()
                &&& r is Err ==> r->Err_0 is LogErr
                &&& old(self).room().contains(
                    EntryView { term: old(self)@.current_term, data: bytes_contents(data) },
                ) ==> r is Ok
            },
            !old(self)@.is_leader() ==> final(self).room() == old(self).room()
                && final(self).cuts() == old(self).cuts(),
            r is Err ==> final(self)@ == old(self)@,
            final(self)@.current_term.id >= old(self)@.current_term.id,
            final(self)@.commit_idx.id >= old(self)@.commit_idx.id,
            final(self)@.commit_idx.id <= final(self)@.log.last_index(),
    {
        proof {
            self.log.wf_gives_model_wf();
        }
        let entry = LogEntry { term: self.current_term, data };
        match &self.leadership {
            LeadershipState::Leader(_) => {
                proof {
                    self.log.wf_gives_model_wf();
                }
                match self.log.append(entry) {
                    Ok(()) => {
                        proof {
                            self.log.wf_gives_model_wf();
                            law_client_request_never_goes_back(old(self)@, self@.log);
                        }
                        self.advance_commit_idx();
                        Ok(())
                    },
                    Err(e) => {
                        proof {
                            self.log.wf_gives_model_wf();
                        }
                        Err(AppendError::LogErr(e))
                    },
                }
            },
            _ => Err(AppendError::Cancelled { data: entry.data }),
        }
    }

    /// Makes a candidate with the votes of a quorum the leader of its term.
    #[verifier::rlimit(50)]
    fn become_leader(&mut self)
        requires
            old(self).wf(),
        ensures
            final(self).wf(),
            final(self)@ == old(self)@.become_leader(final(self)@.log),
            old(self)@.become_leader_step(final(self)@.log),
            !old(self)@.wins_election() ==> final(self).room() == old(self).room(),
            old(self)@.wins_election() && old(self).room().contains(
                noop_entry(old(self)@.current_term),
            ) ==> final(self)@.log.last_index() == old(self)@.log.last_index() + 1,
    {
        let wins = match &self.leadership {
            LeadershipState::Candidate(candidate_state) => set_len(&candidate_state.votes_granted)
                >= self.quorum_size(),
            _ => false,
        };
        if wins {
            proof {
                self.log.wf_gives_model_wf();
            }
            let next_idx = LogIndex { id: self.log.last_index().id + 1 };
            let mut followers: BTreeMap<u64, ReplicationState> = BTreeMap::new();
            let mut i: usize = 0;
            while i < self.peer_ids.len()
                invariant
                    i <= self.peer_ids@.len(),
                    followers@.dom() =~= self.peer_ids@.take(i as int).to_set(),
                    forall|p: u64| #[trigger]
                        followers@.contains_key(p) ==> followers@[p] == (ReplicationState {
                            next_idx,
                            match_idx: LogIndex { id: 0 },
                            inflight: None,
                            send_probe: false,
                            send_heartbeat: false,
                        }),
                decreases self.peer_ids@.len() - i,
            {
                let id = self.peer_ids[i];
                proof {
                    assert(self.peer_ids@.take(i + 1) =~= self.peer_ids@.take(i as int).push(id));
                    assert(self.peer_ids@.take(i as int).push(id).to_set() =~= self.peer_ids@.take(
                        i as int,
                    ).to_set().insert(id)) by {
                        lemma_push_to_set(self.peer_ids@.take(i as int), id);
                    }
                }
                map_insert(
                    &mut followers,
                    id,
                    ReplicationState {
                        next_idx,
                        match_idx: LogIndex { id: 0 },
                        inflight: None,
                        send_probe: false,
                        send_heartbeat: false,
                    },
                );
                i = i + 1;
            }
            proof {
                assert(self.peer_ids@.take(self.peer_ids@.len() as int) =~= self.peer_ids@);
                assert(followers@ =~= Map::new(
                    |p: u64| old(self)@.peers.contains(p),
                    |p: u64| fresh_replication(old(self)@.log.last_index()),
                ));
            }
            self.leadership = LeadershipState::Leader(LeaderState { followers, heartbeat_ticks: 0 });
            let _ignore = self.client_request(Bytes::new());
        }
    }

    /// The request for votes of a candidate; none on any other node.
    fn request_vote(&self) -> (r: Option<Message>)
        requires
            self.wf(),
        ensures
            match r {
                Some(m) => self@.vote_request(MessageDestination::Broadcast) is Some && m@
                    == self@.vote_request(MessageDestination::Broadcast)->0.message,
                None => self@.vote_request(MessageDestination::Broadcast) is None,
            },
    {
        match &self.leadership {
            LeadershipState::Candidate(_) => {
                proof {
                    self.log.wf_gives_model_wf();
                }
                Some(
                    Message {
                        term: self.current_term,
                        rpc: Some(
                            Rpc::VoteRequest(
                                VoteRequest {
                                    last_log_term: self.log.last_term(),
                                    last_log_idx: self.log.last_index(),
                                },
                            ),
                        ),
                    },
                )
            },
            _ => None,
        }
    }

    /// Starts a new election on a node that does not lead, and returns the request for votes
    /// to be sent to every peer. A node without peers takes the lead at once and asks nobody;
    /// its log then holds the no-op entry of the new term, unless it had no room for it.
    /// A leader does nothing.
    #[verifier::rlimit(50)]
    pub fn timeout(&mut self) -> (r: Option<SendableMessage>)
        requires
            old(self).wf(),
            old(self)@.can_time_out(),
        ensures
            final(self).wf(),
            final(self)@ == old(self)@.timeout(final(self)@.drawn(), final(self)@.log),
            old(self)@.timeout_step(final(self)@.log),
            !old(self)@.is_leader() && final(self)@.is_leader() && old(self).room().contains(
                noop_entry(final(self)@.current_term),
            ) ==> final(self)@.log.last_index() == old(self)@.log.last_index() + 1,
            final(self)@.leadership is Candidate ==> timeout_ok(
                old(self)@.config.election_timeout_ticks,
                final(self)@.drawn(),
            ),
            sendable_view(r) == (if old(self)@.is_leader() {
                None
            } else {
                final(self)@.vote_request(MessageDestination::Broadcast)
            }),
            final(self)@.current_term.id >= old(self)@.current_term.id,
            final(self)@.commit_idx.id >= old(self)@.commit_idx.id,
            final(self)@.commit_idx.id <= final(self)@.log.last_index(),
    {
        proof {
            self.log.wf_gives_model_wf();
        }
        if self.is_leader() {
            return None;
        }
        self.current_term.add_assign(1);
        self.voted_for = Some(self.node_id);
        let mut votes_granted: BTreeSet<u64> = BTreeSet::new();
        set_insert(&mut votes_granted, self.node_id);
        let election_ticks = self.random_election_timeout();
        self.leadership = LeadershipState::Candidate(
            CandidateState { votes_granted, election_ticks },
        );
        self.become_leader();
        self.advance_commit_idx();
        proof {
            self.log.wf_gives_model_wf();
            law_timeout_never_goes_back(old(self)@, self@.drawn(), self@.log);
        }
        match self.request_vote() {
            Some(message) => Some(SendableMessage { message, dest: MessageDestination::Broadcast }),
            None => None,
        }
    }

    /// Moves the node's timer on by one tick. On a node that does not lead, an election
    /// starts when the election timer runs out, and the request for votes is returned. On a
    /// leader, a heartbeat falls due for every peer when the heartbeat timer runs out.
    #[verifier::rlimit(50)]
    pub fn timer_tick(&mut self) -> (r: Option<SendableMessage>)
        requires
            old(self).wf(),
            old(self)@.election_due() ==> old(self)@.can_time_out(),
        ensures
            final(self).wf(),
            final(self)@ == old(self)@.timer_tick(final(self)@.drawn(), final(self)@.log),
            old(self)@.election_due() ==> old(self)@.timeout_step(final(self)@.log),
            !old(self)@.election_due() ==> final(self).room() == old(self).room()
                && final(self).cuts() == old(self).cuts(),
            old(self)@.election_due() && final(self)@.is_leader() && old(self).room().contains(
                noop_entry(final(self)@.current_term),
            ) ==> final(self)@.log.last_index() == old(self)@.log.last_index() + 1,
            old(self)@.election_due() && final(self)@.leadership is Candidate ==> timeout_ok(
                old(self)@.config.election_timeout_ticks,
                final(self)@.drawn(),
            ),
            sendable_view(r) == (if old(self)@.election_due() {
                final(self)@.vote_request(MessageDestination::Broadcast)
            } else {
                None
            }),
            final(self)@.current_term.id >= old(self)@.current_term.id,
            final(self)@.commit_idx.id >= old(self)@.commit_idx.id,
            final(self)@.commit_idx.id <= final(self)@.log.last_index(),
    {
        proof {
            self.log.wf_gives_model_wf();
        }
        let due = match &self.leadership {
            LeadershipState::Follower(follower_state) => follower_state.election_ticks <= 1,
            LeadershipState::Candidate(candidate_state) => candidate_state.election_ticks <= 1,
            LeadershipState::Leader(_) => false,
        };
        if due {
            return self.timeout();
        }
        let mut beat: Option<BTreeMap<u64, ReplicationState>> = None;
        match &mut self.leadership {
            LeadershipState::Follower(follower_state) => {
                follower_state.election_ticks = follower_state.election_ticks - 1;
            },
            LeadershipState::Candidate(candidate_state) => {
                candidate_state.election_ticks = candidate_state.election_ticks - 1;
            },
            LeadershipState::Leader(leader_state) => {
                if leader_state.heartbeat_ticks <= 1 {
                    beat = Some(BTreeMap::new());
                } else {
                    leader_state.heartbeat_ticks = leader_state.heartbeat_ticks - 1;
                }
            },
        }
        match beat {
            Some(fresh) => {
                let mut followers = fresh;
                match &self.leadership {
                    LeadershipState::Leader(leader_state) => {
                        let mut i: usize = 0;
                        while i < self.peer_ids.len()
                            invariant
                                self.wf(),
                                self@ == old(self)@,
                                self.leadership == LeadershipState::Leader(*leader_state),
                                i <= self.peer_ids@.len(),
                                followers@.dom() =~= self.peer_ids@.take(i as int).to_set(),
                                forall|p: u64| #[trigger]
                                    followers@.contains_key(p) ==> followers@[p]
                                        == heartbeat_due(leader_state.followers@)[p],
                            decreases self.peer_ids@.len() - i,
                        {
                            let id = self.peer_ids[i];
                            proof {
                                assert(self.peer_ids@.to_set().contains(id));
                                assert(self.peer_ids@.take(i + 1) =~= self.peer_ids@.take(
                                    i as int,
                                ).push(id));
                                lemma_push_to_set(self.peer_ids@.take(i as int), id);
                            }
                            match map_get(&leader_state.followers, id) {
                                Some(replication) => {
                                    map_insert(
                                        &mut followers,
                                        id,
                                        ReplicationState {
                                            next_idx: replication.next_idx,
                                            match_idx: replication.match_idx,
                                            inflight: replication.inflight,
                                            send_probe: replication.send_probe,
                                            send_heartbeat: true,
                                        },
                                    );
                                },
                                None => {},
                            }
                            i = i + 1;
                        }
                        proof {
                            assert(self.peer_ids@.take(self.peer_ids@.len() as int)
                                =~= self.peer_ids@);
                            assert(followers@ =~= heartbeat_due(leader_state.followers@));
                        }
                    },
                    _ => {},
                }
                self.leadership = LeadershipState::Leader(
                    LeaderState { followers, heartbeat_ticks: self.config.heartbeat_interval_ticks },
                );
            },
            None => {},
        }
        None
    }

    /// Gives the node new parameters. Timers that lie beyond twice the new election timeout
    /// are drawn anew; a follower's running timer is cut to its restart value and a leader's
    /// to the heartbeat interval.
    #[verifier::rlimit(50)]
    pub fn set_config(&mut self, config: Config)
        requires
            old(self).wf(),
        ensures
            final(self).wf(),
            final(self)@ == old(self)@.set_config(config, final(self)@.drawn()),
            final(self).room() == old(self).room(),
            final(self).cuts() == old(self).cuts(),
            old(self)@.set_config_draws(config) ==> timeout_ok(
                config.election_timeout_ticks,
                final(self)@.drawn(),
            ),
    {
        self.config = config;
        let limit = if config.election_timeout_ticks > u32::MAX / 2 {
            u32::MAX
        } else {
            config.election_timeout_ticks * 2
        };
        match &mut self.leadership {
            LeadershipState::Follower(follower_state) => {
                if follower_state.random_election_ticks > limit {
                    follower_state.random_election_ticks = random_election_timeout(
                        &mut self.random,
                        config.election_timeout_ticks,
                    );
                }
                if follower_state.election_ticks > follower_state.random_election_ticks {
                    follower_state.election_ticks = follower_state.random_election_ticks;
                }
            },
            LeadershipState::Candidate(candidate_state) => {
                if candidate_state.election_ticks > limit {
                    candidate_state.election_ticks = random_election_timeout(
                        &mut self.random,
                        config.election_timeout_ticks,
                    );
                }
            },
            LeadershipState::Leader(leader_state) => {
                if leader_state.heartbeat_ticks > config.heartbeat_interval_ticks {
                    leader_state.heartbeat_ticks = config.heartbeat_interval_ticks;
                }
            },
        }
    }

    /// Starts over with a peer whose connection was reset. A leader probes the peer again
    /// from the end of its own log; a candidate asks the peer for its vote again; a follower
    /// does nothing.
    #[verifier::rlimit(50)]
    pub fn reset_peer(&mut self, peer_node_id: u64) -> (r: Option<SendableMessage>)
        requires
            old(self).wf(),
        ensures
            final(self).wf(),
            final(self)@ == old(self)@.reset_peer(peer_node_id),
            final(self).room() == old(self).room(),
            final(self).cuts() == old(self).cuts(),
            sendable_view(r) == old(self)@.reset_peer_message(peer_node_id),
    {
        proof {
            self.log.wf_gives_model_wf();
        }
        let next_idx = LogIndex { id: self.log.last_index().id + 1 };
        let vote_request = self.request_vote();
        let known = set_contains(&self.peers, peer_node_id);
        match &mut self.leadership {
            LeadershipState::Follower(_) => None,
            LeadershipState::Candidate(_) => {
                if known {
                    match vote_request {
                        Some(message) => Some(
                            SendableMessage { message, dest: MessageDestination::To(peer_node_id) },
                        ),
                        None => None,
                    }
                } else {
                    None
                }
            },
            LeadershipState::Leader(leader_state) => {
                let current = match map_get(&leader_state.followers, peer_node_id) {
                    Some(replication) => Some(*replication),
                    None => None,
                };
                match current {
                    Some(replication) => {
                        let ghost before = leader_state.followers@;
                        map_insert(
                            &mut leader_state.followers,
                            peer_node_id,
                            ReplicationState {
                                next_idx,
                                match_idx: replication.match_idx,
                                inflight: None,
                                send_probe: true,
                                send_heartbeat: true,
                            },
                        );
                        assert(leader_state.followers@.dom() =~= before.dom());
                    },
                    None => {},
                }
                None
            },
        }
    }

    /// Makes the request to append entries that the leader has for the peer `to_node_id` at
    /// this moment: the entries from the peer's next index on, as many as the chunk size
    /// allows and at least one, or none for a heartbeat or a probe. The request is then in
    /// flight, and no other is made for that peer until it is answered.
    #[verifier::rlimit(50)]
    pub fn append_entries(&mut self, to_node_id: u64) -> (r: Option<SendableMessage>)
        requires
            old(self).wf(),
        ensures
            final(self).wf(),
            final(self)@ == old(self)@.append_entries::<L>(to_node_id),
            final(self).room() == old(self).room(),
            final(self).cuts() == old(self).cuts(),
            sendable_view(r) == old(self)@.append_entries_message::<L>(to_node_id),
    {
        let replication = match &self.leadership {
            LeadershipState::Leader(leader_state) => {
                match map_get(&leader_state.followers, to_node_id) {
                    Some(replication) => *replication,
                    None => {
                        return None;
                    },
                }
            },
            _ => {
                return None;
            },
        };
        proof {
            self.log.wf_gives_model_wf();
        }
        let last_log_idx = self.log.last_index();
        let next_idx = replication.next_idx;
        let send_entries = last_log_idx.id >= next_idx.id && !replication.send_probe;
        if !send_entries && !replication.send_heartbeat {
            return None;
        }
        if replication.inflight.is_some() {
            return None;
        }
        let prev_log_idx = next_idx.minus(1);
        let maybe_prev_log_term = if prev_log_idx.id != 0 {
            self.log.get_term(prev_log_idx)
        } else {
            Some(TermId { id: 0 })
        };
        let prev_log_term = match maybe_prev_log_term {
            Some(prev_log_term) => prev_log_term,
            None => {
                return None;
            },
        };
        let mut entries: Vec<LogEntry> = Vec::new();
        let mut last_entry = prev_log_idx;
        if send_entries {
            let mut entries_size: usize = 0;
            let max_entries_size = self.config.replication_chunk_size;
            let mut more = true;
            let ghost log = self@.log;
            while more && last_entry.id < last_log_idx.id
                invariant
                    self.wf(),
                    self@ == old(self)@,
                    self.room() == old(self).room(),
                    self.cuts() == old(self).cuts(),
                    log == self@.log,
                    log.wf(),
                    last_log_idx.id == log.last_index(),
                    max_entries_size == self@.config.replication_chunk_size,
                    next_idx.id >= 1,
                    prev_log_idx.id == next_idx.id - 1,
                    last_entry.id == prev_log_idx.id + entries@.len(),
                    last_entry.id <= last_log_idx.id,
                    chunk_len::<L>(log, next_idx.id as int, 0, max_entries_size) == entries@.len() + (
                    if more {
                        chunk_len::<L>(log, last_entry.id + 1, entries_size, max_entries_size)
                    } else {
                        0
                    }),
                    entries@.len() > 0 ==> log.prev_index <= prev_log_idx.id,
                    entries@.len() > 0 ==> entry_views(entries@) == log.between(
                        prev_log_idx.id as int,
                        last_entry.id as int,
                    ),
                decreases last_log_idx.id - last_entry.id + (if more { 1int } else { 0 }),
            {
                let entry_log_idx = LogIndex { id: last_entry.id + 1 };
                match self.log.get(entry_log_idx) {
                    Some(log_entry) => {
                        let first_entry = entries_size == 0;
                        if !first_entry && entries_size == max_entries_size {
                            more = false;
                        } else {
                            entries_size = entries_size.saturating_add(
                                self.log.entry_len(&log_entry),
                            );
                            if first_entry || entries_size <= max_entries_size {
                                let ghost before = entries@;
                                entries.push(log_entry);
                                last_entry = entry_log_idx;
                                proof {
                                    assert(entry_views(entries@) =~= log.between(
                                        prev_log_idx.id as int,
                                        last_entry.id as int,
                                    )) by {
                                        assert(entries@ == before.push(log_entry));
                                        if before.len() > 0 {
                                            assert(entry_views(before) == log.between(
                                                prev_log_idx.id as int,
                                                last_entry.id - 1,
                                            ));
                                        }
                                    }
                                }
                            } else {
                                more = false;
                            }
                        }
                    },
                    None => {
                        more = false;
                    },
                }
            }
            proof {
                if entries@.len() == 0 {
                    assert(entry_views(entries@) =~= Seq::<EntryView>::empty());
                }
            }
        } else {
            proof {
                assert(entry_views(entries@) =~= Seq::<EntryView>::empty());
            }
        }
        let leader_commit = if self.log.commit_idx.id <= last_entry.id {
            self.log.commit_idx
        } else {
            last_entry
        };
        let append_request_msg = Message {
            term: self.current_term,
            rpc: Some(
                Rpc::AppendRequest(
                    AppendRequest { prev_log_idx, prev_log_term, entries, leader_commit },
                ),
            ),
        };
        match &mut self.leadership {
            LeadershipState::Leader(leader_state) => {
                let ghost before = leader_state.followers@;
                map_insert(
                    &mut leader_state.followers,
                    to_node_id,
                    ReplicationState {
                        next_idx: replication.next_idx,
                        match_idx: replication.match_idx,
                        inflight: Some(last_entry),
                        send_probe: replication.send_probe,
                        send_heartbeat: false,
                    },
                );
                assert(leader_state.followers@.dom() =~= before.dom());
            },
            _ => {},
        }
        Some(SendableMessage { message: append_request_msg, dest: MessageDestination::To(to_node_id) })
    }

    /// Takes the entries of an accepted request into the log: entries that the log holds
    /// with the same term are passed over, and from the first that it does not hold, the rest
    /// is appended, after the log was cut from there on where it held something else.
    /// Returns the index of the last entry dealt with.
    #[verifier::rlimit(50)]
    fn take_entries(&mut self, prev_log_idx: LogIndex, entries: &Vec<LogEntry>) -> (r: LogIndex)
        requires
            old(self).wf(),
            prev_log_idx.id + entries@.len() < u64::MAX,
            prev_log_idx.id <= old(self)@.log.last_index(),
            !conflicts_with_committed(
                old(self)@.log,
                old(self)@.commit_idx.id as int,
                prev_log_idx.id as int,
                entry_views(entries@),
            ),
        ensures
            final(self).wf(),
            final(self)@ == (StateView { log: final(self)@.log, ..old(self)@ }),
            walk_ok(old(self)@.log, prev_log_idx.id as int, entry_views(entries@), final(self)@.log),
            old(self).owes(prev_log_idx.id as int, entry_views(entries@)) ==> holds_first_new(
                old(self)@.log,
                prev_log_idx.id as int,
                entry_views(entries@),
                final(self)@.log,
            ),
            old(self).cuts() ==> cut_where_asked(
                old(self)@.log,
                prev_log_idx.id as int,
                entry_views(entries@),
                final(self)@.log,
            ),
            stopped_short(
                old(self)@.log,
                prev_log_idx.id as int,
                entry_views(entries@),
                final(self)@.log,
            ) ==> !final(self).room().contains(
                next_due(prev_log_idx.id as int, entry_views(entries@), final(self)@.log),
            ),
            r.id == prev_log_idx.id + processed(
                old(self)@.log,
                prev_log_idx.id as int,
                entry_views(entries@),
                final(self)@.log,
            ),
            r.id <= final(self)@.log.last_index(),
    {
        proof {
            self.log.wf_gives_model_wf();
        }
        let ghost log = self@.log;
        let ghost prev = prev_log_idx.id as int;
        let ghost all = entry_views(entries@);
        let ghost a = matching_prefix(log, prev, all, 0);
        let ghost mut appending = false;
        let ghost mut base = log;
        let ghost owed = self.owes(prev, all);
        proof {
            lemma_matching_prefix_bounds(log, prev, all, 0);
        }
        let mut k: usize = 0;
        let mut stop = false;
        let mut last_processed_idx = prev_log_idx;
        while k < entries.len() && !stop
            invariant
                self.wf(),
                self@ == (StateView { log: self@.log, ..old(self)@ }),
                log == old(self)@.log,
                log.wf(),
                self@.log.wf(),
                prev == prev_log_idx.id,
                prev + entries@.len() < u64::MAX,
                prev <= log.last_index(),
                all == entry_views(entries@),
                all.len() == entries@.len(),
                a == matching_prefix(log, prev, all, 0),
                0 <= a <= all.len(),
                !conflicts_with_committed(log, old(self)@.commit_idx.id as int, prev, all),
                0 <= k <= entries@.len(),
                last_processed_idx.id == prev + k,
                !appending ==> self@.log == log && k <= a && matching_prefix(log, prev, all, k as int)
                    == a && (stop ==> k == a && a < all.len() && (prev + 1 + a <= log.last_index()
                    ==> log.term_at(prev + 1 + a) != Some(all[a as int].term))),
                !appending ==> prev + k <= log.last_index(),
                !appending && !stop ==> old(self).room().subset_of(self.room()) && self.cuts()
                    == old(self).cuts(),
                owed == old(self).owes(prev, all),
                owed && appending ==> k > a,
                owed && stop ==> appending,
                old(self).cuts() && stop ==> appending,
                appending && stop ==> !self.room().contains(all[k as int]),
                !appending && stop ==> prev + 1 + a <= log.last_index(),
                appending ==> a < all.len() && a <= k && appended_run(base, all, a, self@.log)
                    && self@.log.last_index() == prev + k && base.last_index() == prev + a
                    && base.wf() && (base == log && prev + 1 + a == log.last_index() + 1 || base
                    == log.truncate(prev + 1 + a) && log.prev_index < prev + 1 + a
                    <= log.last_index() && log.term_at(prev + 1 + a) is Some && log.term_at(
                    prev + 1 + a,
                ) != Some(all[a as int].term)),
            decreases entries@.len() - k + (if stop { 0int } else { 1 }),
        {
            let msg_entry_log_idx = LogIndex { id: prev_log_idx.id + 1 + k as u64 };
            let msg_entry = entries[k].clone();
            let ghost cur = self@.log;
            assert(msg_entry@ == all[k as int]);
            if msg_entry_log_idx.id == self.log.last_index().id + 1 {
                proof {
                    if !appending {
                        assert(matching_prefix(log, prev, all, k as int) == k);
                        appending = true;
                        base = log;
                        assert(all.subrange(a, a) =~= Seq::<EntryView>::empty());
                        assert(log.entries.skip(0) =~= log.entries);
                        assert(log.evict(0).extend(all.subrange(a, a)) =~= log);
                    }
                }
                match self.log.append(msg_entry) {
                    Ok(()) => {
                        proof {
                            self.log.wf_gives_model_wf();
                            lemma_run_step(base, all, a, k as int, cur, self@.log);
                        }
                        last_processed_idx = msg_entry_log_idx;
                        k = k + 1;
                    },
                    Err(_) => {
                        proof {
                            self.log.wf_gives_model_wf();
                            lemma_run_step(base, all, a, k as int, cur, self@.log);
                        }
                        stop = true;
                    },
                }
            } else {
                match self.log.get_term(msg_entry_log_idx) {
                    Some(our_entry_log_term) => {
                        if our_entry_log_term.id != msg_entry.term.id {
                            proof {
                                if msg_entry_log_idx.id <= old(self)@.commit_idx.id {
                                    assert(log.term_at(prev + 1 + k) != Some(all[k as int].term));
                                    assert(conflicts_with_committed(
                                        log,
                                        old(self)@.commit_idx.id as int,
                                        prev,
                                        all,
                                    ));
                                }
                            }
                            match self.log.cancel_from(msg_entry_log_idx) {
                                Ok(_) => {
                                    proof {
                                        self.log.wf_gives_model_wf();
                                        assert(matching_prefix(log, prev, all, k as int) == k);
                                        appending = true;
                                        base = self@.log;
                                        assert(all.subrange(a, a) =~= Seq::<EntryView>::empty());
                                        assert(base.entries.skip(0) =~= base.entries);
                                        assert(base.evict(0).extend(all.subrange(a, a)) =~= base);
                                    }
                                    let ghost cut = self@.log;
                                    match self.log.append(msg_entry) {
                                        Ok(()) => {
                                            proof {
                                                self.log.wf_gives_model_wf();
                                                lemma_run_step(base, all, a, k as int, cut, self@.log);
                                            }
                                            last_processed_idx = msg_entry_log_idx;
                                            k = k + 1;
                                        },
                                        Err(_) => {
                                            proof {
                                                self.log.wf_gives_model_wf();
                                                lemma_run_step(base, all, a, k as int, cut, self@.log);
                                            }
                                            stop = true;
                                        },
                                    }
                                },
                                Err(_) => {
                                    proof {
                                        assert(matching_prefix(log, prev, all, k as int) == k);
                                    }
                                    stop = true;
                                },
                            }
                        } else {
                            proof {
                                assert(matching_prefix(log, prev, all, k as int)
                                    == matching_prefix(log, prev, all, k + 1));
                                lemma_matching_prefix_bounds(log, prev, all, k + 1);
                            }
                            last_processed_idx = msg_entry_log_idx;
                            k = k + 1;
                        }
                    },
                    None => {
                        proof {
                            assert(log.term_at(prev + 1 + k) != Some(all[k as int].term));
                            assert(conflicts_with_committed(
                                log,
                                old(self)@.commit_idx.id as int,
                                prev,
                                all,
                            ));
                        }
                        stop = true;
                    },
                }
            }
        }
        proof {
            let after = self@.log;
            let i = prev + 1 + a;
            if !appending {
                if !stop {
                    assert(matching_prefix(log, prev, all, k as int) == k);
                }
                assert(walk_ok(log, prev, all, after));
            } else if base == log {
                assert(walk_ok(log, prev, all, after));
            } else {
                let n = after.prev_index - base.prev_index;
                if k > a {
                    assert(after.entries[i - after.prev_index - 1] == all.subrange(
                        a,
                        a + after.last_index() - base.last_index(),
                    )[0]);
                    assert(after.has(i) && after.entry(i) == all[a]);
                }
                assert(after != log);
                assert(walk_ok(log, prev, all, after));
            }
        }
        last_processed_idx
    }

    /// Brings the node's term up to date with a term seen in a message.
    fn update_term(&mut self, msg_term: TermId)
        requires
            old(self).wf(),
        ensures
            final(self).wf(),
            final(self)@ == old(self)@.update_term(msg_term, final(self)@.drawn()),
            final(self).room() == old(self).room(),
            final(self).cuts() == old(self).cuts(),
            msg_term.id > old(self)@.current_term.id ==> timeout_ok(
                old(self)@.config.election_timeout_ticks,
                final(self)@.drawn(),
            ),
            final(self)@.current_term.id >= msg_term.id,
    {
        if msg_term.id > self.current_term.id {
            let random_election_ticks = self.random_election_timeout();
            let election_ticks = match &self.leadership {
                LeadershipState::Follower(follower_state) => follower_state.election_ticks,
                LeadershipState::Candidate(candidate_state) => candidate_state.election_ticks,
                LeadershipState::Leader(_) => random_election_ticks,
            };
            self.current_term = msg_term;
            self.leadership = LeadershipState::Follower(
                FollowerState { leader: None, election_ticks, random_election_ticks },
            );
            self.voted_for = None;
        }
    }

    /// Tells a stale answer from one of the node's term: `Ok` for an answer of an earlier
    /// term, which is dropped, and the answer back in `Err` otherwise.
    pub fn drop_stale_response<T>(&self, msg_term: TermId, msg: T) -> (r: Result<(), T>)
        ensures
            msg_term.id < self@.current_term.id ==> r is Ok,
            msg_term.id >= self@.current_term.id ==> r == Err::<(), T>(msg),
    {
        if msg_term.id < self.current_term.id {
            Ok(())
        } else {
            Err(msg)
        }
    }

    /// Deals with a request for the node's vote, and answers it.
    fn handle_vote_request(&mut self, msg_term: TermId, msg: VoteRequest, from: u64) -> (r: Option<
        SendableMessage,
    >)
        requires
            old(self).wf(),
        ensures
            final(self).wf(),
            final(self)@ == old(self)@.handle_vote_request(msg_term, msg, from),
            final(self).room() == old(self).room(),
            final(self).cuts() == old(self).cuts(),
            sendable_view(r) == Some(old(self)@.vote_reply(msg_term, msg, from)),
    {
        proof {
            self.log.wf_gives_model_wf();
        }
        let last_log_idx = self.log.last_index();
        let last_log_term = self.log.last_term();
        let log_ok = msg.last_log_term.id > last_log_term.id || (msg.last_log_term.id
            == last_log_term.id && msg.last_log_idx.id >= last_log_idx.id);
        let free = match self.voted_for {
            Some(vote) => from == vote,
            None => true,
        };
        let grant = msg_term.id == self.current_term.id && log_ok && free;
        if grant {
            self.voted_for = Some(from);
            match &mut self.leadership {
                LeadershipState::Follower(follower_state) => {
                    follower_state.election_ticks = follower_state.random_election_ticks;
                },
                _ => {},
            }
        }
        let message = Message {
            term: self.current_term,
            rpc: Some(Rpc::VoteResponse(VoteResponse { vote_granted: grant })),
        };
        Some(SendableMessage { message, dest: MessageDestination::To(from) })
    }

    /// Deals with a vote that is not stale.
    fn handle_vote_response(&mut self, msg: VoteResponse, from: u64) -> (r: Option<SendableMessage>)
        requires
            old(self).wf(),
            old(self)@.peers.contains(from),
        ensures
            final(self).wf(),
            final(self)@ == old(self)@.handle_vote_response(msg, from),
            final(self).room() == old(self).room(),
            final(self).cuts() == old(self).cuts(),
            r is None,
    {
        match &mut self.leadership {
            LeadershipState::Candidate(candidate_state) => {
                if msg.vote_granted {
                    set_insert(&mut candidate_state.votes_granted, from);
                }
            },
            _ => {},
        }
        None
    }

    /// Deals with a request to append entries, and answers it.
    #[verifier::rlimit(50)]
    fn handle_append_request(&mut self, msg_term: TermId, msg: AppendRequest, from: u64) -> (r:
        Option<SendableMessage>)
        requires
            old(self).wf(),
            msg_term.id <= old(self)@.current_term.id,
            !(msg_term == old(self)@.current_term && old(self)@.is_leader()),
            old(self)@.takes_in(msg_term, msg@) ==> {
                &&& msg@.prev_log_idx.id + msg@.entries.len() < u64::MAX
                &&& !conflicts_with_committed(
                    old(self)@.log,
                    old(self)@.commit_idx.id as int,
                    msg@.prev_log_idx.id as int,
                    msg@.entries,
                )
            },
        ensures
            final(self).wf(),
            final(self)@ == old(self)@.handle_append_request(
                msg_term,
                msg@,
                from,
                final(self)@.drawn(),
                final(self)@.log,
            ),
            msg_term == old(self)@.current_term && old(self)@.leadership is Candidate
                ==> timeout_ok(old(self)@.config.election_timeout_ticks, final(self)@.drawn()),
            old(self)@.takes_in(msg_term, msg@) ==> walk_ok(
                old(self)@.log,
                msg@.prev_log_idx.id as int,
                msg@.entries,
                final(self)@.log,
            ),
            !old(self)@.takes_in(msg_term, msg@) ==> final(self)@.log == old(self)@.log
                && final(self).room() == old(self).room() && final(self).cuts() == old(
                self,
            ).cuts(),
            old(self)@.takes_in(msg_term, msg@) && old(self).owes(
                msg@.prev_log_idx.id as int,
                msg@.entries,
            ) ==> holds_first_new(
                old(self)@.log,
                msg@.prev_log_idx.id as int,
                msg@.entries,
                final(self)@.log,
            ),
            old(self)@.takes_in(msg_term, msg@) && old(self).cuts() ==> cut_where_asked(
                old(self)@.log,
                msg@.prev_log_idx.id as int,
                msg@.entries,
                final(self)@.log,
            ),
            old(self)@.takes_in(msg_term, msg@) && stopped_short(
                old(self)@.log,
                msg@.prev_log_idx.id as int,
                msg@.entries,
                final(self)@.log,
            ) ==> !final(self).room().contains(
                next_due(msg@.prev_log_idx.id as int, msg@.entries, final(self)@.log),
            ),
            msg_term == old(self)@.current_term ==> final(self)@.leadership is Follower,
            sendable_view(r) == Some(
                old(self)@.append_reply(msg_term, msg@, from, final(self)@.log),
            ),
    {
        proof {
            self.log.wf_gives_model_wf();
        }
        let prev_log_idx = msg.prev_log_idx;
        let msg_prev_log_term = msg.prev_log_term;
        let our_prev_log_term = self.log.get_term(prev_log_idx);
        let log_ok = prev_log_idx.id == 0 || match our_prev_log_term {
            Some(term) => term.id == msg_prev_log_term.id,
            None => false,
        };
        if msg_term.id == self.current_term.id {
            let candidate = match &self.leadership {
                LeadershipState::Candidate(_) => true,
                _ => false,
            };
            if candidate {
                let random_election_ticks = self.random_election_timeout();
                self.leadership = LeadershipState::Follower(
                    FollowerState {
                        leader: Some(from),
                        election_ticks: random_election_ticks,
                        random_election_ticks,
                    },
                );
            } else {
                match &mut self.leadership {
                    LeadershipState::Follower(follower_state) => {
                        follower_state.leader = Some(from);
                        follower_state.election_ticks = follower_state.random_election_ticks;
                    },
                    _ => {},
                }
            }
        }
        if msg_term.id < self.current_term.id || !log_ok {
            let message = Message {
                term: self.current_term,
                rpc: Some(
                    Rpc::AppendResponse(
                        AppendResponse {
                            success: false,
                            match_idx: self.log.prev_index(),
                            last_log_idx: self.log.last_index(),
                        },
                    ),
                ),
            };
            Some(SendableMessage { message, dest: MessageDestination::To(from) })
        } else {
            let msg_last_log_idx = LogIndex { id: prev_log_idx.id + msg.entries.len() as u64 };
            let last_processed_idx = self.take_entries(prev_log_idx, &msg.entries);
            proof {
                self.log.wf_gives_model_wf();
            }
            let leader_commit = if msg.leader_commit.id <= last_processed_idx.id {
                msg.leader_commit
            } else {
                last_processed_idx
            };
            if leader_commit.id > self.log.commit_idx.id {
                self.log.commit_idx = leader_commit;
            }
            let last_log_idx = self.log.last_index();
            let message = Message {
                term: self.current_term,
                rpc: Some(
                    Rpc::AppendResponse(
                        AppendResponse {
                            success: true,
                            match_idx: if msg_last_log_idx.id <= last_log_idx.id {
                                msg_last_log_idx
                            } else {
                                last_log_idx
                            },
                            last_log_idx,
                        },
                    ),
                ),
            };
            Some(SendableMessage { message, dest: MessageDestination::To(from) })
        }
    }

    /// Deals with the answer of a peer to a request to append that is not stale.
    #[verifier::rlimit(50)]
    fn handle_append_response(&mut self, msg: AppendResponse, from: u64) -> (r: Option<
        SendableMessage,
    >)
        requires
            old(self).wf(),
            old(self)@.is_leader() ==> msg.match_idx.id < u64::MAX && (!msg.success
                ==> msg.last_log_idx.id < u64::MAX),
        ensures
            final(self).wf(),
            final(self)@ == old(self)@.handle_append_response::<L>(msg, from),
            final(self).room() == old(self).room(),
            final(self).cuts() == old(self).cuts(),
            r is None,
    {
        let current = match &self.leadership {
            LeadershipState::Leader(leader_state) => match map_get(&leader_state.followers, from) {
                Some(replication) => Some(*replication),
                None => None,
            },
            _ => None,
        };
        match current {
            Some(current) => {
                let mut replication = current;
                if msg.success {
                    let answered = match replication.inflight {
                        Some(sent) => msg.match_idx.id >= sent.id,
                        None => true,
                    };
                    if answered {
                        replication.inflight = None;
                    }
                    if msg.match_idx.id + 1 > replication.next_idx.id {
                        replication.next_idx = LogIndex { id: msg.match_idx.id + 1 };
                    }
                    if msg.match_idx.id > replication.match_idx.id {
                        replication.match_idx = msg.match_idx;
                    }
                    replication.send_probe = false;
                } else {
                    let back = replication.next_idx.minus(1);
                    let capped = if back.id <= msg.last_log_idx.id + 1 {
                        back
                    } else {
                        LogIndex { id: msg.last_log_idx.id + 1 }
                    };
                    replication.next_idx = if capped.id >= msg.match_idx.id + 1 {
                        capped
                    } else {
                        LogIndex { id: msg.match_idx.id + 1 }
                    };
                    replication.send_probe = true;
                    replication.inflight = None;
                    let mut chunk_size_remaining = self.config.replication_chunk_size;
                    let mut more = true;
                    let ghost log = self@.log;
                    let ghost start = probe_start(current, msg);
                    proof {
                        self.log.wf_gives_model_wf();
                    }
                    while more && replication.next_idx.id >= 1
                        invariant
                            self.wf(),
                            self@ == old(self)@,
                            self.room() == old(self).room(),
                            self.cuts() == old(self).cuts(),
                            log == self@.log,
                            msg.match_idx.id < replication.next_idx.id,
                            replication == (ReplicationState {
                                next_idx: replication.next_idx,
                                send_probe: true,
                                inflight: None,
                                ..current
                            }),
                            start == probe_start(current, msg),
                            rewind::<L>(
                                log,
                                start,
                                msg.match_idx.id as int,
                                self@.config.replication_chunk_size,
                            ) == (if more {
                                rewind::<L>(
                                    log,
                                    replication.next_idx.id as int,
                                    msg.match_idx.id as int,
                                    chunk_size_remaining,
                                )
                            } else {
                                replication.next_idx.id as int
                            }),
                        decreases replication.next_idx.id + (if more { 1int } else { 0 }),
                    {
                        let next_idx = LogIndex { id: replication.next_idx.id - 1 };
                        if next_idx.id <= msg.match_idx.id {
                            more = false;
                        } else {
                            match self.log.get_len(replication.next_idx) {
                                Some(entry_len) => {
                                    if chunk_size_remaining >= entry_len {
                                        chunk_size_remaining = chunk_size_remaining - entry_len;
                                        replication.next_idx = next_idx;
                                    } else {
                                        more = false;
                                    }
                                },
                                None => {
                                    more = false;
                                },
                            }
                        }
                    }
                }
                match &mut self.leadership {
                    LeadershipState::Leader(leader_state) => {
                        let ghost before = leader_state.followers@;
                        map_insert(&mut leader_state.followers, from, replication);
                        assert(leader_state.followers@.dom() =~= before.dom());
                    },
                    _ => {},
                }
            },
            None => {},
        }
        None
    }

    /// Receives a message from the peer `from`, and returns the answer to be sent, if the
    /// message calls for one. A message from outside the group is dropped. Otherwise the
    /// node brings its term up to date, deals with the call, takes the lead if it is a
    /// candidate with a quorum of votes, and advances its commit index if it leads. A log
    /// that is bound to take an entry that is due, the no-op entry of a new leader or the
    /// first new entry of a request, holds it afterwards, and a follower stops before the
    /// last entry of a request only where its log has no room for the next.
    #[verifier::rlimit(50)]
    pub fn receive(&mut self, msg: Message, from: u64) -> (r: Option<SendableMessage>)
        requires
            old(self).wf(),
            old(self)@.accepts(msg@, from),
        ensures
            final(self).wf(),
            final(self)@ == old(self)@.receive::<L>(
                msg@,
                from,
                final(self)@.drawn(),
                final(self)@.log,
            ),
            old(self)@.receive_step::<L>(msg@, from, final(self)@.log),
            old(self)@.wins_by::<L>(msg@, from) && old(self).room().contains(
                noop_entry(final(self)@.current_term),
            ) ==> final(self)@.log.last_index() == old(self)@.log.last_index() + 1,
            old(self)@.takes_entries(msg@, from) && old(self).owes(
                msg@.rpc->0->AppendRequest_0.prev_log_idx.id as int,
                msg@.rpc->0->AppendRequest_0.entries,
            ) ==> holds_first_new(
                old(self)@.log,
                msg@.rpc->0->AppendRequest_0.prev_log_idx.id as int,
                msg@.rpc->0->AppendRequest_0.entries,
                final(self)@.log,
            ),
            old(self)@.takes_entries(msg@, from) && old(self).cuts() ==> cut_where_asked(
                old(self)@.log,
                msg@.rpc->0->AppendRequest_0.prev_log_idx.id as int,
                msg@.rpc->0->AppendRequest_0.entries,
                final(self)@.log,
            ),
            old(self)@.takes_entries(msg@, from) && stopped_short(
                old(self)@.log,
                msg@.rpc->0->AppendRequest_0.prev_log_idx.id as int,
                msg@.rpc->0->AppendRequest_0.entries,
                final(self)@.log,
            ) ==> !final(self).room().contains(
                next_due(
                    msg@.rpc->0->AppendRequest_0.prev_log_idx.id as int,
                    msg@.rpc->0->AppendRequest_0.entries,
                    final(self)@.log,
                ),
            ),
            old(self)@.peers.contains(from) ==> final(self)@.current_term.id == if msg@.term.id
                > old(self)@.current_term.id {
                msg@.term.id
            } else {
                old(self)@.current_term.id
            },
            old(self)@.peers.contains(from) && msg@.term.id > old(self)@.current_term.id
                ==> final(self)@.leadership is Follower && (final(self)@.voted_for is None
                || final(self)@.voted_for == Some(from)),
            old(self)@.receive_draws(msg@, from) ==> timeout_ok(
                old(self)@.config.election_timeout_ticks,
                final(self)@.drawn(),
            ),
            sendable_view(r) == old(self)@.receive_reply(msg@, from, final(self)@.log),
            final(self)@.current_term.id >= old(self)@.current_term.id,
            final(self)@.commit_idx.id >= old(self)@.commit_idx.id,
            final(self)@.commit_idx.id <= final(self)@.log.last_index(),
    {
        proof {
            self.log.wf_gives_model_wf();
        }
        if !set_contains(&self.peers, from) {
            return None;
        }
        let ghost message = msg@;
        self.update_term(msg.term);
        let reply = match msg.rpc {
            Some(Rpc::VoteRequest(request)) => self.handle_vote_request(msg.term, request, from),
            Some(Rpc::VoteResponse(response)) => {
                match self.drop_stale_response(msg.term, response) {
                    Ok(()) => None,
                    Err(response) => self.handle_vote_response(response, from),
                }
            },
            Some(Rpc::AppendRequest(request)) => self.handle_append_request(msg.term, request, from),
            Some(Rpc::AppendResponse(response)) => {
                match self.drop_stale_response(msg.term, response) {
                    Ok(()) => None,
                    Err(response) => self.handle_append_response(response, from),
                }
            },
            None => None,
        };
        self.become_leader();
        self.advance_commit_idx();
        proof {
            self.log.wf_gives_model_wf();
            law_receive_never_goes_back::<L>(old(self)@, message, from, self@.drawn(), self@.log);
            law_receive_adopts_term::<L>(old(self)@, message, from, self@.drawn(), self@.log);
        }
        reply
    }

    /// Whether an entry of the request lies at a committed index where the log holds
    /// another term.
    #[verifier::rlimit(50)]
    fn contradicts_committed(&mut self, request: &AppendRequest) -> (r: bool)
        requires
            old(self).wf(),
            request@.prev_log_idx.id + request@.entries.len() < u64::MAX,
        ensures
            final(self).wf(),
            final(self)@ == old(self)@,
            final(self).room() == old(self).room(),
            final(self).cuts() == old(self).cuts(),
            r == conflicts_with_committed(
                old(self)@.log,
                old(self)@.commit_idx.id as int,
                request@.prev_log_idx.id as int,
                request@.entries,
            ),
    {
        proof {
            self.log.wf_gives_model_wf();
        }
        let prev = request.prev_log_idx.id;
        let commit = self.log.commit_idx.id;
        let ghost log = self@.log;
        let ghost all = request@.entries;
        let mut k: usize = 0;
        while k < request.entries.len() && prev + 1 + k as u64 <= commit
            invariant
                self.wf(),
                self@ == old(self)@,
                self.room() == old(self).room(),
                self.cuts() == old(self).cuts(),
                log == self@.log,
                all == request@.entries,
                all.len() == request.entries@.len(),
                prev == request@.prev_log_idx.id,
                commit == self@.commit_idx.id,
                prev + request.entries@.len() < u64::MAX,
                k <= request.entries@.len(),
                forall|j: int|
                    0 <= j < k ==> log.term_at(prev + 1 + j) == Some((#[trigger] all[j]).term),
            decreases request.entries@.len() - k,
        {
            let same = match self.log.get_term(LogIndex { id: prev + 1 + k as u64 }) {
                Some(term) => term.id == request.entries[k].term.id,
                None => false,
            };
            if !same {
                assert(log.term_at(prev + 1 + k) != Some(all[k as int].term));
                return true;
            }
            k = k + 1;
        }
        proof {
            assert forall|j: int| 0 <= j < all.len() && prev + 1 + j <= commit implies log.term_at(
                prev + 1 + j,
            ) == Some((#[trigger] all[j]).term) by {
                assert(j < k);
            }
        }
        false
    }

    /// Whether the node may be handed the message: whether receiving it keeps the safety of
    /// the group and the range of the indices.
    #[verifier::rlimit(50)]
    pub fn accepts(&mut self, msg: &Message, from: u64) -> (r: bool)
        requires
            old(self).wf(),
        ensures
            final(self).wf(),
            final(self)@ == old(self)@,
            final(self).room() == old(self).room(),
            final(self).cuts() == old(self).cuts(),
            r == old(self)@.accepts(msg@, from),
    {
        proof {
            self.log.wf_gives_model_wf();
        }
        if !set_contains(&self.peers, from) {
            return true;
        }
        match &msg.rpc {
            Some(Rpc::AppendRequest(request)) => {
                if msg.term.id == self.current_term.id && self.is_leader() {
                    return false;
                }
                if msg.term.id < self.current_term.id {
                    return true;
                }
                let log_ok = request.prev_log_idx.id == 0 || match self.log.get_term(
                    request.prev_log_idx,
                ) {
                    Some(term) => term.id == request.prev_log_term.id,
                    None => false,
                };
                if !log_ok {
                    return true;
                }
                if request.entries.len() as u64 >= u64::MAX - request.prev_log_idx.id {
                    return false;
                }
                !self.contradicts_committed(request)
            },
            Some(Rpc::AppendResponse(response)) => {
                if msg.term.id == self.current_term.id && self.is_leader() {
                    response.match_idx.id < u64::MAX && (response.success
                        || response.last_log_idx.id < u64::MAX)
                } else {
                    true
                }
            },
            _ => true,
        }
    }

    /// Whether an election may start: a leader starts none, and any other node needs a term
    /// after the current one.
    pub fn can_time_out(&self) -> (r: bool)
        ensures
            r == self@.can_time_out(),
    {
        self.is_leader() || self.current_term.id < u64::MAX
    }

    /// Whether the next tick of the timer may come: it may not where it starts an election
    /// and there is no term after the current one.
    pub fn can_tick(&self) -> (r: bool)
        ensures
            r == (self@.election_due() ==> self@.can_time_out()),
    {
        match &self.leadership {
            LeadershipState::Follower(follower_state) => follower_state.election_ticks > 1
                || self.current_term.id < u64::MAX,
            LeadershipState::Candidate(candidate_state) => candidate_state.election_ticks > 1
                || self.current_term.id < u64::MAX,
            LeadershipState::Leader(_) => true,
        }
    }
}

} // verus!
