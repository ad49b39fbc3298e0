//! The host-facing node: the state machine together with the messages that each event leaves
//! to be sent.

use crate::raft::log::{CommittedIter, Log, LogView};
use crate::raft::message::{
    bytes_contents, EntryView, LogEntry, LogIndex, Message, MessageDestination,
    SendableMessage, SendableView, TermId,
};
use crate::raft::state::{
    cut_where_asked, holds_first_new, next_due, noop_entry, sendable_view, stopped_short,
    timeout_ok, LeadershipView, ReplicationState, State, StateView,
};
use bytes::Bytes;
use rand_core::RngCore;
use std::collections::BTreeSet;
use vstd::prelude::*;

verus! {

/// Configurable parameters of a Raft node.
#[derive(Clone, Copy, Debug, PartialEq, Eq, Structural)]
pub struct Config {
    /// The minimum number of timer ticks between leadership elections.
    pub election_timeout_ticks: u32,
    /// The number of timer ticks between sending heartbeats to peers.
    pub heartbeat_interval_ticks: u32,
    /// The maximum number of bytes to replicate to a peer at a time.
    pub replication_chunk_size: usize,
}

/// An error returned while attempting to append to a Raft log.
pub enum AppendError<E> {
    /// This node is not the leader: the append is cancelled, and the data comes back for the
    /// host to hand to the current leader.
    Cancelled {
        /// The data that was to be appended.
        data: Bytes,
    },
    /// The log refused the append.
    LogErr(E),
}

/// A Raft node, used for replicating a strongly consistent log of entries among its peers.
///
/// The host calls one of `append`, `receive` and `timer_tick` for each event, sends the
/// messages that the call returns, and then takes the committed entries with
/// `take_committed`. Messages to one peer have to be kept and sent again until the peer has
/// processed them; they may arrive more than once and in any order.
pub struct Node<L, Random> {
    state: State<L, Random>,
}

/// The views of messages to be sent, one for one.
pub open spec fn sendable_views(messages: Seq<SendableMessage>) -> Seq<SendableView> {
    messages.map_values(|m: SendableMessage| m@)
}

/// A message to be sent, if there is one, as a sequence.
pub open spec fn reply_seq(reply: Option<SendableView>) -> Seq<SendableView> {
    match reply {
        Some(m) => seq![m],
        None => Seq::empty(),
    }
}

impl StateView {
    /// The state after the requests to append were made that the leader has for the peers
    /// of `order`, one peer after the other.
    pub open spec fn append_entries_all<L: Log>(self, order: Seq<u64>) -> StateView
        decreases order.len(),
    {
        if order.len() == 0 {
            self
        } else {
            self.append_entries_all::<L>(order.drop_last()).append_entries::<L>(order.last())
        }
    }

    /// The requests to append that the leader has for the peers of `order`, in that order.
    pub open spec fn append_messages<L: Log>(self, order: Seq<u64>) -> Seq<SendableView>
        decreases order.len(),
    {
        if order.len() == 0 {
            Seq::empty()
        } else {
            self.append_messages::<L>(order.drop_last()) + reply_seq(
                self.append_entries_all::<L>(order.drop_last()).append_entries_message::<L>(
                    order.last(),
                ),
            )
        }
    }
}

/// Making the requests to append changes nothing but the replication states of a leader.
pub proof fn lemma_append_entries_all_keeps<L: Log>(s: StateView, order: Seq<u64>)
    ensures
        ({
            let after = s.append_entries_all::<L>(order);
            &&& after.log == s.log
            &&& after.commit_idx == s.commit_idx
            &&& after.current_term == s.current_term
            &&& after.voted_for == s.voted_for
            &&& after.peers == s.peers
            &&& after.peer_order == s.peer_order
            &&& after.config == s.config
            &&& after.node_id == s.node_id
            &&& after.drawn() == s.drawn()
            &&& after.is_leader() == s.is_leader()
            &&& !s.is_leader() ==> after == s
        }),
    decreases order.len(),
{
    if order.len() > 0 {
        lemma_append_entries_all_keeps::<L>(s, order.drop_last());
    }
}

impl<L: Log, Random> View for Node<L, Random> {
    type V = StateView;

    closed spec fn view(&self) -> StateView {
        self.state@
    }
}

impl<L: Log, Random: RngCore> Node<L, Random> {
    /// The state machine that the node wraps.
    pub closed spec fn inner(&self) -> State<L, Random> {
        self.state
    }

    /// The invariant of the node: that of its state machine, of which it has the view.
    pub open spec fn wf(&self) -> bool {
        self.inner().wf() && self.inner()@ == self@
    }

    /// The entries that the node's log, as it stands, is bound to take.
    pub open spec fn room(&self) -> Set<EntryView> {
        self.inner().room()
    }

    /// Whether the node's log, as it stands, is bound to let go of entries that were not
    /// taken.
    pub open spec fn cuts(&self) -> bool {
        self.inner().cuts()
    }

    /// Whether the node's log is bound to take in the first new entry of a request whose
    /// entries lie at the indices after `prev`.
    pub open spec fn owes(&self, prev: int, entries: Seq<EntryView>) -> bool {
        self.inner().owes(prev, entries)
    }

    /// Constructs a new Raft node with specified peers and configuration. `peers` may
    /// contain `node_id` or omit it, to the same effect. The log has to be empty, and
    /// `random` has to produce different values on every node of a group.
    pub fn new(node_id: u64, peers: BTreeSet<u64>, log: L, random: Random, config: Config) -> (r:
        Self)
        requires
            log.inv(),
            log.model().last_taken == 0,
        ensures
            r.wf(),
            r.inner().inner_log() == log,
            r@.leadership is Follower,
            timeout_ok(config.election_timeout_ticks, r@.leadership->random_election_ticks),
            r@ == (StateView {
                node_id,
                peers: peers@.remove(node_id),
                peer_order: r@.peer_order,
                config,
                current_term: TermId { id: 0 },
                voted_for: None,
                leadership: LeadershipView::Follower {
                    leader: None,
                    election_ticks: r@.leadership->random_election_ticks,
                    random_election_ticks: r@.leadership->random_election_ticks,
                },
                log: log.model(),
                commit_idx: LogIndex { id: 0 },
            }),
    {
        Node { state: State::new(node_id, peers, log, random, config) }
    }

    /// Requests appending an entry with `data` to the log, and returns the messages to be
    /// sent. Only the leader appends; on any other node the request is cancelled and the
    /// data comes back. A leader whose log has room for the entry appends it.
    #[verifier::rlimit(50)]
    pub fn append(&mut self, data: Bytes) -> (r: Result<Vec<SendableMessage>, AppendError<L::Error>>)
        requires
            old(self).wf(),
        ensures
            final(self).wf(),
            !old(self)@.is_leader() ==> final(self)@ == old(self)@ && (r matches Err(
                AppendError::Cancelled { data: back },
            ) && bytes_contents(back) == bytes_contents(data)),
            old(self)@.is_leader() ==> {
                let requested = old(self)@.client_request(final(self)@.log);
                &&& old(self)@.append_step(
                    EntryView { term: old(self)@.current_term, data: bytes_contents(data) },
                    final(self)@.log,
                )
                &&& r is Ok <==> final(self)@.log.last_index() > old(self)@.log.last_index()
                &&& r matches Ok(messages) ==> final(self)@ == requested.append_entries_all::<L>(
                    requested.peer_order,
                ) && sendable_views(messages@) == requested.append_messages::<L>(
                    requested.peer_order,
                )
                &&& r matches Err(e) ==> e is LogErr
                &&& old(self).room().contains(
                    EntryView { term: old(self)@.current_term, data: bytes_contents(data) },
                ) ==> r is Ok
            },
            !old(self)@.is_leader() ==> final(self).room() == old(self).room()
                && final(self).cuts() == old(self).cuts(),
            r is Err ==> final(self)@ == old(self)@,
            final(self)@.current_term.id >= old(self)@.current_term.id,
            final(self)@.commit_idx.id >= old(self)@.commit_idx.id,
            final(self)@.commit_idx.id <= final(self)@.log.last_index(),
    {
        match self.state.client_request(data) {
            Ok(()) => {
                proof {
                    lemma_append_entries_all_keeps::<L>(self.state@, self.state@.peer_order);
                }
                Ok(self.append_entries())
            },
            Err(e) => Err(e),
        }
    }

    /// Returns this node's configurable parameters.
    pub fn config(&self) -> (r: &Config)
        requires
            self.wf(),
        ensures
            *r == self@.config,
    {
        self.state.config()
    }

    /// Returns whether this node is the leader of the latest known term.
    pub fn is_leader(&self) -> (r: bool)
        requires
            self.wf(),
        ensures
            r == self@.is_leader(),
    {
        self.state.is_leader()
    }

    /// Returns the index of the last entry which has been committed and thus may be
    /// returned by `take_committed`.
    pub fn last_committed_log_index(&self) -> (r: LogIndex)
        requires
            self.wf(),
        ensures
            r == self@.commit_idx,
    {
        *self.state.commit_idx()
    }

    /// Returns the leader of the latest known term, if the node knows one, along with the
    /// term.
    pub fn leader(&self) -> (r: (Option<&u64>, TermId))
        requires
            self.wf(),
        ensures
            match r.0 {
                Some(id) => self@.leader() == Some(*id),
                None => self@.leader() is None,
            },
            r.1 == self@.current_term,
    {
        let (leader, term) = self.state.leader();
        (leader, *term)
    }

    /// Returns a reference to the log storage.
    pub fn log(&self) -> (r: &L)
        ensures
            *r == self.inner().inner_log(),
    {
        self.state.log()
    }

    /// Returns the log storage for the host to work on. Whatever the host leaves there is
    /// the node's log from then on, so the host has to keep the node's invariant.
    pub fn log_mut(&mut self) -> (r: &mut L)
        requires
            old(self).wf(),
        ensures
            *r == old(self).inner().inner_log(),
            final(self).inner().inner_log() == *final(r),
            final(self)@ == (StateView { log: final(r).model(), ..old(self)@ }),
            final(self).inner()@ == final(self)@,
    {
        self.state.log_mut()
    }

    /// Returns this node's identifier.
    pub fn node_id(&self) -> (r: &u64)
        requires
            self.wf(),
        ensures
            *r == self@.node_id,
    {
        self.state.node_id()
    }

    /// Returns the identifiers of this node's peers.
    pub fn peers(&self) -> (r: &BTreeSet<u64>)
        requires
            self.wf(),
        ensures
            r@ == self@.peers,
    {
        self.state.peers()
    }

    /// Processes a message from the peer `from`, and returns the messages to be sent: the
    /// answer, if the message calls for one, and then the requests to append that the node
    /// has for its peers.
    #[verifier::rlimit(50)]
    pub fn receive(&mut self, message: Message, from: u64) -> (r: Vec<SendableMessage>)
        requires
            old(self).wf(),
            old(self)@.accepts(message@, from),
        ensures
            final(self).wf(),
            ({
                let received = old(self)@.receive::<L>(
                    message@,
                    from,
                    final(self)@.drawn(),
                    final(self)@.log,
                );
                &&& final(self)@ == received.append_entries_all::<L>(received.peer_order)
                &&& sendable_views(r@) == reply_seq(
                    old(self)@.receive_reply(message@, from, final(self)@.log),
                ) + received.append_messages::<L>(received.peer_order)
            }),
            old(self)@.receive_step::<L>(message@, from, final(self)@.log),
            old(self)@.wins_by::<L>(message@, from) && old(self).room().contains(
                noop_entry(final(self)@.current_term),
            ) ==> final(self)@.log.last_index() == old(self)@.log.last_index() + 1,
            old(self)@.takes_entries(message@, from) && old(self).owes(
                message@.rpc->0->AppendRequest_0.prev_log_idx.id as int,
                message@.rpc->0->AppendRequest_0.entries,
            ) ==> holds_first_new(
                old(self)@.log,
                message@.rpc->0->AppendRequest_0.prev_log_idx.id as int,
                message@.rpc->0->AppendRequest_0.entries,
                final(self)@.log,
            ),
            old(self)@.takes_entries(message@, from) && old(self).cuts() ==> cut_where_asked(
                old(self)@.log,
                message@.rpc->0->AppendRequest_0.prev_log_idx.id as int,
                message@.rpc->0->AppendRequest_0.entries,
                final(self)@.log,
            ),
            old(self)@.takes_entries(message@, from) && stopped_short(
                old(self)@.log,
                message@.rpc->0->AppendRequest_0.prev_log_idx.id as int,
                message@.rpc->0->AppendRequest_0.entries,
                final(self)@.log,
            ) ==> !final(self).room().contains(
                next_due(
                    message@.rpc->0->AppendRequest_0.prev_log_idx.id as int,
                    message@.rpc->0->AppendRequest_0.entries,
                    final(self)@.log,
                ),
            ),
            old(self)@.peers.contains(from) ==> final(self)@.current_term.id == if message@.term.id
                > old(self)@.current_term.id {
                message@.term.id
            } else {
                old(self)@.current_term.id
            },
            old(self)@.peers.contains(from) && message@.term.id > old(self)@.current_term.id
                ==> final(self)@.leadership is Follower && (final(self)@.voted_for is None
                || final(self)@.voted_for == Some(from)),
            old(self)@.receive_draws(message@, from) ==> timeout_ok(
                old(self)@.config.election_timeout_ticks,
                final(self)@.drawn(),
            ),
            final(self)@.current_term.id >= old(self)@.current_term.id,
            final(self)@.commit_idx.id >= old(self)@.commit_idx.id,
            final(self)@.commit_idx.id <= final(self)@.log.last_index(),
    {
        let reply = self.state.receive(message, from);
        proof {
            lemma_append_entries_all_keeps::<L>(self.state@, self.state@.peer_order);
        }
        let mut messages = self.append_entries();
        Self::put_first(reply, &mut messages);
        messages
    }

    /// Returns whether the node may be handed the message: whether receiving it keeps the
    /// safety of the group and the range of the indices.
    pub fn accepts(&mut self, message: &Message, from: u64) -> (r: bool)
        requires
            old(self).wf(),
        ensures
            final(self).wf(),
            final(self)@ == old(self)@,
            final(self).room() == old(self).room(),
            final(self).cuts() == old(self).cuts(),
            r == old(self)@.accepts(message@, from),
    {
        self.state.accepts(message, from)
    }

    /// Returns whether the next tick of the timer may come: it may not where it starts an
    /// election and there is no term after the current one.
    pub fn can_tick(&self) -> (r: bool)
        requires
            self.wf(),
        ensures
            r == (self@.election_due() ==> self@.can_time_out()),
    {
        self.state.can_tick()
    }

    /// Returns the replication state kept for the peer `peer_node_id`, on a leader.
    pub fn replication_state(&self, peer_node_id: &u64) -> (r: Option<&ReplicationState>)
        requires
            self.wf(),
        ensures
            r matches Some(s) ==> self@.leadership is Leader
                && self@.leadership->followers.contains_key(*peer_node_id) && *s
                == self@.leadership->followers[*peer_node_id],
            r is None ==> !(self@.leadership is Leader
                && self@.leadership->followers.contains_key(*peer_node_id)),
    {
        self.state.replication_state(peer_node_id)
    }

    /// Returns a reference to the low-level state of the node.
    pub fn state(&self) -> (r: &State<L, Random>)
        ensures
            *r == self.inner(),
    {
        &self.state
    }

    /// Returns the low-level state of the node for the host to work on. Whatever the host
    /// leaves there is the node's state from then on.
    pub fn state_mut(&mut self) -> (r: &mut State<L, Random>)
        ensures
            *r == old(self).inner(),
            final(self).inner() == *final(r),
            final(self)@ == final(r)@,
    {
        &mut self.state
    }

    /// Takes the next committed entry from the log: the entry after the last taken, as long
    /// as that index is committed. No entry is handed out twice over the lifetime of the
    /// node, and the entries come in index order.
    pub fn take_next_committed(&mut self) -> (r: Option<LogEntry>)
        requires
            old(self).wf(),
        ensures
            final(self).wf(),
            old(self)@.log.last_taken < old(self)@.commit_idx.id ==> r is Some
                && r->0@ == old(self)@.log.entry(old(self)@.log.last_taken + 1)
                && final(self)@ == (StateView { log: old(self)@.log.take(), ..old(self)@ }),
            old(self)@.log.last_taken >= old(self)@.commit_idx.id ==> r is None
                && final(self)@ == old(self)@,
    {
        self.state.take_next_committed()
    }

    /// Starts handing out the committed entries that were not handed out before, one by one
    /// as they are asked for. The value returned works on the log of the node, which is as
    /// the value leaves it from then on.
    pub fn take_committed(&mut self) -> (r: CommittedIter<'_, L>)
        requires
            old(self).wf(),
        ensures
            *r.log == old(self).inner().log_state(),
            r.log.model() == old(self)@.log,
            r.log.commit() == old(self)@.commit_idx,
            r.log.wf(),
            final(self).inner().log_state() == *final(r.log),
            final(self)@ == (StateView {
                log: final(r.log).model(),
                commit_idx: final(r.log).commit(),
                ..old(self)@
            }),
            final(r.log).wf() && final(r.log).model().wf()
                ==> final(self).wf(),
    {
        self.state.take_committed()
    }

    /// Moves the node's timer on by one tick, and returns the messages to be sent: the
    /// request for votes where an election starts, and then the requests to append that the
    /// node has for its peers.
    #[verifier::rlimit(50)]
    pub fn timer_tick(&mut self) -> (r: Vec<SendableMessage>)
        requires
            old(self).wf(),
            old(self)@.election_due() ==> old(self)@.can_time_out(),
        ensures
            final(self).wf(),
            ({
                let ticked = old(self)@.timer_tick(final(self)@.drawn(), final(self)@.log);
                &&& final(self)@ == ticked.append_entries_all::<L>(ticked.peer_order)
                &&& sendable_views(r@) == reply_seq(
                    if old(self)@.election_due() {
                        ticked.vote_request(MessageDestination::Broadcast)
                    } else {
                        None
                    },
                ) + ticked.append_messages::<L>(ticked.peer_order)
            }),
            old(self)@.election_due() ==> old(self)@.timeout_step(final(self)@.log),
            !old(self)@.election_due() ==> final(self).room() == old(self).room()
                && final(self).cuts() == old(self).cuts(),
            old(self)@.election_due() && final(self)@.is_leader() && old(self).room().contains(
                noop_entry(final(self)@.current_term),
            ) ==> final(self)@.log.last_index() == old(self)@.log.last_index() + 1,
            old(self)@.election_due() && final(self)@.leadership is Candidate ==> timeout_ok(
                old(self)@.config.election_timeout_ticks,
                final(self)@.drawn(),
            ),
            final(self)@.current_term.id >= old(self)@.current_term.id,
            final(self)@.commit_idx.id >= old(self)@.commit_idx.id,
            final(self)@.commit_idx.id <= final(self)@.log.last_index(),
    {
        let reply = self.state.timer_tick();
        proof {
            lemma_append_entries_all_keeps::<L>(self.state@, self.state@.peer_order);
        }
        let mut messages = self.append_entries();
        Self::put_first(reply, &mut messages);
        messages
    }

    /// Puts a message, if there is one, before the others.
    fn put_first(first: Option<SendableMessage>, messages: &mut Vec<SendableMessage>)
        ensures
            sendable_views(final(messages)@) == reply_seq(sendable_view(first)) + sendable_views(
                old(messages)@,
            ),
    {
        match first {
            Some(message) => {
                messages.insert(0, message);
                assert(sendable_views(messages@) =~= reply_seq(Some(message@)) + sendable_views(
                    old(messages)@,
                ));
            },
            None => {
                assert(sendable_views(messages@) =~= reply_seq(None) + sendable_views(
                    old(messages)@,
                ));
            },
        }
    }

    /// Makes the requests to append that the leader has for its peers at this moment.
    #[verifier::rlimit(50)]
    fn append_entries(&mut self) -> (r: Vec<SendableMessage>)
        requires
            old(self).wf(),
        ensures
            final(self).wf(),
            final(self)@ == old(self)@.append_entries_all::<L>(old(self)@.peer_order),
            final(self).room() == old(self).room(),
            final(self).cuts() == old(self).cuts(),
            sendable_views(r@) == old(self)@.append_messages::<L>(old(self)@.peer_order),
    {
        let mut messages: Vec<SendableMessage> = Vec::new();
        let mut i: usize = 0;
        let ghost pre = self@;
        let ghost order = self@.peer_order;
        assert(sendable_views(messages@) =~= Seq::<SendableView>::empty());
        assert(order.take(0) =~= Seq::<u64>::empty());
        while i < self.state.peer_order().len()
            invariant
                self.wf(),
                self.room() == old(self).room(),
                self.cuts() == old(self).cuts(),
                pre == old(self)@,
                order == pre.peer_order,
                self@.peer_order == order,
                i <= order.len(),
                self@ == pre.append_entries_all::<L>(order.take(i as int)),
                sendable_views(messages@) == pre.append_messages::<L>(order.take(i as int)),
            decreases order.len() - i,
        {
            let peer = self.state.peer_order()[i];
            let ghost before = messages@;
            proof {
                assert(order.take(i + 1).drop_last() =~= order.take(i as int));
                assert(order.take(i + 1).last() == peer);
            }
            match self.state.append_entries(peer) {
                Some(message) => {
                    messages.push(message);
                    assert(sendable_views(messages@) =~= sendable_views(before) + reply_seq(
                        Some(message@),
                    ));
                },
                None => {
                    assert(sendable_views(messages@) =~= sendable_views(before) + reply_seq(None));
                },
            }
            i = i + 1;
        }
        proof {
            assert(order.take(order.len() as int) =~= order);
        }
        messages
    }
}

} // verus!
