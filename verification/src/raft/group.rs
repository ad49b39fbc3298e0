//! A group of nodes with the messages that went between them, and the proof that no term
//! sees two leaders.
//!
//! The group is a model: it holds the abstract state of every member, every message that a
//! member has sent, every vote that was cast, and every node that has led, and it moves by
//! the transitions that the functions of a node are held to. The messages reach a member
//! from the member that sent them, any number of times and in any order, or never. The
//! members are the same throughout, and each keeps its state from one step to the next.

use crate::raft::laws::law_quorums_intersect;
use crate::raft::log::{Log, LogView};
use crate::raft::message::{
    MessageDestination, MessageView, RpcView, SendableView, TermId, VoteResponse,
};
use crate::raft::node::Config;
use crate::raft::state::{quorum_size_spec, LeadershipView, StateView};
use vstd::prelude::*;

verus! {

/// A message on its way, with the member that sent it.
pub struct Sent {
    pub from: u64,
    pub message: MessageView,
    pub dest: MessageDestination,
}

/// A group of nodes and what has happened among them.
pub struct Group {
    /// The members of the group.
    pub members: Set<u64>,
    /// The state of each member.
    pub nodes: Map<u64, StateView>,
    /// Every message that a member has sent.
    pub sent: Set<Sent>,
    /// Every vote cast: for a term and a voter, the node that the vote went to.
    pub votes: Map<(u64, u64), u64>,
    /// Every term with a node that has led in it.
    pub elected: Set<(u64, u64)>,
}

/// What a member does in one step.
pub enum Event {
    /// The timer of the member ticks, with the election timeout that may be drawn.
    Tick { ticks: u32 },
    /// An election timeout comes at once.
    Timeout { ticks: u32 },
    /// The member receives a message that was sent to it.
    Receive { sent: Sent, ticks: u32 },
    /// A client asks the member to append an entry with `data`.
    ClientRequest { data: Seq<u8> },
    /// The member makes the request to append that it has for a peer.
    AppendEntries { to: u64 },
    /// The member is given new parameters.
    SetConfig { config: Config, ticks: u32 },
    /// The member starts over with a peer.
    ResetPeer { peer: u64 },
    /// The host works on the log of the member: it takes committed entries, or changes
    /// the log in any other way.
    Log,
}

/// Whether a message that was sent may reach the member `to`.
pub open spec fn addressed(sent: Sent, to: u64) -> bool {
    match sent.dest {
        MessageDestination::Broadcast => sent.from != to,
        MessageDestination::To(id) => id == to,
    }
}

/// The state of a member after an event, its log being left as `log2`.
pub open spec fn after<L: Log>(s: StateView, event: Event, log2: LogView) -> StateView {
    match event {
        Event::Tick { ticks } => s.timer_tick(ticks, log2),
        Event::Timeout { ticks } => s.timeout(ticks, log2),
        Event::Receive { sent, ticks } => s.receive::<L>(sent.message, sent.from, ticks, log2),
        Event::ClientRequest { .. } => if s.is_leader() {
            s.client_request(log2)
        } else {
            s
        },
        Event::AppendEntries { to } => s.append_entries::<L>(to),
        Event::SetConfig { config, ticks } => s.set_config(config, ticks),
        Event::ResetPeer { peer } => s.reset_peer(peer),
        Event::Log => StateView { log: log2, ..s },
    }
}

/// What a member sends by an event, its log being left as `log2`.
pub open spec fn output<L: Log>(s: StateView, event: Event, log2: LogView) -> Option<SendableView> {
    match event {
        Event::Tick { ticks } => if s.election_due() {
            s.timer_tick(ticks, log2).vote_request(MessageDestination::Broadcast)
        } else {
            None
        },
        Event::Timeout { ticks } => if s.is_leader() {
            None
        } else {
            s.timeout(ticks, log2).vote_request(MessageDestination::Broadcast)
        },
        Event::Receive { sent, ticks } => s.receive_reply(sent.message, sent.from, log2),
        Event::ClientRequest { .. } => None,
        Event::AppendEntries { to } => s.append_entries_message::<L>(to),
        Event::SetConfig { config, ticks } => None,
        Event::ResetPeer { peer } => s.reset_peer_message(peer),
        Event::Log => None,
    }
}

/// Whether an event may come to a member of the group: a message is received only by a
/// member that it was sent to, and only where the node may be handed it, and an election
/// starts only where a term is left for it.
pub open spec fn enabled(group: Group, member: u64, event: Event) -> bool {
    match event {
        Event::Tick { ticks } => group.nodes[member].election_due()
            ==> group.nodes[member].can_time_out(),
        Event::Timeout { ticks } => group.nodes[member].can_time_out(),
        Event::Receive { sent, ticks } => group.sent.contains(sent) && addressed(sent, member)
            && group.nodes[member].accepts(sent.message, sent.from),
        _ => true,
    }
}

impl Group {
    /// A group that starts: every member is a follower in term 0 that has voted for
    /// nobody, and no message was sent.
    pub open spec fn starts(self) -> bool {
        &&& self.members.finite()
        &&& self.members.len() <= usize::MAX
        &&& self.nodes.dom() == self.members
        &&& self.sent == Set::<Sent>::empty()
        &&& self.votes == Map::<(u64, u64), u64>::empty()
        &&& self.elected == Set::<(u64, u64)>::empty()
        &&& forall|n: u64| #[trigger]
            self.members.contains(n) ==> {
                &&& self.nodes[n].node_id == n
                &&& self.nodes[n].peers == self.members.remove(n)
                &&& self.nodes[n].current_term.id == 0
                &&& self.nodes[n].voted_for is None
                &&& self.nodes[n].leadership is Follower
            }
    }

    /// Whether the group goes from `self` to `next` by the event `event` at the member
    /// `member`, whose log is left as `log2`. The state of the member changes as the event
    /// has it, what it sends is on its way from then on, the vote that it holds is on
    /// record, and so is the member itself where it leads.
    pub open spec fn step<L: Log>(
        self,
        next: Group,
        member: u64,
        event: Event,
        log2: LogView,
    ) -> bool {
        let state = after::<L>(self.nodes[member], event, log2);
        &&& self.members.contains(member)
        &&& enabled(self, member, event)
        &&& next.members == self.members
        &&& next.nodes == self.nodes.insert(member, state)
        &&& next.sent == match output::<L>(self.nodes[member], event, log2) {
            Some(m) => self.sent.insert(Sent { from: member, message: m.message, dest: m.dest }),
            None => self.sent,
        }
        &&& next.votes == match state.voted_for {
            Some(candidate) => self.votes.insert((state.current_term.id, member), candidate),
            None => self.votes,
        }
        &&& next.elected == if state.is_leader() {
            self.elected.insert((state.current_term.id, member))
        } else {
            self.elected
        }
    }

    /// Whether the vote of `voter` in `term` is on record as cast for `candidate`.
    pub open spec fn voted(self, term: u64, voter: u64, candidate: u64) -> bool {
        self.votes.contains_key((term, voter)) && self.votes[(term, voter)] == candidate
    }

    /// Whether the votes of a quorum of the group are on record as cast for `candidate` in
    /// `term`.
    pub open spec fn has_quorum(self, term: u64, candidate: u64) -> bool {
        exists|quorum: Set<u64>| self.is_quorum_for(quorum, term, candidate)
    }

    /// Whether `quorum` is a quorum of the group whose votes are on record as cast for
    /// `candidate` in `term`.
    pub open spec fn is_quorum_for(self, quorum: Set<u64>, term: u64, candidate: u64) -> bool {
        &&& quorum.subset_of(self.members)
        &&& quorum.len() >= quorum_size_spec((self.members.len() - 1) as nat)
        &&& forall|v: u64| quorum.contains(v) ==> #[trigger] self.voted(term, v, candidate)
    }

    /// Whether the member `n` is as the record of the votes has it: its vote is on record,
    /// no vote of a later term is, and its vote of the current term is the one it holds.
    pub open spec fn member_ok(self, n: u64) -> bool {
        let s = self.nodes[n];
        &&& s.node_id == n
        &&& s.peers == self.members.remove(n)
        &&& match s.voted_for {
            Some(c) => self.voted(s.current_term.id, n, c),
            None => true,
        }
        &&& forall|term: u64| #[trigger]
            self.votes.contains_key((term, n)) ==> term <= s.current_term.id && (term
                == s.current_term.id ==> s.voted_for == Some(self.votes[(term, n)]))
        &&& match s.leadership {
            LeadershipView::Candidate { votes_granted, .. } => {
                &&& votes_granted.subset_of(self.members)
                &&& votes_granted.contains(n)
                &&& forall|v: u64|
                    votes_granted.contains(v) ==> #[trigger] self.voted(s.current_term.id, v, n)
            },
            _ => true,
        }
        &&& s.is_leader() ==> self.elected.contains((s.current_term.id, n))
    }

    /// Whether a message on its way is as the record of the votes has it: a vote granted
    /// is on record.
    pub open spec fn sent_ok(self, sent: Sent) -> bool {
        match sent.message.rpc {
            Some(RpcView::VoteResponse(response)) => response.vote_granted ==> match sent.dest {
                MessageDestination::To(candidate) => self.voted(
                    sent.message.term.id,
                    sent.from,
                    candidate,
                ),
                MessageDestination::Broadcast => false,
            },
            _ => true,
        }
    }

    /// The invariant of a group: the record of the votes is true to the members and to the
    /// messages, and every node that has led has had the votes of a quorum.
    pub open spec fn inv(self) -> bool {
        &&& self.members.finite()
        &&& self.members.len() <= usize::MAX
        &&& self.nodes.dom() == self.members
        &&& forall|n: u64| self.members.contains(n) ==> #[trigger] self.member_ok(n)
        &&& forall|sent: Sent| self.sent.contains(sent) ==> #[trigger] self.sent_ok(sent)
        &&& forall|term: u64, n: u64| #[trigger]
            self.elected.contains((term, n)) ==> self.has_quorum(term, n)
    }
}

/// A candidate holds its own vote.
pub proof fn lemma_candidate_votes_for_itself(group: Group, n: u64)
    requires
        group.inv(),
        group.members.contains(n),
        group.nodes[n].leadership is Candidate,
    ensures
        group.nodes[n].leadership->votes_granted.contains(n),
        group.nodes[n].voted_for == Some(n),
{
    assert(group.member_ok(n));
    let s = group.nodes[n];
    assert(group.voted(s.current_term.id, n, n));
    assert(group.votes.contains_key((s.current_term.id, n)));
}

/// A group that starts satisfies the invariant.
pub proof fn lemma_starts_inv(group: Group)
    requires
        group.starts(),
    ensures
        group.inv(),
{
    assert forall|n: u64| group.members.contains(n) implies #[trigger] group.member_ok(n) by {}
}

/// No term sees two leaders: of two nodes that have led in the same term, one is the
/// other.
pub proof fn law_one_leader_per_term(group: Group, term: u64, a: u64, b: u64)
    requires
        group.inv(),
        group.elected.contains((term, a)),
        group.elected.contains((term, b)),
    ensures
        a == b,
{
    assert(group.has_quorum(term, a));
    assert(group.has_quorum(term, b));
    let qa = choose|quorum: Set<u64>| group.is_quorum_for(quorum, term, a);
    let qb = choose|quorum: Set<u64>| group.is_quorum_for(quorum, term, b);
    assert(group.members.len() >= 1) by {
        if group.members.len() == 0 {
            vstd::set_lib::lemma_len_subset(qa, group.members);
        }
    }
    law_quorums_intersect(group.members, qa, qb);
    let v = choose|v: u64| qa.contains(v) && qb.contains(v);
    assert(group.voted(term, v, a));
    assert(group.voted(term, v, b));
}

/// Whether the vote of `x` counts for the member that went from `s` to `s1` by `event`, in
/// the term that it is in afterwards: the vote is its own, or it was counted before in the
/// same term, or it came with the message received.
pub open spec fn backs(s: StateView, s1: StateView, event: Event, x: u64) -> bool {
    ||| (x == s.node_id && s1.voted_for == Some(x))
    ||| (s.leadership is Candidate && s1.current_term == s.current_term
        && s.leadership->votes_granted.contains(x))
    ||| match event {
        Event::Receive { sent, .. } => x == sent.from && s.peers.contains(x) && sent.message.term
            == s1.current_term && sent.message.rpc == Some(
            RpcView::VoteResponse(VoteResponse { vote_granted: true }),
        ),
        _ => false,
    }
}

/// The votes that a member has when an event makes it take the lead.
pub open spec fn winners<L: Log>(s: StateView, event: Event, log2: LogView) -> Set<u64> {
    match event {
        Event::Receive { sent, ticks } => s.update_term(sent.message.term, ticks).handle::<L>(
            sent.message,
            sent.from,
            ticks,
            log2,
        ).leadership->votes_granted,
        _ => Set::empty().insert(s.node_id),
    }
}

/// What an event does to the term, the vote and the role of a member, as far as the
/// election of a leader goes.
pub open spec fn summary<L: Log>(s: StateView, event: Event, log2: LogView) -> bool {
    let s1 = after::<L>(s, event, log2);
    &&& s1.node_id == s.node_id
    &&& s1.peers == s.peers
    &&& s1.current_term.id >= s.current_term.id
    &&& s1.current_term == s.current_term && s.voted_for is Some ==> s1.voted_for == s.voted_for
    &&& match output::<L>(s, event, log2) {
        Some(m) => match m.message.rpc {
            Some(RpcView::VoteResponse(response)) => response.vote_granted ==> match m.dest {
                MessageDestination::To(candidate) => s1.voted_for == Some(candidate)
                    && m.message.term == s1.current_term,
                MessageDestination::Broadcast => false,
            },
            _ => true,
        },
        None => true,
    }
    &&& match s1.leadership {
        LeadershipView::Candidate { votes_granted, .. } => votes_granted.contains(s.node_id)
            && forall|x: u64| votes_granted.contains(x) ==> #[trigger] backs(s, s1, event, x),
        _ => true,
    }
    &&& s1.is_leader() ==> (s.is_leader() && s1.current_term == s.current_term) || {
        let won = winners::<L>(s, event, log2);
        &&& won.len() >= s.quorum()
        &&& forall|x: u64| won.contains(x) ==> #[trigger] backs(s, s1, event, x)
    }
}

/// Receiving a message does to the election what the summary says.
#[verifier::rlimit(50)]
pub proof fn lemma_summary_receive<L: Log>(s: StateView, sent: Sent, ticks: u32, log2: LogView)
    requires
        s.accepts(sent.message, sent.from),
        s.leadership matches LeadershipView::Candidate { votes_granted, .. }
            ==> votes_granted.contains(s.node_id) && s.voted_for == Some(s.node_id),
    ensures
        summary::<L>(s, Event::Receive { sent, ticks }, log2),
{
    let event = Event::Receive { sent, ticks };
    let s1 = after::<L>(s, event, log2);
    if s.peers.contains(sent.from) {
        let current = s.update_term(sent.message.term, ticks);
        let handled = current.handle::<L>(sent.message, sent.from, ticks, log2);
        let led = handled.become_leader(log2);
        assert(s1 == led.advance_commit());
        assert(handled.current_term == current.current_term);
        assert(led.current_term == current.current_term);
        assert(led.voted_for == handled.voted_for);
        assert(s1.leadership == led.leadership);
        match handled.leadership {
            LeadershipView::Candidate { votes_granted, .. } => {
                assert(current.leadership is Candidate);
                assert(s.leadership is Candidate && current == s);
                assert forall|x: u64| votes_granted.contains(x) implies #[trigger] backs(
                    s,
                    s1,
                    event,
                    x,
                ) by {
                    if !s.leadership->votes_granted.contains(x) {
                        assert(x == sent.from);
                    }
                }
            },
            _ => {},
        }
    }
}

/// An election timeout does to the election what the summary says.
pub proof fn lemma_summary_timeout<L: Log>(s: StateView, ticks: u32, log2: LogView)
    requires
        s.can_time_out(),
    ensures
        summary::<L>(s, Event::Timeout { ticks }, log2),
        s.election_due() ==> summary::<L>(s, Event::Tick { ticks }, log2),
{
    let event = Event::Timeout { ticks };
    let s1 = after::<L>(s, event, log2);
    if !s.is_leader() {
        let candidate = StateView {
            current_term: TermId { id: (s.current_term.id + 1) as u64 },
            voted_for: Some(s.node_id),
            leadership: LeadershipView::Candidate {
                votes_granted: Set::empty().insert(s.node_id),
                election_ticks: ticks,
            },
            ..s
        };
        let led = candidate.become_leader(log2);
        assert(s1 == led.advance_commit());
        assert(s1.voted_for == Some(s.node_id));
        assert forall|x: u64| Set::<u64>::empty().insert(s.node_id).contains(x) implies #[trigger] backs(
            s,
            s1,
            event,
            x,
        ) by {}
        if s.election_due() {
            let tick = Event::Tick { ticks };
            assert(after::<L>(s, tick, log2) == s1);
            assert forall|x: u64| Set::<u64>::empty().insert(s.node_id).contains(x) implies #[trigger] backs(
                s,
                s1,
                tick,
                x,
            ) by {}
        }
    }
}

/// Every event does to the election what the summary says.
pub proof fn lemma_summary<L: Log>(group: Group, member: u64, event: Event, log2: LogView)
    requires
        group.inv(),
        group.members.contains(member),
        enabled(group, member, event),
    ensures
        summary::<L>(group.nodes[member], event, log2),
{
    let s = group.nodes[member];
    assert(group.member_ok(member));
    if s.leadership is Candidate {
        lemma_candidate_votes_for_itself(group, member);
    }
    match event {
        Event::Receive { sent, ticks } => {
            lemma_summary_receive::<L>(s, sent, ticks, log2);
        },
        Event::Timeout { ticks } => {
            lemma_summary_timeout::<L>(s, ticks, log2);
        },
        Event::Tick { ticks } => {
            if s.election_due() {
                lemma_summary_timeout::<L>(s, ticks, log2);
            } else {
                lemma_summary_quiet::<L>(s, event, log2);
            }
        },
        _ => {
            lemma_summary_quiet::<L>(s, event, log2);
        },
    }
}

/// The events that have nothing to do with the election leave term, vote and role as
/// they are.
pub proof fn lemma_summary_quiet<L: Log>(s: StateView, event: Event, log2: LogView)
    requires
        !(event is Receive),
        !(event is Timeout),
        event is Tick ==> !s.election_due(),
        s.leadership matches LeadershipView::Candidate { votes_granted, .. }
            ==> votes_granted.contains(s.node_id),
    ensures
        summary::<L>(s, event, log2),
{
    let s1 = after::<L>(s, event, log2);
    assert(s1.current_term == s.current_term);
    assert(s1.voted_for == s.voted_for);
    assert(s1.is_leader() == s.is_leader());
    match s1.leadership {
        LeadershipView::Candidate { votes_granted, .. } => {
            assert(s.leadership is Candidate);
            assert(votes_granted == s.leadership->votes_granted);
            assert forall|x: u64| votes_granted.contains(x) implies #[trigger] backs(
                s,
                s1,
                event,
                x,
            ) by {}
        },
        _ => {},
    }
}

/// A step never takes a vote off the record, nor changes one.
#[verifier::rlimit(50)]
pub proof fn lemma_votes_stay<L: Log>(
    group: Group,
    next: Group,
    member: u64,
    event: Event,
    log2: LogView,
)
    requires
        group.inv(),
        group.step::<L>(next, member, event, log2),
    ensures
        forall|term: u64, voter: u64, candidate: u64| #[trigger]
            group.voted(term, voter, candidate) ==> next.voted(term, voter, candidate),
{
    lemma_summary::<L>(group, member, event, log2);
    let s = group.nodes[member];
    let s1 = after::<L>(s, event, log2);
    assert(group.member_ok(member));
    assert forall|term: u64, voter: u64, candidate: u64| #[trigger]
        group.voted(term, voter, candidate) implies next.voted(term, voter, candidate) by {
        if s1.voted_for is Some && voter == member && term == s1.current_term.id {
            assert(group.votes.contains_key((term, member)));
            assert(term <= s.current_term.id);
            assert(s1.current_term == s.current_term);
        }
    }
}

/// A vote that counts for a member after a step is on record after the step.
#[verifier::rlimit(50)]
pub proof fn lemma_backs_voted<L: Log>(
    group: Group,
    next: Group,
    member: u64,
    event: Event,
    log2: LogView,
    x: u64,
)
    requires
        group.inv(),
        group.step::<L>(next, member, event, log2),
        backs(group.nodes[member], next.nodes[member], event, x),
    ensures
        next.voted(next.nodes[member].current_term.id, x, member),
        group.members.contains(x),
{
    lemma_summary::<L>(group, member, event, log2);
    lemma_votes_stay::<L>(group, next, member, event, log2);
    let s = group.nodes[member];
    let s1 = next.nodes[member];
    assert(group.member_ok(member));
    if x == s.node_id && s1.voted_for == Some(x) {
    } else if s.leadership is Candidate && s1.current_term == s.current_term
        && s.leadership->votes_granted.contains(x) {
        assert(group.voted(s.current_term.id, x, member));
    } else {
        let sent = event->Receive_sent;
        assert(group.sent_ok(sent));
        assert(group.voted(sent.message.term.id, x, member));
    }
}

/// A step of a group keeps the invariant.
#[verifier::rlimit(50)]
pub proof fn lemma_step_inv<L: Log>(
    group: Group,
    next: Group,
    member: u64,
    event: Event,
    log2: LogView,
)
    requires
        group.inv(),
        group.step::<L>(next, member, event, log2),
    ensures
        next.inv(),
{
    lemma_summary::<L>(group, member, event, log2);
    lemma_votes_stay::<L>(group, next, member, event, log2);
    let s = group.nodes[member];
    let s1 = next.nodes[member];
    assert(s1 == after::<L>(s, event, log2));
    assert(group.member_ok(member));
    assert(next.nodes.dom() =~= next.members);
    assert forall|n: u64| next.members.contains(n) implies #[trigger] next.member_ok(n) by {
        assert(group.member_ok(n));
        if n == member {
            assert forall|term: u64| #[trigger]
                next.votes.contains_key((term, n)) implies term <= s1.current_term.id && (term
                == s1.current_term.id ==> s1.voted_for == Some(next.votes[(term, n)])) by {
                if group.votes.contains_key((term, n)) {
                    assert(term <= s.current_term.id);
                }
            }
            match s1.leadership {
                LeadershipView::Candidate { votes_granted, .. } => {
                    assert forall|v: u64| votes_granted.contains(v) implies #[trigger] next.voted(
                        s1.current_term.id,
                        v,
                        n,
                    ) && next.members.contains(v) by {
                        assert(backs(s, s1, event, v));
                        lemma_backs_voted::<L>(group, next, member, event, log2, v);
                    }
                },
                _ => {},
            }
        } else {
            let other = group.nodes[n];
            assert(next.nodes[n] == other);
            assert forall|term: u64| #[trigger]
                next.votes.contains_key((term, n)) implies group.votes.contains_key((term, n)) by {}
            match other.leadership {
                LeadershipView::Candidate { votes_granted, .. } => {
                    assert forall|v: u64| votes_granted.contains(v) implies #[trigger] next.voted(
                        other.current_term.id,
                        v,
                        n,
                    ) by {
                        assert(group.voted(other.current_term.id, v, n));
                    }
                },
                _ => {},
            }
        }
    }
    assert forall|sent: Sent| next.sent.contains(sent) implies #[trigger] next.sent_ok(sent) by {
        if group.sent.contains(sent) {
            assert(group.sent_ok(sent));
        }
    }
    assert forall|term: u64, n: u64| #[trigger]
        next.elected.contains((term, n)) implies next.has_quorum(term, n) by {
        if group.elected.contains((term, n)) {
            assert(group.has_quorum(term, n));
            let quorum = choose|quorum: Set<u64>| group.is_quorum_for(quorum, term, n);
            assert forall|v: u64| quorum.contains(v) implies #[trigger] next.voted(term, v, n) by {
                assert(group.voted(term, v, n));
            }
            assert(next.is_quorum_for(quorum, term, n));
        } else {
            assert(n == member && term == s1.current_term.id && s1.is_leader());
            assert(!(s.is_leader() && s1.current_term == s.current_term));
            let won = winners::<L>(s, event, log2);
            assert forall|v: u64| won.contains(v) implies #[trigger] next.voted(term, v, n)
                && next.members.contains(v) by {
                assert(backs(s, s1, event, v));
                lemma_backs_voted::<L>(group, next, member, event, log2, v);
            }
            assert(won.subset_of(next.members));
            vstd::set_lib::lemma_len_subset(s.peers, group.members);
            assert(s.peers.len() == group.members.len() - 1);
            assert(next.is_quorum_for(won, term, n));
        }
    }
}

/// A run of a group: the states that it goes through from its start, with the member, the
/// event and the log of each step.
pub struct GroupRun {
    pub states: Seq<Group>,
    pub members: Seq<u64>,
    pub events: Seq<Event>,
    pub logs: Seq<LogView>,
}

impl GroupRun {
    /// Whether the step from the state at position `k` to the next is a step of the group.
    pub open spec fn step_at<L: Log>(self, k: int) -> bool {
        self.states[k].step::<L>(
            self.states[k + 1],
            self.members[k],
            self.events[k],
            self.logs[k],
        )
    }

    /// Whether the run starts as a group starts and goes on by steps of the group.
    pub open spec fn valid<L: Log>(self) -> bool {
        &&& self.states.len() >= 1
        &&& self.members.len() == self.states.len() - 1
        &&& self.events.len() == self.states.len() - 1
        &&& self.logs.len() == self.states.len() - 1
        &&& self.states[0].starts()
        &&& forall|k: int| 0 <= k < self.states.len() - 1 ==> #[trigger] self.step_at::<L>(k)
    }
}

/// Every state of a run satisfies the invariant of the group.
pub proof fn lemma_run_inv<L: Log>(run: GroupRun, k: int)
    requires
        run.valid::<L>(),
        0 <= k < run.states.len(),
    ensures
        run.states[k].inv(),
    decreases k,
{
    if k == 0 {
        lemma_starts_inv(run.states[0]);
    } else {
        lemma_run_inv::<L>(run, k - 1);
        assert(run.step_at::<L>(k - 1));
        lemma_step_inv::<L>(
            run.states[k - 1],
            run.states[k],
            run.members[k - 1],
            run.events[k - 1],
            run.logs[k - 1],
        );
    }
}

/// In every state of a run, of two nodes that have led in the same term, one is the other:
/// at most one node ever takes the lead in a term.
pub proof fn law_election_safety<L: Log>(run: GroupRun, k: int, term: u64, a: u64, b: u64)
    requires
        run.valid::<L>(),
        0 <= k < run.states.len(),
        run.states[k].elected.contains((term, a)),
        run.states[k].elected.contains((term, b)),
    ensures
        a == b,
{
    lemma_run_inv::<L>(run, k);
    law_one_leader_per_term(run.states[k], term, a, b);
}

} // verus!
