//! Laws of the state machine: what holds of every node whatever the events, stated over the
//! transitions that the functions of the node are held to.

use crate::raft::log::{Log, LogView};
use crate::raft::message::{
    AppendRequestView, AppendResponse, EntryView, MessageView, RpcView, TermId,
};
use crate::raft::ordered::lemma_ascending_unique;
use crate::raft::state::{
    agreeing, appended_run, chunk_len, conflicts_with_committed, lemma_quorum_index_unique,
    lemma_rewind_bounds, matching_prefix, noop_entry, on_append_failure, on_append_success,
    probe_start, processed, quorum_size_spec, size_sum, timeout_ok, walk_ok, LeadershipView,
    ReplicationState, StateView,
};
use vstd::prelude::*;

verus! {

/// Advancing the commit index changes nothing else, never lowers it, and never takes it
/// beyond the end of the log.
pub proof fn law_advance_commit(s: StateView)
    requires
        s.log.wf(),
    ensures
        s.advance_commit() == (StateView { commit_idx: s.advance_commit().commit_idx, ..s }),
        s.advance_commit().commit_idx.id >= s.commit_idx.id,
        s.commit_idx.id <= s.log.last_index() ==> s.advance_commit().commit_idx.id
            <= s.log.last_index(),
{
}

/// Receiving a message never takes the term back, nor the commit index.
#[verifier::rlimit(50)]
pub proof fn law_receive_never_goes_back<L: Log>(
    s: StateView,
    msg: MessageView,
    from: u64,
    ticks: u32,
    log2: LogView,
)
    requires
        s.log.wf(),
        log2.wf(),
    ensures
        s.receive::<L>(msg, from, ticks, log2).current_term.id >= s.current_term.id,
        s.receive::<L>(msg, from, ticks, log2).commit_idx.id >= s.commit_idx.id,
{
    if s.peers.contains(from) {
        let current = s.update_term(msg.term, ticks);
        let handled = current.handle::<L>(msg, from, ticks, log2);
        assert(handled.current_term == current.current_term);
        assert(handled.commit_idx.id >= s.commit_idx.id);
        assert(handled.log == s.log || handled.log == log2);
        let led = handled.become_leader(log2);
        if handled.wins_election() {
            law_advance_commit(StateView { log: log2, ..led });
        }
        assert(led.log == s.log || led.log == log2);
        law_advance_commit(led);
    }
}

/// A node that receives a message from a peer is afterwards in the later of two terms, its
/// own and that of the message. Where the term of the message is the later one, the node
/// ends as a follower, and the vote that it gave before is forgotten: it has given none in
/// the new term, or one to the sender.
pub proof fn law_receive_adopts_term<L: Log>(
    s: StateView,
    msg: MessageView,
    from: u64,
    ticks: u32,
    log2: LogView,
)
    requires
        s.peers.contains(from),
    ensures
        ({
            let after = s.receive::<L>(msg, from, ticks, log2);
            &&& after.current_term.id == if msg.term.id > s.current_term.id {
                msg.term.id
            } else {
                s.current_term.id
            }
            &&& msg.term.id > s.current_term.id ==> after.leadership is Follower && (
            after.voted_for is None || after.voted_for == Some(from))
        }),
{
    let current = s.update_term(msg.term, ticks);
    let handled = current.handle::<L>(msg, from, ticks, log2);
    assert(handled.current_term == current.current_term);
    if msg.term.id > s.current_term.id {
        assert(handled.leadership is Follower);
        assert(handled.voted_for is None || handled.voted_for == Some(from));
    }
}

/// A tick of the timer never takes the term back, nor the commit index.
pub proof fn law_timer_tick_never_goes_back(s: StateView, ticks: u32, log2: LogView)
    requires
        s.log.wf(),
        log2.wf(),
        s.election_due() ==> s.can_time_out(),
    ensures
        s.timer_tick(ticks, log2).current_term.id >= s.current_term.id,
        s.timer_tick(ticks, log2).commit_idx.id >= s.commit_idx.id,
{
    if s.election_due() {
        law_timeout_never_goes_back(s, ticks, log2);
    }
}

/// An election timeout never takes the term back, nor the commit index; on a node that does
/// not lead it takes the term on by one.
pub proof fn law_timeout_never_goes_back(s: StateView, ticks: u32, log2: LogView)
    requires
        s.log.wf(),
        log2.wf(),
        s.can_time_out(),
    ensures
        s.timeout(ticks, log2).current_term.id >= s.current_term.id,
        !s.is_leader() ==> s.timeout(ticks, log2).current_term.id == s.current_term.id + 1,
        s.timeout(ticks, log2).commit_idx.id >= s.commit_idx.id,
{
    if !s.is_leader() {
        let candidate = StateView {
            current_term: TermId { id: (s.current_term.id + 1) as u64 },
            voted_for: Some(s.node_id),
            leadership: LeadershipView::Candidate {
                votes_granted: Set::empty().insert(s.node_id),
                election_ticks: ticks,
            },
            ..s
        };
        let led = candidate.become_leader(log2);
        if candidate.wins_election() {
            law_advance_commit(StateView { log: log2, ..led });
        }
        law_advance_commit(led);
    }
}

/// A request of a client never takes the term back, nor the commit index.
pub proof fn law_client_request_never_goes_back(s: StateView, log2: LogView)
    requires
        log2.wf(),
    ensures
        s.client_request(log2).current_term == s.current_term,
        s.client_request(log2).commit_idx.id >= s.commit_idx.id,
{
    law_advance_commit(StateView { log: log2, ..s });
}

/// A node that does not lead, and does not take the lead by the message, changes its log
/// only by taking in the entries of a request to append: by appending them, after cutting
/// the log where it held something else.
pub proof fn law_log_changes_only_by_requests<L: Log>(
    s: StateView,
    msg: MessageView,
    from: u64,
    log2: LogView,
)
    requires
        s.receive_step::<L>(msg, from, log2),
        !s.update_term(msg.term, 0).handle::<L>(msg, from, 0, s.log).wins_election(),
    ensures
        if s.takes_entries(msg, from) {
            let request = msg.rpc->0->AppendRequest_0;
            walk_ok(s.log, request.prev_log_idx.id as int, request.entries, log2)
        } else {
            log2 == s.log
        },
{
}

/// A tick of the timer leaves the log of a node as it is, unless the node takes the lead by
/// it.
pub proof fn law_timer_tick_keeps_log(s: StateView, ticks: u32, log2: LogView)
    requires
        s.election_due() ==> s.timeout_step(log2),
        !s.election_due() ==> log2 == s.log,
        !s.timer_tick(ticks, log2).is_leader() || s.is_leader(),
    ensures
        log2 == s.log,
        s.timer_tick(ticks, log2).log == s.log,
{
}

/// An answer to a request to append that is delivered a second time takes the peer's
/// indices no further than the first time: acceptance leaves them where they are, and
/// rejection leaves `match_idx` and takes `next_idx` back at most.
pub proof fn law_append_response_twice<L: Log>(
    replication: ReplicationState,
    between: ReplicationState,
    response: AppendResponse,
    log: LogView,
    chunk: usize,
)
    requires
        response.match_idx.id < u64::MAX,
        response.last_log_idx.id < u64::MAX,
        ({
            let once = if response.success {
                on_append_success(replication, response)
            } else {
                on_append_failure::<L>(replication, response, log, chunk)
            };
            between.next_idx == once.next_idx && between.match_idx == once.match_idx
        }),
    ensures
        ({
            let twice = if response.success {
                on_append_success(between, response)
            } else {
                on_append_failure::<L>(between, response, log, chunk)
            };
            &&& twice.match_idx == between.match_idx
            &&& twice.next_idx.id <= between.next_idx.id
            &&& response.success ==> twice.next_idx == between.next_idx
        }),
{
    if !response.success {
        let floor = response.match_idx.id as int;
        lemma_rewind_bounds::<L>(log, probe_start(replication, response), floor, chunk);
        lemma_rewind_bounds::<L>(log, probe_start(between, response), floor, chunk);
    }
}

/// A leader whose commit index was advanced stays as it is when the index is advanced
/// again, also where the replication states of its peers changed meanwhile in all but
/// `match_idx`.
pub proof fn lemma_advance_commit_again(s: StateView, t: StateView)
    requires
        s.peers.finite(),
        s.leadership is Leader,
        t.leadership is Leader,
        t.peers == s.peers,
        t.log == s.log,
        t.current_term == s.current_term,
        forall|p: u64|
            s.peers.contains(p) ==> (#[trigger] t.leadership->followers[p]).match_idx
                == s.leadership->followers[p].match_idx,
        t.commit_idx == s.advance_commit().commit_idx,
    ensures
        t.advance_commit() == t,
{
    assert forall|c: int| t.agree_count(c) == s.agree_count(c) by {
        assert(agreeing(t.leadership->followers, t.peers, c) =~= agreeing(
            s.leadership->followers,
            s.peers,
            c,
        )) by {
            assert forall|p: u64| s.peers.contains(p) implies (
            t.leadership->followers[p].match_idx.id >= c) == (
            s.leadership->followers[p].match_idx.id >= c) by {
                assert(t.leadership->followers[p].match_idx
                    == s.leadership->followers[p].match_idx);
            }
        }
    }
    if exists|c: int| t.is_quorum_index(c) {
        let ct = choose|c: int| t.is_quorum_index(c);
        assert(t.agree_count(ct) == s.agree_count(ct));
        assert(t.agree_count(ct + 1) == s.agree_count(ct + 1));
        assert(s.is_quorum_index(ct));
        let cs = choose|c: int| s.is_quorum_index(c);
        lemma_quorum_index_unique(s, cs, ct);
    }
}

/// A leader that gets the answer of a peer to a request to append a second time: the
/// peer's `match_idx` stays, its `next_idx` goes no further, and the log, the term, the
/// commit index and the replication states of the other peers stay as they are. After an
/// answer that accepts, the peer's indices are the greater of what they were and what the
/// answer names, and a second delivery changes nothing at all.
#[verifier::rlimit(50)]
pub proof fn law_append_response_delivered_twice<L: Log>(
    s: StateView,
    response: AppendResponse,
    from: u64,
    ticks: u32,
    again_ticks: u32,
)
    requires
        s.wf(),
        s.is_leader(),
        s.peers.contains(from),
        response.match_idx.id < u64::MAX,
        response.last_log_idx.id < u64::MAX,
    ensures
        ({
            let msg = MessageView {
                term: s.current_term,
                rpc: Some(RpcView::AppendResponse(response)),
            };
            let once = s.receive::<L>(msg, from, ticks, s.log);
            let twice = once.receive::<L>(msg, from, again_ticks, once.log);
            let before = s.leadership->followers[from];
            let first = once.leadership->followers[from];
            let second = twice.leadership->followers[from];
            &&& once.is_leader() && twice.is_leader()
            &&& second.match_idx == first.match_idx
            &&& second.next_idx.id <= first.next_idx.id
            &&& twice == (StateView {
                leadership: LeadershipView::Leader {
                    followers: once.leadership->followers.insert(from, second),
                    heartbeat_ticks: once.leadership->heartbeat_ticks,
                },
                ..once
            })
            &&& response.success ==> {
                &&& first.match_idx.id == if response.match_idx.id > before.match_idx.id {
                    response.match_idx.id
                } else {
                    before.match_idx.id
                }
                &&& first.next_idx.id == if response.match_idx.id + 1 > before.next_idx.id {
                    response.match_idx.id + 1
                } else {
                    before.next_idx.id as int
                }
                &&& twice == once
            }
        }),
{
    let msg = MessageView { term: s.current_term, rpc: Some(RpcView::AppendResponse(response)) };
    let handled = s.handle_append_response::<L>(response, from);
    assert(s.update_term(msg.term, ticks) == s);
    assert(s.update_term(msg.term, ticks).handle::<L>(msg, from, ticks, s.log) == handled);
    assert(!handled.wins_election());
    assert(handled.become_leader(s.log) == handled);
    let once = handled.advance_commit();
    law_advance_commit(handled);
    assert(once == s.receive::<L>(msg, from, ticks, s.log));
    let again = once.handle_append_response::<L>(response, from);
    assert(once.update_term(msg.term, again_ticks) == once);
    assert(once.update_term(msg.term, again_ticks).handle::<L>(msg, from, again_ticks, once.log)
        == again);
    assert(!again.wins_election());
    assert(again.become_leader(once.log) == again);
    let before = s.leadership->followers[from];
    let first = once.leadership->followers[from];
    law_append_response_twice::<L>(
        before,
        first,
        response,
        s.log,
        s.config.replication_chunk_size,
    );
    let second = again.leadership->followers[from];
    assert(second.match_idx == first.match_idx);
    assert forall|p: u64| handled.peers.contains(p) implies (
    #[trigger] again.leadership->followers[p]).match_idx
        == handled.leadership->followers[p].match_idx by {
        if p != from {
            assert(again.leadership->followers[p] == handled.leadership->followers[p]);
        }
    }
    lemma_advance_commit_again(handled, again);
    assert(again.advance_commit() == again);
    assert(once.receive::<L>(msg, from, again_ticks, once.log) == again);
    if response.success {
        assert(second == first);
        assert(again.leadership->followers =~= once.leadership->followers);
        assert(again == once);
    }
}

/// The log after `n` entries were handed out, one after another.
pub open spec fn taken(log: LogView, n: nat) -> LogView
    decreases n,
{
    if n == 0 {
        log
    } else {
        taken(log, (n - 1) as nat).take()
    }
}

/// Entries are handed out in the order of their indices, and each once: when `n` entries
/// were handed out, the last taken index is `n` further on and nothing else has changed, so
/// that the entry handed out next is the one at the index after all that were handed out
/// before.
pub proof fn law_taken_in_order(log: LogView, n: nat)
    ensures
        taken(log, n) == (LogView { last_taken: log.last_taken + n, ..log }),
    decreases n,
{
    if n > 0 {
        law_taken_in_order(log, (n - 1) as nat);
    }
}

/// A request to append whose entries start at the first index fits every log, whatever
/// term it names for the index before.
pub proof fn law_first_index_fits(s: StateView, request: AppendRequestView)
    requires
        request.prev_log_idx.id == 0,
    ensures
        s.append_log_ok(request),
{
}

/// A candidate that takes the lead appends an entry without data in its term, provided
/// that its log takes the entry.
pub proof fn law_new_leader_appends_noop(s: StateView, log2: LogView)
    requires
        s.log.wf(),
        s.wins_election(),
        s.become_leader_step(log2),
        log2.last_index() > s.log.last_index(),
    ensures
        s.become_leader(log2).is_leader(),
        log2.has(s.log.last_index() + 1),
        log2.entry(s.log.last_index() + 1) == noop_entry(s.current_term),
        log2.entry(s.log.last_index() + 1).data.len() == 0,
        log2.last_index() == s.log.last_index() + 1,
{
    let n = log2.prev_index - s.log.prev_index;
    assert(log2.entries == s.log.entries.skip(n).push(noop_entry(s.current_term)));
}

/// A node is the same whether the set of peers that it was made with named the node itself
/// or not: its state is determined by the peers without itself.
pub proof fn law_self_among_peers(with: StateView, without: StateView, peers: Set<u64>, id: u64)
    requires
        with.wf(),
        without.wf(),
        with.peers == peers.insert(id).remove(id),
        without.peers == peers.remove(id),
        with == (StateView { peers: with.peers, peer_order: with.peer_order, ..without }),
    ensures
        with == without,
{
    assert(with.peers =~= without.peers);
    lemma_ascending_unique(with.peer_order, without.peer_order);
}

/// The state of a node that does not lead after `n` ticks of the timer none of which
/// starts an election.
pub open spec fn ticked(s: StateView, n: nat) -> StateView
    decreases n,
{
    if n == 0 {
        s
    } else {
        ticked(s, (n - 1) as nat).timer_tick(0, s.log)
    }
}

/// The ticks that a node's election timer has left.
pub open spec fn election_ticks(s: StateView) -> u32 {
    match s.leadership {
        LeadershipView::Follower { election_ticks, .. } => election_ticks,
        LeadershipView::Candidate { election_ticks, .. } => election_ticks,
        LeadershipView::Leader { .. } => 0,
    }
}

/// An election timeout drawn for the base `k` lies between `k` and `2k - 1`. With it in
/// the timer, `n` ticks that start no election leave the timer at the timeout less `n`, and
/// the tick that starts the election is the one that finds 1 left: the election starts on
/// the tick with the number of the timeout, between the `k`th and the `2k - 1`th.
pub proof fn law_election_after_timeout(s: StateView, k: u32, n: nat)
    requires
        k >= 1,
        !s.is_leader(),
        timeout_ok(k, election_ticks(s)),
        n < election_ticks(s),
    ensures
        k <= election_ticks(s) <= 2 * k - 1,
        election_ticks(ticked(s, n)) == election_ticks(s) - n,
        !ticked(s, n).is_leader(),
        ticked(s, n).election_due() <==> n == election_ticks(s) - 1,
        ticked(s, n).current_term == s.current_term,
    decreases n,
{
    if n > 0 {
        law_election_after_timeout(s, k, (n - 1) as nat);
    }
}

/// Two quorums of a group have a member in common.
pub proof fn law_quorums_intersect(group: Set<u64>, a: Set<u64>, b: Set<u64>)
    requires
        group.finite(),
        group.len() >= 1,
        group.len() <= usize::MAX,
        a.subset_of(group),
        b.subset_of(group),
        a.len() >= quorum_size_spec((group.len() - 1) as nat),
        b.len() >= quorum_size_spec((group.len() - 1) as nat),
    ensures
        exists|x: u64| a.contains(x) && b.contains(x),
{
    vstd::set_lib::lemma_len_subset(a, group);
    vstd::set_lib::lemma_len_subset(b, group);
    vstd::set_lib::lemma_set_intersect_union_lens(a, b);
    assert((a + b).subset_of(group));
    vstd::set_lib::lemma_len_subset(a + b, group);
    assert(a.intersect(b).len() > 0);
    let x = a.intersect(b).choose();
    assert(a.intersect(b).contains(x)) by {
        if a.intersect(b) =~= Set::<u64>::empty() {
            assert(a.intersect(b).len() == 0);
        }
    }
    assert(a.contains(x) && b.contains(x));
}

/// Within a term a node keeps the vote that it has cast: a message that leaves the term as
/// it is leaves the vote to whom it went.
pub proof fn law_vote_kept_within_term<L: Log>(
    s: StateView,
    msg: MessageView,
    from: u64,
    ticks: u32,
    log2: LogView,
)
    requires
        s.voted_for is Some,
        s.receive::<L>(msg, from, ticks, log2).current_term == s.current_term,
    ensures
        s.receive::<L>(msg, from, ticks, log2).voted_for == s.voted_for,
{
}

/// A node takes the lead by a message only as a candidate with the votes of a quorum, and
/// then in the term in which it stood.
pub proof fn law_leader_needs_quorum<L: Log>(
    s: StateView,
    msg: MessageView,
    from: u64,
    ticks: u32,
    log2: LogView,
)
    requires
        !s.is_leader(),
        s.receive::<L>(msg, from, ticks, log2).is_leader(),
    ensures
        s.peers.contains(from),
        s.update_term(msg.term, ticks).handle::<L>(msg, from, ticks, log2).wins_election(),
        s.leadership is Candidate,
        s.receive::<L>(msg, from, ticks, log2).current_term == s.current_term,
{
}

/// Whether the log holds the entry at position `k` of a request with its term. The entries
/// of the request lie at the indices after `prev`.
pub open spec fn holds(log: LogView, prev: int, entries: Seq<EntryView>, k: int) -> bool {
    prev + 1 + k <= log.last_index() && log.term_at(prev + 1 + k) == Some(entries[k].term)
}

/// Whether the log reaches the index of the entry at position `k` of a request and, if it
/// still knows the term at that index, has the term of the entry there.
pub open spec fn agrees_at(log: LogView, prev: int, entries: Seq<EntryView>, k: int) -> bool {
    prev + 1 + k <= log.last_index() && (prev + 1 + k >= log.prev_index ==> log.term_at(
        prev + 1 + k,
    ) == Some(entries[k].term))
}

/// Whether the log holds every entry of a request with the term that the request gives it,
/// as far as the log still knows the terms at the indices of the request.
pub open spec fn agrees(log: LogView, prev: int, entries: Seq<EntryView>) -> bool {
    forall|k: int| 0 <= k < entries.len() ==> #[trigger] agrees_at(log, prev, entries, k)
}

/// Whether the entries of a request stop agreeing with the log at position `a`: they end
/// there, or the log does not hold the entry at that position with its term.
pub open spec fn stops_at(log: LogView, prev: int, entries: Seq<EntryView>, a: int) -> bool {
    a < entries.len() ==> !(prev + 1 + a <= log.last_index() && log.term_at(prev + 1 + a) == Some(
        entries[a].term,
    ))
}

/// An entry of a request before the position where the entries stop agreeing with the log
/// is held by the log with its term.
pub proof fn lemma_matching_at(log: LogView, prev: int, entries: Seq<EntryView>, from: int, k: int)
    requires
        0 <= from <= k < matching_prefix(log, prev, entries, from),
        from <= entries.len(),
    ensures
        k < entries.len(),
        prev + 1 + k <= log.last_index(),
        log.term_at(prev + 1 + k) == Some(entries[k].term),
    decreases entries.len() - from,
{
    if 0 <= from < entries.len() && prev + 1 + from <= log.last_index() && log.term_at(
        prev + 1 + from,
    ) == Some(entries[from].term) {
        if k > from {
            lemma_matching_at(log, prev, entries, from + 1, k);
        }
    }
}

/// The entries of a request up to where they stop agreeing with the log are held by the
/// log with their terms, and the entry at which they stop is not.
pub proof fn lemma_matching_prefix_matches(
    log: LogView,
    prev: int,
    entries: Seq<EntryView>,
    from: int,
)
    requires
        0 <= from <= entries.len(),
    ensures
        from <= matching_prefix(log, prev, entries, from) <= entries.len(),
        forall|k: int|
            from <= k < matching_prefix(log, prev, entries, from) ==> #[trigger] holds(
                log,
                prev,
                entries,
                k,
            ),
        stops_at(log, prev, entries, matching_prefix(log, prev, entries, from)),
    decreases entries.len() - from,
{
    if 0 <= from < entries.len() && prev + 1 + from <= log.last_index() && log.term_at(
        prev + 1 + from,
    ) == Some(entries[from].term) {
        lemma_matching_prefix_matches(log, prev, entries, from + 1);
    }
    assert forall|k: int| from <= k < matching_prefix(log, prev, entries, from) implies #[trigger] holds(
        log,
        prev,
        entries,
        k,
    ) by {
        lemma_matching_at(log, prev, entries, from, k);
    };
}

/// Where the log agrees with the entries of a request, the entries agree with the log up
/// to their end, or the first of them was discarded already.
pub proof fn lemma_agrees_matching(log: LogView, prev: int, entries: Seq<EntryView>, from: int)
    requires
        log.wf(),
        agrees(log, prev, entries),
        0 <= from <= entries.len(),
    ensures
        ({
            let a = matching_prefix(log, prev, entries, from);
            a == entries.len() || (a == from && prev + 1 + a < log.prev_index)
        }),
    decreases entries.len() - from,
{
    if from < entries.len() {
        assert(agrees_at(log, prev, entries, from));
        if prev + 1 + from >= log.prev_index {
            lemma_agrees_matching(log, prev, entries, from + 1);
            let next = matching_prefix(log, prev, entries, from + 1);
            if next != entries.len() {
                assert(next == from + 1 && prev + 1 + next < log.prev_index);
            }
        }
    }
}

/// What a run of appended entries leaves of the log that it started from, and where it
/// puts the entries.
#[verifier::rlimit(50)]
pub proof fn lemma_run_terms(base: LogView, entries: Seq<EntryView>, a: int, after: LogView)
    requires
        base.wf(),
        0 <= a <= entries.len(),
        appended_run(base, entries, a, after),
    ensures
        forall|i: int|
            after.prev_index <= i <= base.last_index() ==> #[trigger] after.term_at(i)
                == base.term_at(i),
        forall|i: int|
            after.prev_index < i <= base.last_index() ==> after.has(i) && base.has(i)
                && #[trigger] after.entry(i) == base.entry(i),
        forall|k: int|
            #![trigger entries[k]]
            a <= k < a + after.last_index() - base.last_index() ==> after.has(
                base.last_index() + 1 + (k - a),
            ) && after.entry(base.last_index() + 1 + (k - a)) == entries[k],
{
    let n = after.prev_index - base.prev_index;
    let j = a + after.last_index() - base.last_index();
    let run = entries.subrange(a, j);
    assert(after.entries == base.entries.skip(n) + run);
    assert forall|i: int| after.prev_index < i <= base.last_index() implies after.has(i)
        && base.has(i) && #[trigger] after.entry(i) == base.entry(i) by {
        assert(after.entries[i - after.prev_index - 1] == base.entries.skip(n)[i
            - after.prev_index - 1]);
    }
    assert forall|i: int| after.prev_index <= i <= base.last_index() implies #[trigger] after.term_at(
        i,
    ) == base.term_at(i) by {
        if i == after.prev_index {
            if n > 0 {
                assert(base.has(i));
                assert(base.entry(i) == base.entries[n - 1]);
            }
        } else {
            assert(after.entry(i) == base.entry(i));
        }
    }
    assert forall|k: int|
        #![trigger entries[k]]
        a <= k < j implies after.has(base.last_index() + 1 + (k - a)) && after.entry(
        base.last_index() + 1 + (k - a),
    ) == entries[k] by {
        let i = base.last_index() + 1 + (k - a);
        assert(after.entries[i - after.prev_index - 1] == run[k - a]);
    }
}

/// The log that the entries of an accepted request are appended to: the log itself where
/// they go on from its end, and the log cut from the index `i` where it held another term.
pub open spec fn run_base(log: LogView, i: int) -> LogView {
    if i == log.last_index() + 1 {
        log
    } else {
        log.truncate(i)
    }
}

/// Where a follower's log changes by taking in the entries of a request, it is by a run of
/// entries appended, from beyond the commit index on, to the log or to the log cut there.
#[verifier::rlimit(50)]
pub proof fn lemma_walk_is_run(
    log: LogView,
    commit: int,
    prev: int,
    entries: Seq<EntryView>,
    after: LogView,
)
    requires
        log.wf(),
        log.last_taken <= commit <= log.last_index(),
        0 <= prev <= log.last_index(),
        !conflicts_with_committed(log, commit, prev, entries),
        walk_ok(log, prev, entries, after),
        after != log,
    ensures
        ({
            let a = matching_prefix(log, prev, entries, 0);
            let base = run_base(log, prev + 1 + a);
            &&& 0 <= a < entries.len()
            &&& commit < prev + 1 + a <= log.last_index() + 1
            &&& log.prev_index < prev + 1 + a
            &&& base.wf()
            &&& base.last_index() == prev + a
            &&& appended_run(base, entries, a, after)
            &&& forall|i: int| i <= prev + a ==> #[trigger] base.term_at(i) == log.term_at(i)
            &&& forall|i: int|
                base.prev_index < i <= prev + a ==> base.has(i) && log.has(i)
                    && #[trigger] base.entry(i) == log.entry(i)
        }),
{
    let a = matching_prefix(log, prev, entries, 0);
    let i = prev + 1 + a;
    lemma_matching_prefix_matches(log, prev, entries, 0);
    if a > 0 {
        assert(holds(log, prev, entries, 0));
        assert(holds(log, prev, entries, a - 1));
    }
    assert(i <= log.last_index() + 1);
    if i != log.last_index() + 1 {
        assert(log.term_at(i) != Some(entries[a].term));
        assert(i > commit) by {
            if i <= commit {
                assert(conflicts_with_committed(log, commit, prev, entries));
            }
        }
        let base = log.truncate(i);
        assert(base.entries.len() == i - log.prev_index - 1);
        assert forall|at: int| base.prev_index < at <= prev + a implies base.has(at) && log.has(at)
            && #[trigger] base.entry(at) == log.entry(at) by {
            assert(base.entries[at - base.prev_index - 1] == log.entries[at - log.prev_index - 1]);
        }
    }
}

/// A follower that has taken in every entry of a request to append leaves its log as it is
/// when the same request is taken in again: it holds every entry of the request.
#[verifier::rlimit(50)]
pub proof fn law_append_request_twice(
    log: LogView,
    commit: int,
    prev: int,
    entries: Seq<EntryView>,
    after: LogView,
    commit_after: int,
    again: LogView,
)
    requires
        log.wf(),
        after.wf(),
        log.last_taken <= commit <= log.last_index(),
        0 <= prev <= log.last_index(),
        !conflicts_with_committed(log, commit, prev, entries),
        walk_ok(log, prev, entries, after),
        processed(log, prev, entries, after) == entries.len(),
        after.last_taken <= commit_after,
        !conflicts_with_committed(after, commit_after, prev, entries),
        walk_ok(after, prev, entries, again),
    ensures
        again == after,
        matching_prefix(after, prev, entries, 0) == entries.len(),
{
    let a = matching_prefix(log, prev, entries, 0);
    lemma_matching_prefix_matches(log, prev, entries, 0);
    if after == log {
        assert(a == entries.len());
        assert forall|k: int| 0 <= k < entries.len() implies #[trigger] agrees_at(
            after,
            prev,
            entries,
            k,
        ) by {
            assert(holds(log, prev, entries, k));
        }
    } else {
        lemma_walk_is_run(log, commit, prev, entries, after);
        let base = run_base(log, prev + 1 + a);
        lemma_run_terms(base, entries, a, after);
        assert(after.last_index() == prev + entries.len());
        assert forall|k: int| 0 <= k < entries.len() implies #[trigger] agrees_at(
            after,
            prev,
            entries,
            k,
        ) by {
            let at = prev + 1 + k;
            if at >= after.prev_index {
                if k < a {
                    assert(holds(log, prev, entries, k));
                    assert(after.term_at(at) == base.term_at(at));
                    assert(base.term_at(at) == log.term_at(at));
                } else {
                    assert(at == base.last_index() + 1 + (k - a));
                    assert(after.has(at) && after.entry(at) == entries[k]);
                }
            }
        }
    }
    lemma_agrees_matching(after, prev, entries, 0);
    let b = matching_prefix(after, prev, entries, 0);
    if b != entries.len() {
        assert(after.term_at(prev + 1 + 0) != Some(entries[0].term));
        assert(conflicts_with_committed(after, commit_after, prev, entries));
    }
}

/// A node that has taken in every entry of a request to append, and gets the same request
/// from the same peer again, leaves its log as it is. Where the request still fits the log,
/// the node stays as it is altogether, and gives the same answer as the first time. (It no
/// longer fits where the log has discarded what it held at the index before the entries.)
#[verifier::rlimit(50)]
pub proof fn law_append_request_delivered_twice<L: Log>(
    s: StateView,
    msg: MessageView,
    from: u64,
    ticks: u32,
    log2: LogView,
    again_ticks: u32,
    log3: LogView,
)
    requires
        s.wf(),
        log2.wf(),
        s.accepts(msg, from),
        s.takes_entries(msg, from),
        s.receive_step::<L>(msg, from, log2),
        processed(
            s.log,
            msg.rpc->0->AppendRequest_0.prev_log_idx.id as int,
            msg.rpc->0->AppendRequest_0.entries,
            log2,
        ) == msg.rpc->0->AppendRequest_0.entries.len(),
        s.receive::<L>(msg, from, ticks, log2).accepts(msg, from),
        s.receive::<L>(msg, from, ticks, log2).receive_step::<L>(msg, from, log3),
    ensures
        ({
            let once = s.receive::<L>(msg, from, ticks, log2);
            let twice = once.receive::<L>(msg, from, again_ticks, log3);
            &&& once.log == log2
            &&& log3 == log2
            &&& twice.log == once.log
            &&& once.takes_entries(msg, from) ==> twice == once && once.receive_reply(
                msg,
                from,
                log3,
            ) == s.receive_reply(msg, from, log2)
        }),
{
    let request = msg.rpc->0->AppendRequest_0;
    let prev = request.prev_log_idx.id as int;
    let entries = request.entries;
    let current = s.update_term(msg.term, ticks);
    let handled = current.handle_append_request(msg.term, request, from, ticks, log2);
    assert(current.handle::<L>(msg, from, ticks, log2) == handled);
    assert(handled.leadership is Follower);
    assert(handled.become_leader(log2) == handled);
    assert(handled.advance_commit() == handled);
    let once = s.receive::<L>(msg, from, ticks, log2);
    assert(once == handled);
    if once.takes_entries(msg, from) {
        law_append_request_twice(
            s.log,
            s.commit_idx.id as int,
            prev,
            entries,
            log2,
            once.commit_idx.id as int,
            log3,
        );
        let again = once.handle_append_request(msg.term, request, from, again_ticks, log3);
        assert(once.update_term(msg.term, again_ticks) == once);
        assert(once.handle::<L>(msg, from, again_ticks, log3) == again);
        assert(again.become_leader(log3) == again);
        assert(again.advance_commit() == again);
        assert(processed(log2, prev, entries, log3) == entries.len());
        assert(again.commit_idx == once.commit_idx);
        assert(again.leadership == once.leadership);
        assert(again == once);
        assert(s.update_term(msg.term, 0).takes_in(msg.term, request));
        assert(once.update_term(msg.term, 0) == once);
    } else {
        let other = once.update_term(msg.term, 0).handle::<L>(msg, from, 0, once.log);
        assert(other.leadership is Follower);
    }
}

/// A follower that takes in the entries of a request to append leaves the committed
/// entries that it holds as they are.
#[verifier::rlimit(50)]
pub proof fn law_committed_entries_stay(
    log: LogView,
    commit: int,
    prev: int,
    entries: Seq<EntryView>,
    after: LogView,
)
    requires
        log.wf(),
        log.last_taken <= commit <= log.last_index(),
        0 <= prev <= log.last_index(),
        !conflicts_with_committed(log, commit, prev, entries),
        walk_ok(log, prev, entries, after),
    ensures
        forall|i: int|
            after.prev_index < i <= commit ==> after.has(i) && log.has(i) && #[trigger] after.entry(
                i,
            ) == log.entry(i),
        commit <= after.last_index(),
{
    if after != log {
        let a = matching_prefix(log, prev, entries, 0);
        lemma_walk_is_run(log, commit, prev, entries, after);
        let base = run_base(log, prev + 1 + a);
        lemma_run_terms(base, entries, a, after);
        assert forall|at: int| after.prev_index < at <= commit implies after.has(at) && log.has(at)
            && #[trigger] after.entry(at) == log.entry(at) by {
            assert(after.entry(at) == base.entry(at));
            assert(base.entry(at) == log.entry(at));
        }
    }
}

/// The summed size of `n` entries from index `idx` on, added to `size`.
pub open spec fn grown<L: Log>(log: LogView, idx: int, size: usize, n: nat) -> usize
    decreases n,
{
    if n == 0 {
        size
    } else {
        grown::<L>(log, idx + 1, size_sum(size, L::entry_size(log.entry(idx))), (n - 1) as nat)
    }
}

/// The entries that go on into a request after its first are held by the log, stay within
/// the chunk size together with what went before, and are as many as do.
pub proof fn lemma_chunk_goes_on<L: Log>(log: LogView, idx: int, size: usize, max: usize)
    requires
        size >= 1,
    ensures
        ({
            let n = chunk_len::<L>(log, idx, size, max);
            &&& forall|k: int| 0 <= k < n ==> #[trigger] log.has(idx + k)
            &&& grown::<L>(log, idx, size, n) >= 1
            &&& n >= 1 ==> grown::<L>(log, idx, size, n) <= max
            &&& log.has(idx + n) ==> grown::<L>(log, idx, size, n) == max || size_sum(
                grown::<L>(log, idx, size, n),
                L::entry_size(log.entry(idx + n)),
            ) > max
        }),
    decreases log.last_index() - idx + 1,
{
    let n = chunk_len::<L>(log, idx, size, max);
    if log.has(idx) && size != max {
        let more = size_sum(size, L::entry_size(log.entry(idx)));
        if more <= max {
            lemma_chunk_goes_on::<L>(log, idx + 1, more, max);
            let rest = chunk_len::<L>(log, idx + 1, more, max);
            assert(n == 1 + rest);
            assert(grown::<L>(log, idx, size, n) == grown::<L>(log, idx + 1, more, rest));
            assert forall|k: int| 0 <= k < n implies #[trigger] log.has(idx + k) by {
                if k > 0 {
                    assert(log.has(idx + 1 + (k - 1)));
                }
            }
            assert(idx + n == idx + 1 + rest);
        }
    }
}

/// A request to append carries entries that the log holds, from the peer's next index on:
/// at least one where there is one, and more only as far as they stay within the chunk size
/// together, and then as many as do.
pub proof fn law_chunk_within_budget<L: Log>(log: LogView, idx: int, max: usize)
    ensures
        ({
            let n = chunk_len::<L>(log, idx, 0, max);
            &&& forall|k: int| 0 <= k < n ==> #[trigger] log.has(idx + k)
            &&& log.has(idx) ==> n >= 1
            &&& n >= 2 ==> grown::<L>(log, idx, 0, n) <= max
            &&& n >= 1 && log.has(idx + n) ==> grown::<L>(log, idx, 0, n) == max || size_sum(
                grown::<L>(log, idx, 0, n),
                L::entry_size(log.entry(idx + n)),
            ) > max
        }),
{
    let n = chunk_len::<L>(log, idx, 0, max);
    if log.has(idx) {
        L::entry_size_positive(log.entry(idx));
        let first = size_sum(0, L::entry_size(log.entry(idx)));
        lemma_chunk_goes_on::<L>(log, idx + 1, first, max);
        let rest = chunk_len::<L>(log, idx + 1, first, max);
        assert(n == 1 + rest);
        assert(grown::<L>(log, idx, 0, n) == grown::<L>(log, idx + 1, first, rest));
        assert forall|k: int| 0 <= k < n implies #[trigger] log.has(idx + k) by {
            if k > 0 {
                assert(log.has(idx + 1 + (k - 1)));
            }
        }
        assert(idx + n == idx + 1 + rest);
        if rest == 0 && log.has(idx + n) {
            assert(chunk_len::<L>(log, idx + 1, first, max) == 0);
        }
    }
}

} // verus!
