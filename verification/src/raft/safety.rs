//! The proof that the nodes of a group agree on what is committed.
//!
//! The proof is about groups whose logs cut where they are asked to, as a log does that is
//! bound to by its `cuts`, and whose hosts touch the logs only to take committed entries,
//! one by one and as many as they like. A follower whose log refuses to be cut answers for
//! entries that it does not hold, so that nothing of the kind holds of such a group. The
//! proof follows the group through its steps with a
//! record of the whole log of every member, with the entries that the member has discarded,
//! of the log of every leader, of the log that every candidate stood with, of what every
//! node has stored of the log of a leader, and of what was committed.

use crate::raft::group::{
    after, backs, law_one_leader_per_term, lemma_backs_voted, lemma_candidate_votes_for_itself,
    lemma_starts_inv, lemma_step_inv, lemma_summary, lemma_votes_stay, output, summary, winners,
    Event, Group, Sent,
};
use crate::raft::laws::{
    holds, law_quorums_intersect, lemma_matching_prefix_matches, stops_at,
};
use crate::raft::log::{Log, LogView};
use crate::raft::message::{EntryView, RpcView, TermId};
use crate::raft::state::{
    agreeing, appended_run, chunk_len, conflicts_with_committed, cut_where_asked,
    fresh_replication, matching_prefix, noop_entry, processed, quorum_size_spec, size_sum,
    walk_ok, LeadershipView, StateView,
};
use vstd::prelude::*;

verus! {

/// A group with the record that the proof keeps.
pub struct Replicated {
    pub group: Group,
    /// For every member, its whole log: the entries that it holds after those that it has
    /// discarded.
    pub full: Map<u64, Seq<EntryView>>,
    /// For every term that has had a leader, the log of the leader as it last was in the
    /// term.
    pub leader_log: Map<u64, Seq<EntryView>>,
    /// For a term and a node that stood for election in it, the log that it stood with.
    pub cand_log: Map<(u64, u64), Seq<EntryView>>,
    /// For a node and a term, how far the node has stored the log of the leader of the
    /// term while it was in the term.
    pub stored: Map<(u64, u64), int>,
    /// The votes, by term and voter, that were cast before the term had a leader.
    pub timely: Set<(u64, u64)>,
    /// The terms and indices up to which a leader has committed its log.
    pub committed: Set<(u64, int)>,
}

/// Whether two logs hold the same entries at their first `k` indices.
pub open spec fn agree(a: Seq<EntryView>, b: Seq<EntryView>, k: int) -> bool {
    &&& 0 <= k <= a.len()
    &&& k <= b.len()
    &&& forall|j: int| 0 <= j < k ==> #[trigger] a[j] == b[j]
}

/// Whether the terms of a log never fall from one entry to the next.
pub open spec fn sorted(log: Seq<EntryView>) -> bool {
    forall|a: int, b: int|
        0 <= a <= b < log.len() ==> (#[trigger] log[a]).term.id <= (#[trigger] log[b]).term.id
}

/// Whether no entry of a log is of a term after `term`.
pub open spec fn bounded(log: Seq<EntryView>, term: int) -> bool {
    forall|j: int| 0 <= j < log.len() ==> (#[trigger] log[j]).term.id <= term
}

/// The term of the last entry of a log, or 0.
pub open spec fn last_term(log: Seq<EntryView>) -> u64 {
    if log.len() == 0 {
        0
    } else {
        log.last().term.id
    }
}

/// Whether `log` holds the end of the whole log `full`: the entries of `full` from the
/// first that was not discarded on, and the term of the last that was.
pub open spec fn ends(log: LogView, full: Seq<EntryView>) -> bool {
    &&& log.wf()
    &&& log.last_index() == full.len()
    &&& forall|j: int|
        log.prev_index <= j < full.len() ==> #[trigger] full[j] == log.entries[j - log.prev_index]
    &&& if log.prev_index == 0 {
        log.prev_term.id == 0
    } else {
        log.prev_term == full[log.prev_index - 1].term
    }
}

/// The whole log of a member whose whole log was `full`, now that it holds `log`: what it
/// had discarded and what it holds.
pub open spec fn carried(full: Seq<EntryView>, log: LogView) -> Seq<EntryView> {
    full.take(log.prev_index) + log.entries
}

impl Replicated {
    /// The whole log of a member.
    pub open spec fn log(self, n: u64) -> Seq<EntryView> {
        self.full[n]
    }

    /// Whether `log` holds the first `i` entries of the log of the leader of `term`.
    pub open spec fn covers(self, log: Seq<EntryView>, term: u64, i: int) -> bool {
        self.leader_log.contains_key(term) && agree(log, self.leader_log[term], i)
    }

    /// Whether every entry of `log` is of a term that has had a leader, and the log holds
    /// up to the entry what the leader of that term held.
    pub open spec fn matches_leaders(self, log: Seq<EntryView>) -> bool {
        forall|i: int|
            1 <= i <= log.len() ==> self.covers(log, (#[trigger] log[i - 1]).term.id, i)
    }

    /// Whether the entry at index `i` of the log of the leader of `term` is of that term.
    pub open spec fn own(self, term: u64, i: int) -> bool {
        &&& self.leader_log.contains_key(term)
        &&& 1 <= i <= self.leader_log[term].len()
        &&& self.leader_log[term][i - 1].term.id == term
    }

    /// Whether a leader between the terms `lo` and `hi` does not hold the first `i` entries
    /// of the log of the leader of `term`.
    pub open spec fn lost_between(self, term: u64, i: int, lo: int, hi: int) -> bool {
        exists|w: u64|
            lo < w <= hi && #[trigger] self.leader_log.contains_key(w) && !agree(
                self.leader_log[w],
                self.leader_log[term],
                i,
            )
    }

    /// Whether the first `k` entries of `log` are committed: they are the first entries of
    /// the log of a leader that has committed that far.
    pub open spec fn chosen(self, log: Seq<EntryView>, k: int) -> bool {
        k == 0 || exists|t: u64, c: int| #[trigger]
            self.committed.contains((t, c)) && k <= c && self.covers(log, t, k)
    }

    /// Whether `quorum` is a quorum of the group.
    pub open spec fn is_quorum(self, quorum: Set<u64>) -> bool {
        &&& quorum.subset_of(self.group.members)
        &&& quorum.len() >= quorum_size_spec((self.group.members.len() - 1) as nat)
    }

    /// Whether the node `v` has stored the log of the leader of `term` up to index `i`.
    pub open spec fn has_stored(self, v: u64, term: u64, i: int) -> bool {
        self.stored.contains_key((v, term)) && self.stored[(v, term)] >= i
    }

    /// Whether a quorum has stored the log of the leader of `term` up to index `i`.
    pub open spec fn stored_by_quorum(self, term: u64, i: int) -> bool {
        exists|quorum: Set<u64>|
            self.is_quorum(quorum) && forall|v: u64|
                quorum.contains(v) ==> #[trigger] self.has_stored(v, term, i)
    }

    /// Whether the vote of `v` in `term` went to `c` before the term had a leader.
    pub open spec fn voted_timely(self, term: u64, v: u64, c: u64) -> bool {
        self.group.voted(term, v, c) && self.timely.contains((term, v))
    }

    /// Whether a quorum voted for `c` in `term` before the term had a leader.
    pub open spec fn elected_timely(self, term: u64, c: u64) -> bool {
        exists|quorum: Set<u64>|
            self.is_quorum(quorum) && forall|v: u64|
                quorum.contains(v) ==> #[trigger] self.voted_timely(term, v, c)
    }

    /// What the record says of a member: the member holds the end of its whole log, which
    /// is in the order of the terms, of no term after the member's, and true to the leaders
    /// whose entries it holds; what the member has committed is committed; a leader holds
    /// the log of its term, and a candidate the log that it stood with.
    pub open spec fn member_safe(self, n: u64) -> bool {
        let s = self.group.nodes[n];
        let mine = self.full[n];
        &&& self.full.contains_key(n)
        &&& ends(s.log, mine)
        &&& s.log.last_taken <= s.commit_idx.id <= mine.len()
        &&& sorted(mine)
        &&& bounded(mine, s.current_term.id as int)
        &&& self.matches_leaders(mine)
        &&& self.chosen(mine, s.commit_idx.id as int)
        &&& s.is_leader() ==> self.leader_log.contains_key(s.current_term.id)
            && self.leader_log[s.current_term.id] == mine
        &&& s.leadership is Candidate ==> self.cand_log.contains_key((s.current_term.id, n))
            && self.cand_log[(s.current_term.id, n)] == mine
        &&& !self.leader_log.contains_key(s.current_term.id) ==> bounded(
            mine,
            s.current_term.id - 1,
        )
        &&& forall|t: u64| #[trigger]
            self.group.elected.contains((t, n)) ==> t <= s.current_term.id && (t
                == s.current_term.id ==> s.is_leader())
        &&& forall|t: u64| #[trigger]
            self.cand_log.contains_key((t, n)) ==> t <= s.current_term.id
        &&& match s.leadership {
            LeadershipView::Leader { followers, .. } => {
                &&& followers.dom() == s.peers
                &&& forall|p: u64| #[trigger]
                    followers.contains_key(p) ==> followers[p].match_idx.id == 0
                        || self.has_stored(p, s.current_term.id, followers[p].match_idx.id as int)
                &&& self.has_stored(n, s.current_term.id, mine.len() as int)
            },
            _ => true,
        }
    }

    /// What the record says of what a node has stored of the log of a leader.
    pub open spec fn stored_safe(self, v: u64, term: u64) -> bool {
        let m = self.stored[(v, term)];
        &&& self.group.members.contains(v)
        &&& self.group.nodes[v].current_term.id >= term
        &&& self.leader_log.contains_key(term)
        &&& 0 <= m <= self.leader_log[term].len()
        &&& forall|i: int|
            i <= m && #[trigger] self.own(term, i) ==> self.covers(self.log(v), term, i)
                || self.lost_between(term, i, term as int, self.group.nodes[v].current_term.id as int)
    }

    /// What the record says of the log of the leader of a term: it is in the order of the
    /// terms and of no term after its own, it is true to the leaders before, and it goes on
    /// from the log that the leader stood with by entries of its own term.
    pub open spec fn leader_safe(self, term: u64) -> bool {
        let log = self.leader_log[term];
        &&& sorted(log)
        &&& bounded(log, term as int)
        &&& self.matches_leaders(log)
        &&& exists|c: u64| self.leads(term, c)
    }

    /// Whether `c` has led in `term`, with a quorum that voted for it in time and from the
    /// log that it stood with.
    pub open spec fn leads(self, term: u64, c: u64) -> bool {
        let log = self.leader_log[term];
        &&& self.group.elected.contains((term, c))
        &&& self.elected_timely(term, c)
        &&& self.cand_log.contains_key((term, c))
        &&& agree(log, self.cand_log[(term, c)], self.cand_log[(term, c)].len() as int)
        &&& forall|j: int|
            self.cand_log[(term, c)].len() <= j < log.len() ==> (#[trigger] log[j]).term.id == term
    }

    /// What the record says of the log that a candidate stood with.
    pub open spec fn candidate_safe(self, term: u64, c: u64) -> bool {
        let log = self.cand_log[(term, c)];
        &&& sorted(log)
        &&& bounded(log, term - 1)
        &&& self.matches_leaders(log)
    }

    /// What the record says of a vote cast in time: the log that the candidate stood with
    /// holds what the voter had stored of the logs of earlier leaders, unless a leader in
    /// between did not hold it.
    pub open spec fn vote_safe(self, term: u64, v: u64) -> bool {
        let c = self.group.votes[(term, v)];
        &&& self.group.votes.contains_key((term, v))
        &&& self.cand_log.contains_key((term, c))
        &&& forall|t: u64, i: int|
            t < term && self.has_stored(v, t, i) && #[trigger] self.own(t, i) ==> self.covers(
                self.cand_log[(term, c)],
                t,
                i,
            ) || self.lost_between(t, i, t as int, term - 1)
    }

    /// What the record says of a message on its way.
    pub open spec fn sent_safe(self, sent: Sent) -> bool {
        let term = sent.message.term.id;
        match sent.message.rpc {
            Some(RpcView::VoteRequest(request)) => {
                &&& self.cand_log.contains_key((term, sent.from))
                &&& request.last_log_idx.id == self.cand_log[(term, sent.from)].len()
                &&& request.last_log_term.id == last_term(self.cand_log[(term, sent.from)])
            },
            Some(RpcView::AppendRequest(request)) => {
                let p = request.prev_log_idx.id as int;
                &&& self.leader_log.contains_key(term)
                &&& p + request.entries.len() <= self.leader_log[term].len()
                &&& p >= 1 ==> request.prev_log_term == self.leader_log[term][p - 1].term
                &&& forall|k: int|
                    0 <= k < request.entries.len() ==> #[trigger] request.entries[k]
                        == self.leader_log[term][p + k]
                &&& request.leader_commit.id <= p + request.entries.len()
                &&& self.chosen(self.leader_log[term], request.leader_commit.id as int)
            },
            Some(RpcView::AppendResponse(response)) => response.success
                && response.match_idx.id >= 1 ==> self.has_stored(
                sent.from,
                term,
                response.match_idx.id as int,
            ),
            _ => true,
        }
    }

    /// What the record says of an index up to which a leader has committed: the entry
    /// there is of the leader's term, a quorum has stored the log of the leader up to it,
    /// and every later leader holds the log up to it.
    pub open spec fn committed_safe(self, term: u64, c: int) -> bool {
        &&& self.own(term, c)
        &&& self.stored_by_quorum(term, c)
        &&& forall|u: u64|
            term < u && #[trigger] self.leader_log.contains_key(u) ==> agree(
                self.leader_log[u],
                self.leader_log[term],
                c,
            )
    }

    /// The invariant of the proof.
    pub open spec fn inv(self) -> bool {
        &&& self.group.inv()
        &&& forall|n: u64| self.group.members.contains(n) ==> #[trigger] self.member_safe(n)
        &&& forall|v: u64, t: u64| #[trigger]
            self.stored.contains_key((v, t)) ==> self.stored_safe(v, t)
        &&& forall|t: u64| #[trigger] self.leader_log.contains_key(t) ==> self.leader_safe(t)
        &&& forall|t: u64, c: u64| #[trigger]
            self.cand_log.contains_key((t, c)) ==> self.candidate_safe(t, c)
        &&& forall|t: u64, v: u64| #[trigger] self.timely.contains((t, v)) ==> self.vote_safe(t, v)
        &&& forall|t: u64, v: u64|
            !self.leader_log.contains_key(t) && #[trigger] self.group.votes.contains_key((t, v))
                ==> self.timely.contains((t, v))
        &&& forall|sent: Sent| self.group.sent.contains(sent) ==> #[trigger] self.sent_safe(sent)
        &&& forall|t: u64, c: int| #[trigger]
            self.committed.contains((t, c)) ==> self.committed_safe(t, c)
    }
}

/// Two leaders that have committed hold the same log as far as the earlier of them, or
/// the one that committed less in a term, has committed.
pub proof fn lemma_committed_agree(r: Replicated, t1: u64, c1: int, t2: u64, c2: int)
    requires
        r.inv(),
        r.committed.contains((t1, c1)),
        r.committed.contains((t2, c2)),
        t1 < t2 || (t1 == t2 && c1 <= c2),
    ensures
        agree(r.leader_log[t2], r.leader_log[t1], c1),
{
    assert(r.committed_safe(t1, c1));
    assert(r.committed_safe(t2, c2));
}

/// Two nodes hold the same entry at every index up to which both have committed and whose
/// entry neither has discarded.
pub proof fn law_committed_entries_are_the_same(r: Replicated, a: u64, b: u64, i: int)
    requires
        r.inv(),
        r.group.members.contains(a),
        r.group.members.contains(b),
        1 <= i <= r.group.nodes[a].commit_idx.id,
        i <= r.group.nodes[b].commit_idx.id,
    ensures
        r.log(a)[i - 1] == r.log(b)[i - 1],
        r.group.nodes[a].log.has(i) ==> r.group.nodes[a].log.entry(i) == r.log(a)[i - 1],
        r.group.nodes[b].log.has(i) ==> r.group.nodes[b].log.entry(i) == r.log(b)[i - 1],
        r.group.nodes[a].log.has(i) && r.group.nodes[b].log.has(i) ==> r.group.nodes[a].log.entry(
            i,
        ) == r.group.nodes[b].log.entry(i),
{
    assert(r.member_safe(a));
    assert(r.member_safe(b));
    let sa = r.group.nodes[a];
    let sb = r.group.nodes[b];
    let la = r.log(a);
    let lb = r.log(b);
    assert(r.chosen(la, sa.commit_idx.id as int));
    assert(r.chosen(lb, sb.commit_idx.id as int));
    let (ta, ca) = choose|t: u64, c: int| #[trigger]
        r.committed.contains((t, c)) && sa.commit_idx.id <= c && r.covers(
            la,
            t,
            sa.commit_idx.id as int,
        );
    let (tb, cb) = choose|t: u64, c: int| #[trigger]
        r.committed.contains((t, c)) && sb.commit_idx.id <= c && r.covers(
            lb,
            t,
            sb.commit_idx.id as int,
        );
    if ta < tb || (ta == tb && ca <= cb) {
        lemma_committed_agree(r, ta, ca, tb, cb);
    } else {
        lemma_committed_agree(r, tb, cb, ta, ca);
    }
    assert(la[i - 1] == r.leader_log[ta][i - 1]);
    assert(lb[i - 1] == r.leader_log[tb][i - 1]);
    if sa.log.has(i) {
        assert(la[i - 1] == sa.log.entries[i - 1 - sa.log.prev_index]);
    }
    if sb.log.has(i) {
        assert(lb[i - 1] == sb.log.entries[i - 1 - sb.log.prev_index]);
    }
}

/// Whether `log2` may be the log of a member after an event, in a group whose logs cut
/// where they are asked to, and whose hosts only take committed entries.
pub open spec fn log_step<L: Log>(s: StateView, event: Event, log2: LogView) -> bool {
    &&& log2.wf()
    &&& match event {
        Event::Tick { .. } => if s.election_due() {
            s.timeout_step(log2)
        } else {
            log2 == s.log
        },
        Event::Timeout { .. } => s.timeout_step(log2),
        Event::Receive { sent, .. } => s.receive_step::<L>(sent.message, sent.from, log2) && (
        s.takes_entries(sent.message, sent.from) ==> cut_where_asked(
            s.log,
            sent.message.rpc->0->AppendRequest_0.prev_log_idx.id as int,
            sent.message.rpc->0->AppendRequest_0.entries,
            log2,
        )),
        Event::ClientRequest { data } => if s.is_leader() {
            s.append_step(EntryView { term: s.current_term, data }, log2)
        } else {
            log2 == s.log
        },
        Event::Log => log2 == (LogView { last_taken: log2.last_taken, ..s.log })
            && s.log.last_taken <= log2.last_taken <= s.commit_idx.id,
        _ => log2 == s.log,
    }
}

/// Whether a member stands for election by an event.
pub open spec fn stands(s: StateView, event: Event) -> bool {
    !s.is_leader() && (event is Timeout || (event is Tick && s.election_due()))
}

/// How far a follower has stored the log of the leader once it has taken in the entries
/// of a request to append.
pub open spec fn reached(s: StateView, sent: Sent, log2: LogView) -> int {
    let request = sent.message.rpc->0->AppendRequest_0;
    request.prev_log_idx.id + processed(
        s.log,
        request.prev_log_idx.id as int,
        request.entries,
        log2,
    )
}

impl Replicated {
    /// A group that starts: as a group starts, with empty logs and nothing on record.
    pub open spec fn starts(self) -> bool {
        &&& self.group.starts()
        &&& forall|n: u64| #[trigger]
            self.group.members.contains(n) ==> self.full.contains_key(n) && self.full[n]
                == Seq::<EntryView>::empty()
        &&& self.leader_log == Map::<u64, Seq<EntryView>>::empty()
        &&& self.cand_log == Map::<(u64, u64), Seq<EntryView>>::empty()
        &&& self.stored == Map::<(u64, u64), int>::empty()
        &&& self.timely == Set::<(u64, u64)>::empty()
        &&& self.committed == Set::<(u64, int)>::empty()
        &&& forall|n: u64| #[trigger]
            self.group.members.contains(n) ==> self.group.nodes[n].log == LogView::empty()
                && self.group.nodes[n].commit_idx.id == 0
    }

    /// How far the member has stored the log of the leader of its term after an event, if
    /// the event has it store anything.
    pub open spec fn stores<L: Log>(self, member: u64, event: Event, log2: LogView) -> Option<int> {
        let s = self.group.nodes[member];
        let s1 = after::<L>(s, event, log2);
        if s1.is_leader() {
            Some(s1.log.last_index())
        } else {
            match event {
                Event::Receive { sent, .. } => if s.takes_entries(sent.message, sent.from) {
                    let so_far = if self.stored.contains_key((member, s1.current_term.id)) {
                        self.stored[(member, s1.current_term.id)]
                    } else {
                        0
                    };
                    Some(
                        if so_far >= reached(s, sent, log2) {
                            so_far
                        } else {
                            reached(s, sent, log2)
                        },
                    )
                } else {
                    None
                },
                _ => None,
            }
        }
    }

    /// Whether the group goes from `self` to `next` by the event `event` at the member
    /// `member`, whose log is left as `log2`, and the record is kept.
    pub open spec fn step<L: Log>(
        self,
        next: Replicated,
        member: u64,
        event: Event,
        log2: LogView,
    ) -> bool {
        let s = self.group.nodes[member];
        let s1 = after::<L>(s, event, log2);
        &&& self.group.step::<L>(next.group, member, event, log2)
        &&& log_step::<L>(s, event, log2)
        &&& next.full == self.full.insert(member, carried(self.full[member], s1.log))
        &&& next.leader_log == if s1.is_leader() {
            self.leader_log.insert(s1.current_term.id, next.full[member])
        } else {
            self.leader_log
        }
        &&& next.cand_log == if stands(s, event) {
            self.cand_log.insert(((s.current_term.id + 1) as u64, member), self.full[member])
        } else {
            self.cand_log
        }
        &&& next.stored == match self.stores::<L>(member, event, log2) {
            Some(m) => self.stored.insert((member, s1.current_term.id), m),
            None => self.stored,
        }
        &&& next.timely == if s1.voted_for is Some && !self.leader_log.contains_key(
            s1.current_term.id,
        ) {
            self.timely.insert((s1.current_term.id, member))
        } else {
            self.timely
        }
        &&& next.committed == if s1.is_leader() && s1.commit_idx.id > s.commit_idx.id {
            self.committed.insert((s1.current_term.id, s1.commit_idx.id as int))
        } else {
            self.committed
        }
    }
}

/// A group that starts satisfies the invariant.
pub proof fn lemma_starts_safe(r: Replicated)
    requires
        r.starts(),
    ensures
        r.inv(),
{
    lemma_starts_inv(r.group);
    assert forall|n: u64| r.group.members.contains(n) implies #[trigger] r.member_safe(n) by {
        let s = r.group.nodes[n];
        assert(s.log.entries.len() == 0);
        assert(r.full[n].len() == 0);
    }
}

/// What an event does to the whole log and the commit index of a member whose whole log
/// was `full`.
pub open spec fn log_summary<L: Log>(
    s: StateView,
    event: Event,
    log2: LogView,
    full: Seq<EntryView>,
) -> bool {
    let s1 = after::<L>(s, event, log2);
    let old = full;
    let new = carried(full, s1.log);
    &&& ends(s1.log, new)
    &&& s1.log.last_taken <= s1.commit_idx.id <= new.len()
    &&& s1.commit_idx.id >= s.commit_idx.id
    &&& s.is_leader() && s1.current_term == s.current_term ==> s1.is_leader()
    &&& s1.is_leader() ==> {
        ||| new == old
        ||| new == old.push(new.last()) && new.last().term == s1.current_term
    }
    &&& !s1.is_leader() ==> new == old || match event {
        Event::Receive { sent, .. } => s.takes_entries(sent.message, sent.from),
        _ => false,
    }
    &&& s1.commit_idx.id > s.commit_idx.id ==> {
        ||| s1.is_leader() && s1.is_quorum_index(s1.commit_idx.id as int) && new[s1.commit_idx.id
            - 1].term == s1.current_term
        ||| !s1.is_leader() && match event {
            Event::Receive { sent, .. } => s.takes_entries(sent.message, sent.from)
                && s1.commit_idx.id <= sent.message.rpc->0->AppendRequest_0.leader_commit.id
                && s1.commit_idx.id <= reached(s, sent, log2),
            _ => false,
        }
    }
}

/// Whether a member is in the shape that the proof asks of it.
pub open spec fn shaped(s: StateView) -> bool {
    &&& s.log.wf()
    &&& s.log.last_taken <= s.commit_idx.id <= s.log.last_index()
    &&& s.peers.finite()
    &&& match s.leadership {
        LeadershipView::Leader { followers, .. } => followers.dom() == s.peers,
        _ => true,
    }
}

/// A log that holds the end of a whole log carries the whole log on as it is.
pub proof fn lemma_ends_same(log: LogView, full: Seq<EntryView>)
    requires
        ends(log, full),
    ensures
        carried(full, log) == full,
{
    assert(carried(full, log) =~= full);
}

/// A log that holds the end of a whole log ends where the whole log ends, with the term
/// that the whole log ends with.
pub proof fn lemma_ends_last(log: LogView, full: Seq<EntryView>)
    requires
        ends(log, full),
    ensures
        log.last_index() == full.len(),
        log.last_term().id == last_term(full),
{
    if log.entries.len() > 0 {
        assert(full[full.len() - 1] == log.entries[full.len() - 1 - log.prev_index]);
    }
}

/// What the whole log becomes where the log takes an entry, discarding entries that were
/// taken, or refuses it.
pub proof fn lemma_ends_append(log: LogView, full: Seq<EntryView>, entry: EntryView, log2: LogView)
    requires
        ends(log, full),
        log2.wf(),
        log2.appended_to(log, entry) || log2 == log,
    ensures
        log2.appended_to(log, entry) ==> carried(full, log2) == full.push(entry) && ends(
            log2,
            full.push(entry),
        ),
        log2 == log ==> carried(full, log2) == full && ends(log2, full),
        log2.last_taken == log.last_taken,
        log2.appended_to(log, entry) ==> log2.last_index() == log.last_index() + 1,
{
    let n = log2.prev_index - log.prev_index;
    if log2 == log {
        lemma_ends_same(log, full);
    }
    if log2.appended_to(log, entry) {
        let grown = full.push(entry);
        assert(log2.entries == log.entries.skip(n).push(entry));
        assert(carried(full, log2) =~= grown);
        assert forall|j: int| log2.prev_index <= j < grown.len() implies #[trigger] grown[j]
            == log2.entries[j - log2.prev_index] by {
            if j < full.len() {
                assert(full[j] == log.entries[j - log.prev_index]);
            }
        }
        if n > 0 {
            assert(full[log2.prev_index - 1] == log.entries[n - 1]);
        }
    }
}

/// The events that do not touch the log leave the whole log as it is.
pub proof fn lemma_log_summary_quiet<L: Log>(
    s: StateView,
    event: Event,
    log2: LogView,
    full: Seq<EntryView>,
)
    requires
        shaped(s),
        ends(s.log, full),
        log_step::<L>(s, event, log2),
        event is AppendEntries || event is SetConfig || event is ResetPeer || event is Log || (
        event is Tick && !s.election_due()) || (event is ClientRequest && !s.is_leader()),
    ensures
        log_summary::<L>(s, event, log2, full),
        match_summary::<L>(s, event, log2),
        shaped(after::<L>(s, event, log2)),
        carried(full, after::<L>(s, event, log2).log) == full,
        after::<L>(s, event, log2).commit_idx == s.commit_idx,
{
    let s1 = after::<L>(s, event, log2);
    assert(s1.log.entries == s.log.entries && s1.log.prev_index == s.log.prev_index);
    lemma_ends_same(s.log, full);
    match s1.leadership {
        LeadershipView::Leader { followers, .. } => {
            assert(s.is_leader());
            assert(followers.dom() =~= s.peers);
        },
        _ => {},
    }
}

/// What advancing the commit index does to a leader.
pub proof fn lemma_advance_summary(s: StateView, full: Seq<EntryView>)
    requires
        ends(s.log, full),
        s.commit_idx.id <= s.log.last_index(),
    ensures
        ({
            let s1 = s.advance_commit();
            &&& s1 == (StateView { commit_idx: s1.commit_idx, ..s })
            &&& s1.commit_idx.id >= s.commit_idx.id
            &&& s1.commit_idx.id <= full.len()
            &&& s1.commit_idx.id > s.commit_idx.id ==> s.is_leader() && s1.is_quorum_index(
                s1.commit_idx.id as int,
            ) && full[s1.commit_idx.id - 1].term == s.current_term
        }),
{
    let s1 = s.advance_commit();
    if s1.commit_idx.id > s.commit_idx.id {
        let c = choose|c: int| s.is_quorum_index(c);
        assert(s.log.term_at(c) == Some(s.current_term));
        assert(s1.commit_idx.id == c);
        if c != s.log.prev_index {
            assert(s.log.has(c));
            assert(full[c - 1] == s.log.entries[c - 1 - s.log.prev_index]);
        }
        assert(s1.agree_count(c) == s.agree_count(c));
        assert(s1.agree_count(c + 1) == s.agree_count(c + 1));
    }
}

/// What an attempt to append does to a leader.
#[verifier::rlimit(50)]
pub proof fn lemma_append_summary(s: StateView, full: Seq<EntryView>, entry: EntryView, log2: LogView)
    requires
        shaped(s),
        ends(s.log, full),
        s.is_leader(),
        log2.wf(),
        s.append_step(entry, log2),
        entry.term == s.current_term,
    ensures
        ({
            let s1 = s.client_request(log2);
            let new = carried(full, log2);
            &&& s1 == (StateView { log: log2, commit_idx: s1.commit_idx, ..s })
            &&& ends(log2, new)
            &&& log2.last_taken == s.log.last_taken
            &&& new == full || (new == full.push(entry))
            &&& s1.commit_idx.id >= s.commit_idx.id
            &&& s1.commit_idx.id <= new.len()
            &&& s1.commit_idx.id > s.commit_idx.id ==> s1.is_quorum_index(s1.commit_idx.id as int)
                && new[s1.commit_idx.id - 1].term == s.current_term
        }),
{
    let grown = StateView { log: log2, ..s };
    lemma_ends_append(s.log, full, entry, log2);
    if log2.last_index() > s.log.last_index() {
        lemma_advance_summary(grown, carried(full, log2));
    }
}

/// What taking the lead does to a candidate.
#[verifier::rlimit(50)]
pub proof fn lemma_become_leader_summary(s: StateView, full: Seq<EntryView>, log2: LogView)
    requires
        shaped(s),
        ends(s.log, full),
        !s.is_leader(),
        log2.wf(),
        s.become_leader_step(log2),
    ensures
        ({
            let s1 = s.become_leader(log2);
            let new = carried(full, log2);
            &&& s1.is_leader() == s.wins_election()
            &&& !s.wins_election() ==> s1 == s && log2 == s.log
            &&& s1.log == log2
            &&& ends(log2, new)
            &&& log2.last_taken == s.log.last_taken
            &&& s1.current_term == s.current_term
            &&& s1.voted_for == s.voted_for
            &&& s1.peers == s.peers
            &&& s1.node_id == s.node_id
            &&& new == full || (new == full.push(noop_entry(s.current_term)))
            &&& s1.commit_idx.id >= s.commit_idx.id
            &&& s1.commit_idx.id <= new.len()
            &&& s1.is_leader() ==> s1.leadership->followers.dom() == s.peers && forall|p: u64| #[trigger]
                s1.leadership->followers.contains_key(p) ==> s1.leadership->followers[p].match_idx.id
                    == 0
            &&& s1.commit_idx.id > s.commit_idx.id ==> s1.is_leader() && s1.is_quorum_index(
                s1.commit_idx.id as int,
            ) && new[s1.commit_idx.id - 1].term == s.current_term
        }),
{
    if s.wins_election() {
        let leader = StateView {
            leadership: LeadershipView::Leader {
                followers: Map::new(
                    |p: u64| s.peers.contains(p),
                    |p: u64| fresh_replication(s.log.last_index()),
                ),
                heartbeat_ticks: 0,
            },
            ..s
        };
        assert(leader.leadership->followers.dom() =~= s.peers);
        lemma_append_summary(leader, full, noop_entry(s.current_term), log2);
    } else {
        lemma_ends_same(s.log, full);
    }
}

/// Whether the log holds the entry at position `k` of a request with its term, the entries
/// of the request lying after the first `p` entries of the log.
pub open spec fn matched_at(log: Seq<EntryView>, p: int, entries: Seq<EntryView>, k: int) -> bool {
    p + k < log.len() && log[p + k].term == entries[k].term
}

/// What taking in the entries of a request does to the whole log of a follower whose log
/// cuts where it is asked to: the log keeps its entries up to the first that the request
/// has otherwise, which lies beyond what is committed, and goes on from there with the
/// entries of the request.
#[verifier::rlimit(50)]
pub proof fn lemma_walk_full(
    log: LogView,
    full: Seq<EntryView>,
    commit: int,
    p: int,
    entries: Seq<EntryView>,
    after: LogView,
)
    requires
        ends(log, full),
        log.last_taken <= commit <= log.last_index(),
        after.wf(),
        0 <= p <= log.last_index(),
        walk_ok(log, p, entries, after),
        cut_where_asked(log, p, entries, after),
        !conflicts_with_committed(log, commit, p, entries),
    ensures
        ({
            let a = matching_prefix(log, p, entries, 0);
            let j = processed(log, p, entries, after);
            let new = carried(full, after);
            &&& 0 <= a <= j <= entries.len()
            &&& forall|k: int| 0 <= k < a ==> #[trigger] matched_at(full, p, entries, k)
            &&& p + a <= full.len()
            &&& a < entries.len() && p + a < full.len() ==> full[p + a].term != entries[a].term
                && p + a >= commit
            &&& a == entries.len() ==> after == log && new == full
            &&& a < entries.len() ==> new == full.take(p + a) + entries.subrange(a, j)
            &&& p + j <= new.len()
            &&& a < entries.len() ==> new.len() == p + j
            &&& after.last_taken == log.last_taken
            &&& ends(after, new)
        }),
{
    let a = matching_prefix(log, p, entries, 0);
    let j = processed(log, p, entries, after);
    let new = carried(full, after);
    lemma_matching_prefix_matches(log, p, entries, 0);
    assert forall|k: int| 0 <= k < a implies #[trigger] matched_at(full, p, entries, k) by {
        assert(holds(log, p, entries, k));
        let i = p + 1 + k;
        assert(log.term_at(i) is Some);
        if i != log.prev_index {
            assert(log.has(i));
            assert(full[i - 1] == log.entries[i - 1 - log.prev_index]);
        }
    }
    if a > 0 {
        assert(holds(log, p, entries, a - 1));
    }
    assert(stops_at(log, p, entries, a));
    if a == entries.len() {
        lemma_ends_same(log, full);
    } else {
        let i = p + 1 + a;
        if i <= log.last_index() {
            assert(log.term_at(i) != Some(entries[a].term));
            assert(i > commit) by {
                if i <= commit {
                    assert(conflicts_with_committed(log, commit, p, entries));
                }
            }
            assert(log.has(i));
            assert(full[i - 1] == log.entries[i - 1 - log.prev_index]);
            let base = log.truncate(i);
            assert(appended_run(base, entries, a, after));
            let n = after.prev_index - base.prev_index;
            let run = entries.subrange(a, j);
            assert(base.entries =~= log.entries.take(i - log.prev_index - 1));
            assert(after.entries == base.entries.skip(n) + run);
            assert(new =~= full.take(p + a) + run) by {
                assert forall|x: int| 0 <= x < new.len() implies new[x] == (full.take(p + a)
                    + run)[x] by {
                    if after.prev_index <= x < p + a {
                        assert(full[x] == log.entries[x - log.prev_index]);
                    }
                }
            }
            assert forall|x: int| after.prev_index <= x < new.len() implies #[trigger] new[x]
                == after.entries[x - after.prev_index] by {}
            if n > 0 {
                assert(full[after.prev_index - 1] == log.entries[n - 1]);
            }
            assert(after != log);
        } else {
            assert(appended_run(log, entries, a, after));
            let n = after.prev_index - log.prev_index;
            let run = entries.subrange(a, a + after.last_index() - log.last_index());
            assert(after.entries == log.entries.skip(n) + run);
            assert(full.take(p + a) =~= full);
            assert(new =~= full + run) by {
                assert forall|x: int| 0 <= x < new.len() implies new[x] == (full + run)[x] by {
                    if after.prev_index <= x < full.len() {
                        assert(full[x] == log.entries[x - log.prev_index]);
                    }
                }
            }
            assert forall|x: int| after.prev_index <= x < new.len() implies #[trigger] new[x]
                == after.entries[x - after.prev_index] by {}
            if n > 0 {
                assert(full[after.prev_index - 1] == log.entries[n - 1]);
            }
            if after == log {
                assert(run =~= Seq::<EntryView>::empty());
                assert(entries.subrange(a, a) =~= Seq::<EntryView>::empty());
            }
        }
    }
}

/// What an event does to what a leader knows of its peers: what it knew stays, a new
/// leader knows nothing, and an answer that says how far a peer has stored the log is
/// taken at its word.
pub open spec fn match_summary<L: Log>(s: StateView, event: Event, log2: LogView) -> bool {
    let s1 = after::<L>(s, event, log2);
    s1.is_leader() ==> s1.leadership->followers.dom() == s1.peers && forall|p: u64| #[trigger]
        s1.leadership->followers.contains_key(p) ==> {
            let m = s1.leadership->followers[p].match_idx;
            ||| m.id == 0
            ||| s.is_leader() && s1.current_term == s.current_term
                && s.leadership->followers.contains_key(p) && s.leadership->followers[p].match_idx
                == m
            ||| match event {
                Event::Receive { sent, .. } => sent.from == p && sent.message.term
                    == s1.current_term && match sent.message.rpc {
                    Some(RpcView::AppendResponse(response)) => response.success
                        && response.match_idx == m,
                    _ => false,
                },
                _ => false,
            }
        }
}

/// What taking in a request to append does to a follower and what it answers.
pub open spec fn follower_summary<L: Log>(
    s: StateView,
    sent: Sent,
    ticks: u32,
    log2: LogView,
    full: Seq<EntryView>,
) -> bool {
    let event = Event::Receive { sent, ticks };
    let s1 = after::<L>(s, event, log2);
    let request = sent.message.rpc->0->AppendRequest_0;
    s.takes_entries(sent.message, sent.from) ==> {
        &&& !s1.is_leader()
        &&& !(s1.leadership is Candidate)
        &&& s1.current_term == sent.message.term
        &&& s1.log == log2
        &&& request.prev_log_idx.id <= full.len()
        &&& request.prev_log_idx.id >= 1 ==> full[request.prev_log_idx.id - 1].term
            == request.prev_log_term
        &&& match output::<L>(s, event, log2) {
            Some(m) => m.message.term == s1.current_term && match m.message.rpc {
                Some(RpcView::AppendResponse(response)) => response.success
                    ==> response.match_idx.id == reached(s, sent, log2),
                _ => false,
            },
            None => false,
        }
    }
}

/// Taking in the entries of a request to append does to the log what the summaries say.
#[verifier::rlimit(50)]
pub proof fn lemma_receive_takes<L: Log>(
    s: StateView,
    sent: Sent,
    ticks: u32,
    log2: LogView,
    full: Seq<EntryView>,
)
    requires
        shaped(s),
        ends(s.log, full),
        s.accepts(sent.message, sent.from),
        log_step::<L>(s, Event::Receive { sent, ticks }, log2),
        s.takes_entries(sent.message, sent.from),
    ensures
        log_summary::<L>(s, Event::Receive { sent, ticks }, log2, full),
        match_summary::<L>(s, Event::Receive { sent, ticks }, log2),
        follower_summary::<L>(s, sent, ticks, log2, full),
        shaped(after::<L>(s, Event::Receive { sent, ticks }, log2)),
{
    let event = Event::Receive { sent, ticks };
    let s1 = after::<L>(s, event, log2);
    let current = s.update_term(sent.message.term, ticks);
    let handled = current.handle::<L>(sent.message, sent.from, ticks, log2);
    let led = handled.become_leader(log2);
    assert(s1 == led.advance_commit());
    assert(current.log == s.log && current.commit_idx == s.commit_idx);
    let request = sent.message.rpc->0->AppendRequest_0;
    let p = request.prev_log_idx.id as int;
    assert(p == 0 || s.log.term_at(p) == Some(request.prev_log_term));
    assert(p <= s.log.last_index());
    lemma_walk_full(s.log, full, s.commit_idx.id as int, p, request.entries, log2);
    assert(!(handled.leadership is Candidate));
    assert(!handled.is_leader());
    assert(led == handled);
    assert(s1 == handled);
    assert(s1.log == log2);
    if p >= 1 {
        if p != s.log.prev_index {
            assert(s.log.has(p));
            assert(full[p - 1] == s.log.entries[p - 1 - s.log.prev_index]);
        }
    }
}

/// Receiving a message whose entries are not taken in does to the log what the summaries
/// say.
#[verifier::rlimit(50)]
pub proof fn lemma_receive_other<L: Log>(
    s: StateView,
    sent: Sent,
    ticks: u32,
    log2: LogView,
    full: Seq<EntryView>,
)
    requires
        shaped(s),
        ends(s.log, full),
        s.accepts(sent.message, sent.from),
        log_step::<L>(s, Event::Receive { sent, ticks }, log2),
        !s.takes_entries(sent.message, sent.from),
    ensures
        log_summary::<L>(s, Event::Receive { sent, ticks }, log2, full),
        match_summary::<L>(s, Event::Receive { sent, ticks }, log2),
        follower_summary::<L>(s, sent, ticks, log2, full),
        shaped(after::<L>(s, Event::Receive { sent, ticks }, log2)),
{
    let event = Event::Receive { sent, ticks };
    let s1 = after::<L>(s, event, log2);
    if s.peers.contains(sent.from) {
        let current = s.update_term(sent.message.term, ticks);
        let handled = current.handle::<L>(sent.message, sent.from, ticks, log2);
        let led = handled.become_leader(log2);
        assert(s1 == led.advance_commit());
        assert(current.log == s.log && current.commit_idx == s.commit_idx);
        assert(handled.log == s.log);
        assert(handled.commit_idx == s.commit_idx);
        assert(shaped(handled)) by {
            match handled.leadership {
                LeadershipView::Leader { followers, .. } => {
                    assert(current.is_leader());
                    assert(followers.dom() =~= s.peers);
                },
                _ => {},
            }
        }
        if handled.is_leader() {
            assert(led == handled);
            lemma_ends_same(s.log, full);
            lemma_advance_summary(handled, full);
        } else {
            lemma_become_leader_summary(handled, full, log2);
            lemma_advance_summary(led, carried(full, log2));
        }
    } else {
        lemma_ends_same(s.log, full);
    }
}

/// Receiving a message does to the log what the summaries say.
pub proof fn lemma_log_summary_receive<L: Log>(
    s: StateView,
    sent: Sent,
    ticks: u32,
    log2: LogView,
    full: Seq<EntryView>,
)
    requires
        shaped(s),
        ends(s.log, full),
        s.accepts(sent.message, sent.from),
        log_step::<L>(s, Event::Receive { sent, ticks }, log2),
    ensures
        log_summary::<L>(s, Event::Receive { sent, ticks }, log2, full),
        match_summary::<L>(s, Event::Receive { sent, ticks }, log2),
        follower_summary::<L>(s, sent, ticks, log2, full),
        shaped(after::<L>(s, Event::Receive { sent, ticks }, log2)),
{
    if s.takes_entries(sent.message, sent.from) {
        lemma_receive_takes::<L>(s, sent, ticks, log2, full);
    } else {
        lemma_receive_other::<L>(s, sent, ticks, log2, full);
    }
}

/// An election timeout does to the log what the summaries say.
#[verifier::rlimit(50)]
pub proof fn lemma_log_summary_timeout<L: Log>(
    s: StateView,
    event: Event,
    ticks: u32,
    log2: LogView,
    full: Seq<EntryView>,
)
    requires
        shaped(s),
        ends(s.log, full),
        s.can_time_out(),
        event == (Event::Timeout { ticks }) || (event == (Event::Tick { ticks })
            && s.election_due()),
        log_step::<L>(s, event, log2),
    ensures
        log_summary::<L>(s, event, log2, full),
        match_summary::<L>(s, event, log2),
        shaped(after::<L>(s, event, log2)),
        after::<L>(s, event, log2) == s.timeout(ticks, log2),
        !s.is_leader() ==> after::<L>(s, event, log2).current_term.id == s.current_term.id + 1
            && after::<L>(s, event, log2).voted_for == Some(s.node_id),
        s.is_leader() ==> after::<L>(s, event, log2) == s && log2 == s.log,
{
    let s1 = s.timeout(ticks, log2);
    if !s.is_leader() {
        let candidate = StateView {
            current_term: TermId { id: (s.current_term.id + 1) as u64 },
            voted_for: Some(s.node_id),
            leadership: LeadershipView::Candidate {
                votes_granted: Set::empty().insert(s.node_id),
                election_ticks: ticks,
            },
            ..s
        };
        lemma_become_leader_summary(candidate, full, log2);
        let led = candidate.become_leader(log2);
        lemma_advance_summary(led, carried(full, log2));
        assert(s1 == led.advance_commit());
    } else {
        lemma_ends_same(s.log, full);
    }
}

/// A request of a client does to the log of a leader what the summaries say.
pub proof fn lemma_log_summary_client<L: Log>(
    s: StateView,
    data: Seq<u8>,
    log2: LogView,
    full: Seq<EntryView>,
)
    requires
        shaped(s),
        ends(s.log, full),
        s.is_leader(),
        log_step::<L>(s, Event::ClientRequest { data }, log2),
    ensures
        log_summary::<L>(s, Event::ClientRequest { data }, log2, full),
        match_summary::<L>(s, Event::ClientRequest { data }, log2),
        shaped(after::<L>(s, Event::ClientRequest { data }, log2)),
{
    lemma_append_summary(s, full, EntryView { term: s.current_term, data }, log2);
}

/// Every event does to a member what the summaries say.
#[verifier::rlimit(50)]
pub proof fn lemma_local<L: Log>(r: Replicated, next: Replicated, member: u64, event: Event, log2: LogView)
    requires
        r.inv(),
        r.step::<L>(next, member, event, log2),
    ensures
        next.group.inv(),
        summary::<L>(r.group.nodes[member], event, log2),
        log_summary::<L>(r.group.nodes[member], event, log2, r.log(member)),
        match_summary::<L>(r.group.nodes[member], event, log2),
        shaped(r.group.nodes[member]),
        shaped(next.group.nodes[member]),
        ends(r.group.nodes[member].log, r.log(member)),
        ends(next.group.nodes[member].log, next.log(member)),
        next.log(member) == carried(r.log(member), next.group.nodes[member].log),
        next.full.contains_key(member),
        next.group.nodes[member] == after::<L>(r.group.nodes[member], event, log2),
        forall|n: u64| n != member ==> #[trigger] next.group.nodes[n] == r.group.nodes[n],
        forall|n: u64|
            n != member && r.full.contains_key(n) ==> next.full.contains_key(n)
                && #[trigger] next.full[n] == r.full[n],
        match event {
            Event::Receive { sent, ticks } => follower_summary::<L>(
                r.group.nodes[member],
                sent,
                ticks,
                log2,
                r.log(member),
            ),
            _ => true,
        },
{
    let s = r.group.nodes[member];
    let full = r.log(member);
    lemma_step_inv::<L>(r.group, next.group, member, event, log2);
    lemma_summary::<L>(r.group, member, event, log2);
    assert(r.member_safe(member));
    assert(r.group.member_ok(member));
    assert(shaped(s)) by {
        assert(s.peers == r.group.members.remove(member));
    }
    assert(next.group.nodes[member] == after::<L>(s, event, log2));
    assert forall|n: u64| n != member implies #[trigger] next.group.nodes[n] == r.group.nodes[n] by {}
    match event {
        Event::Receive { sent, ticks } => {
            lemma_log_summary_receive::<L>(s, sent, ticks, log2, full);
        },
        Event::Timeout { ticks } => {
            lemma_log_summary_timeout::<L>(s, event, ticks, log2, full);
        },
        Event::Tick { ticks } => {
            if s.election_due() {
                lemma_log_summary_timeout::<L>(s, event, ticks, log2, full);
            } else {
                lemma_log_summary_quiet::<L>(s, event, log2, full);
            }
        },
        Event::ClientRequest { data } => {
            if s.is_leader() {
                lemma_log_summary_client::<L>(s, data, log2, full);
            } else {
                lemma_log_summary_quiet::<L>(s, event, log2, full);
            }
        },
        _ => {
            lemma_log_summary_quiet::<L>(s, event, log2, full);
        },
    }
}

/// Whether the log `new` goes on from the log `old` by entries of `term`.
pub open spec fn extends(new: Seq<EntryView>, old: Seq<EntryView>, term: u64) -> bool {
    &&& agree(new, old, old.len() as int)
    &&& forall|j: int| old.len() <= j < new.len() ==> (#[trigger] new[j]).term.id == term
}

/// Whether the record of `next` holds all that the record of `r` holds: nothing is taken
/// off the record, and the logs of the leaders only go on.
pub open spec fn grows(r: Replicated, next: Replicated) -> bool {
    &&& next.group.members == r.group.members
    &&& forall|t: u64| #[trigger]
        r.leader_log.contains_key(t) ==> next.leader_log.contains_key(t) && extends(
            next.leader_log[t],
            r.leader_log[t],
            t,
        )
    &&& forall|t: u64, c: u64| #[trigger]
        r.cand_log.contains_key((t, c)) ==> next.cand_log.contains_key((t, c))
            && next.cand_log[(t, c)] == r.cand_log[(t, c)]
    &&& forall|v: u64, t: u64| #[trigger]
        r.stored.contains_key((v, t)) ==> next.stored.contains_key((v, t)) && next.stored[(v, t)]
            >= r.stored[(v, t)]
    &&& r.timely.subset_of(next.timely)
    &&& r.committed.subset_of(next.committed)
    &&& r.group.elected.subset_of(next.group.elected)
    &&& r.group.sent.subset_of(next.group.sent)
    &&& forall|term: u64, voter: u64, candidate: u64| #[trigger]
        r.group.voted(term, voter, candidate) ==> next.group.voted(term, voter, candidate)
}

/// A step takes nothing off the record.
#[verifier::rlimit(50)]
pub proof fn lemma_grows<L: Log>(r: Replicated, next: Replicated, member: u64, event: Event, log2: LogView)
    requires
        r.inv(),
        r.step::<L>(next, member, event, log2),
    ensures
        grows(r, next),
        next.group.nodes[member].is_leader() && !r.leader_log.contains_key(
            next.group.nodes[member].current_term.id,
        ) ==> !r.group.nodes[member].is_leader() || r.group.nodes[member].current_term
            != next.group.nodes[member].current_term,
{
    lemma_local::<L>(r, next, member, event, log2);
    lemma_votes_stay::<L>(r.group, next.group, member, event, log2);
    let s = r.group.nodes[member];
    let s1 = next.group.nodes[member];
    let t1 = s1.current_term.id;
    assert(r.member_safe(member));
    assert forall|t: u64| #[trigger] r.leader_log.contains_key(t) implies next.leader_log.contains_key(
        t,
    ) && extends(next.leader_log[t], r.leader_log[t], t) by {
        if s1.is_leader() && t == t1 {
            assert(r.leader_safe(t));
            let c = choose|c: u64| r.leads(t, c);
            assert(next.group.elected.contains((t, c)));
            assert(next.group.elected.contains((t, member)));
            law_one_leader_per_term(next.group, t, c, member);
            assert(r.group.elected.contains((t, member)));
            assert(s.is_leader() && s.current_term.id == t);
            assert(r.leader_log[t] == r.log(member));
        }
    }
    assert forall|t: u64, c: u64| #[trigger] r.cand_log.contains_key((t, c)) implies next.cand_log.contains_key(
        (t, c),
    ) && next.cand_log[(t, c)] == r.cand_log[(t, c)] by {}
    assert forall|v: u64, t: u64| #[trigger] r.stored.contains_key((v, t)) implies next.stored.contains_key(
        (v, t),
    ) && next.stored[(v, t)] >= r.stored[(v, t)] by {
        if v == member && t == t1 && s1.is_leader() {
            assert(r.stored_safe(v, t));
            assert(r.leader_safe(t));
            let c = choose|c: u64| r.leads(t, c);
            assert(next.group.elected.contains((t, c)));
            assert(next.group.elected.contains((t, member)));
            law_one_leader_per_term(next.group, t, c, member);
            assert(s.is_leader() && s.current_term.id == t);
        }
    }
}

/// What the record says of logs stays true as the record grows.
#[verifier::rlimit(50)]
pub proof fn lemma_stays(r: Replicated, next: Replicated)
    requires
        r.inv(),
        grows(r, next),
    ensures
        forall|log: Seq<EntryView>, t: u64, i: int| #[trigger]
            r.covers(log, t, i) ==> next.covers(log, t, i),
        forall|log: Seq<EntryView>| #[trigger]
            r.matches_leaders(log) ==> next.matches_leaders(log),
        forall|t: u64, i: int| #[trigger] r.own(t, i) ==> next.own(t, i),
        forall|t: u64, i: int| #[trigger]
            next.own(t, i) && r.leader_log.contains_key(t) && i <= r.leader_log[t].len() ==> r.own(
                t,
                i,
            ),
        forall|t: u64, i: int, lo: int, hi: int| #[trigger]
            r.lost_between(t, i, lo, hi) && r.own(t, i) && t <= lo ==> next.lost_between(
                t,
                i,
                lo,
                hi,
            ),
        forall|log: Seq<EntryView>, k: int| #[trigger] r.chosen(log, k) ==> next.chosen(log, k),
        forall|v: u64, t: u64, i: int| #[trigger]
            r.has_stored(v, t, i) ==> next.has_stored(v, t, i),
        forall|t: u64, i: int| #[trigger] r.stored_by_quorum(t, i) ==> next.stored_by_quorum(t, i),
        forall|t: u64, v: u64, c: u64| #[trigger]
            r.voted_timely(t, v, c) ==> next.voted_timely(t, v, c),
        forall|t: u64, c: u64| #[trigger] r.elected_timely(t, c) ==> next.elected_timely(t, c),
{
    assert forall|log: Seq<EntryView>, t: u64, i: int| #[trigger] r.covers(log, t, i) implies next.covers(
        log,
        t,
        i,
    ) by {
        assert(extends(next.leader_log[t], r.leader_log[t], t));
    }
    assert forall|log: Seq<EntryView>| #[trigger] r.matches_leaders(log) implies next.matches_leaders(
        log,
    ) by {
        assert forall|i: int| 1 <= i <= log.len() implies next.covers(
            log,
            (#[trigger] log[i - 1]).term.id,
            i,
        ) by {
            assert(r.covers(log, log[i - 1].term.id, i));
        }
    }
    assert forall|t: u64, i: int| #[trigger] r.own(t, i) implies next.own(t, i) by {
        assert(extends(next.leader_log[t], r.leader_log[t], t));
    }
    assert forall|t: u64, i: int| #[trigger]
        next.own(t, i) && r.leader_log.contains_key(t) && i <= r.leader_log[t].len() implies r.own(
        t,
        i,
    ) by {
        assert(extends(next.leader_log[t], r.leader_log[t], t));
    }
    assert forall|t: u64, i: int, lo: int, hi: int| #[trigger]
        r.lost_between(t, i, lo, hi) && r.own(t, i) && t <= lo implies next.lost_between(
        t,
        i,
        lo,
        hi,
    ) by {
        let w = choose|w: u64|
            lo < w <= hi && #[trigger] r.leader_log.contains_key(w) && !agree(
                r.leader_log[w],
                r.leader_log[t],
                i,
            );
        assert(extends(next.leader_log[w], r.leader_log[w], w));
        assert(extends(next.leader_log[t], r.leader_log[t], t));
        assert(r.leader_safe(t));
        if agree(next.leader_log[w], next.leader_log[t], i) {
            if i <= r.leader_log[w].len() {
                assert forall|j: int| 0 <= j < i implies #[trigger] r.leader_log[w][j]
                    == r.leader_log[t][j] by {
                    assert(next.leader_log[w][j] == next.leader_log[t][j]);
                }
            } else {
                let j0 = r.leader_log[w].len() as int;
                assert(next.leader_log[w][j0] == next.leader_log[t][j0]);
                assert(next.leader_log[w][j0].term.id == w);
                assert(r.leader_log[t][j0].term.id <= t);
            }
        }
        assert(next.leader_log.contains_key(w));
    }
    assert forall|log: Seq<EntryView>, k: int| #[trigger] r.chosen(log, k) implies next.chosen(
        log,
        k,
    ) by {
        if k != 0 {
            let (t, c) = choose|t: u64, c: int| #[trigger]
                r.committed.contains((t, c)) && k <= c && r.covers(log, t, k);
            assert(next.committed.contains((t, c)));
            assert(next.covers(log, t, k));
        }
    }
    assert forall|t: u64, i: int| #[trigger] r.stored_by_quorum(t, i) implies next.stored_by_quorum(
        t,
        i,
    ) by {
        let quorum = choose|quorum: Set<u64>|
            r.is_quorum(quorum) && forall|v: u64|
                quorum.contains(v) ==> #[trigger] r.has_stored(v, t, i);
        assert forall|v: u64| quorum.contains(v) implies #[trigger] next.has_stored(v, t, i) by {
            assert(r.has_stored(v, t, i));
        }
        assert(next.is_quorum(quorum));
    }
    assert forall|t: u64, c: u64| #[trigger] r.elected_timely(t, c) implies next.elected_timely(
        t,
        c,
    ) by {
        let quorum = choose|quorum: Set<u64>|
            r.is_quorum(quorum) && forall|v: u64|
                quorum.contains(v) ==> #[trigger] r.voted_timely(t, v, c);
        assert forall|v: u64| quorum.contains(v) implies #[trigger] next.voted_timely(t, v, c) by {
            assert(r.voted_timely(t, v, c));
        }
        assert(next.is_quorum(quorum));
    }
}

/// Two logs that are true to the leaders and hold an entry of the same term at an index
/// hold the same entries up to that index.
pub proof fn lemma_prefix_agrees(r: Replicated, a: Seq<EntryView>, b: Seq<EntryView>, q: int)
    requires
        r.matches_leaders(a),
        r.matches_leaders(b),
        0 <= q <= a.len(),
        q <= b.len(),
        q >= 1 ==> a[q - 1].term == b[q - 1].term,
    ensures
        agree(a, b, q),
{
    if q >= 1 {
        let term = a[q - 1].term.id;
        assert(r.covers(a, term, q));
        assert(r.covers(b, b[q - 1].term.id, q));
        assert forall|j: int| 0 <= j < q implies #[trigger] a[j] == b[j] by {
            assert(a[j] == r.leader_log[term][j]);
            assert(b[j] == r.leader_log[term][j]);
        }
    }
}

/// A log that holds the first entries of a log that is in the order of the terms, of no
/// term after a given one, and true to the leaders, and nothing else, is so itself.
pub proof fn lemma_prefix_inherits(r: Replicated, log: Seq<EntryView>, of: Seq<EntryView>, term: int)
    requires
        agree(log, of, log.len() as int),
        sorted(of),
        bounded(of, term),
        r.matches_leaders(of),
    ensures
        sorted(log),
        bounded(log, term),
        r.matches_leaders(log),
{
    assert forall|a: int, b: int| 0 <= a <= b < log.len() implies (#[trigger] log[a]).term.id <= (
    #[trigger] log[b]).term.id by {
        assert(log[a] == of[a] && log[b] == of[b]);
    }
    assert forall|j: int| 0 <= j < log.len() implies (#[trigger] log[j]).term.id <= term by {
        assert(log[j] == of[j]);
    }
    assert forall|i: int| 1 <= i <= log.len() implies r.covers(
        log,
        (#[trigger] log[i - 1]).term.id,
        i,
    ) by {
        assert(log[i - 1] == of[i - 1]);
        let t = of[i - 1].term.id;
        assert(r.covers(of, t, i));
        assert forall|j: int| 0 <= j < i implies #[trigger] log[j] == r.leader_log[t][j] by {
            assert(log[j] == of[j]);
            assert(of[j] == r.leader_log[t][j]);
        }
    }
}

/// What a follower holds once it has taken in the entries of a request to append: the
/// log of the leader as far as the entries dealt with reach, and what it had committed.
#[verifier::rlimit(50)]
pub proof fn lemma_follower_log<L: Log>(
    r: Replicated,
    next: Replicated,
    member: u64,
    sent: Sent,
    ticks: u32,
    log2: LogView,
)
    requires
        r.inv(),
        r.step::<L>(next, member, Event::Receive { sent, ticks }, log2),
        r.group.nodes[member].takes_entries(sent.message, sent.from),
    ensures
        r.leader_log.contains_key(sent.message.term.id),
        0 <= reached(r.group.nodes[member], sent, log2) <= next.log(member).len(),
        reached(r.group.nodes[member], sent, log2) <= r.leader_log[sent.message.term.id].len(),
        agree(
            next.log(member),
            r.leader_log[sent.message.term.id],
            reached(r.group.nodes[member], sent, log2),
        ),
        next.log(member) == r.log(member) || next.log(member).len() == reached(
            r.group.nodes[member],
            sent,
            log2,
        ),
        agree(next.log(member), r.log(member), r.group.nodes[member].commit_idx.id as int),
        forall|i: int|
            0 <= i <= r.log(member).len() && agree(
                r.log(member),
                r.leader_log[sent.message.term.id],
                i,
            ) ==> #[trigger] agree(next.log(member), r.log(member), i),
        forall|i: int|
            #![trigger agree(next.log(member), r.log(member), i)]
            0 <= i <= r.log(member).len() && !agree(next.log(member), r.log(member), i)
                ==> exists|x: int|
                0 <= x < i && x < r.leader_log[sent.message.term.id].len() && r.log(
                    member,
                )[x].term != r.leader_log[sent.message.term.id][x].term,
{
    let event = Event::Receive { sent, ticks };
    lemma_local::<L>(r, next, member, event, log2);
    let s = r.group.nodes[member];
    let request = sent.message.rpc->0->AppendRequest_0;
    let p = request.prev_log_idx.id as int;
    let entries = request.entries;
    let tm = sent.message.term.id;
    let old = r.log(member);
    let new = next.log(member);
    assert(r.group.sent.contains(sent));
    assert(r.sent_safe(sent));
    assert(r.member_safe(member));
    assert(r.leader_safe(tm));
    assert(after::<L>(s, event, log2).log == log2);
    let lead = r.leader_log[tm];
    lemma_walk_full(s.log, old, s.commit_idx.id as int, p, entries, log2);
    let a = matching_prefix(s.log, p, entries, 0);
    let j = processed(s.log, p, entries, log2);
    let q = p + a;
    assert(q >= 1 ==> old[q - 1].term == lead[q - 1].term) by {
        if a >= 1 {
            assert(matched_at(old, p, entries, a - 1));
            assert(entries[a - 1] == lead[p + (a - 1)]);
        }
    }
    lemma_prefix_agrees(r, old, lead, q);
    if a == entries.len() {
        assert(new == old);
    } else {
        assert(new == old.take(q) + entries.subrange(a, j));
        assert forall|x: int| 0 <= x < p + j implies #[trigger] new[x] == lead[x] by {
            if x < q {
                assert(new[x] == old[x]);
            } else {
                assert(new[x] == entries.subrange(a, j)[x - q]);
                assert(entries[x - p] == lead[p + (x - p)]);
            }
        }
        if q < old.len() {
            assert(old[q].term != entries[a].term);
            assert(entries[a] == lead[p + a]);
        }
    }
    assert forall|i: int| 0 <= i <= old.len() && agree(old, lead, i) implies #[trigger] agree(
        new,
        old,
        i,
    ) by {
        if a < entries.len() && i > q {
            assert(old[q] == lead[q]);
            assert(entries[a] == lead[p + a]);
        }
    }
    assert forall|i: int|
        #![trigger agree(new, old, i)]
        0 <= i <= old.len() && !agree(new, old, i) implies exists|x: int|
        0 <= x < i && x < lead.len() && old[x].term != lead[x].term by {
        if a < entries.len() {
            if i <= q {
                assert(agree(new, old, i));
            } else {
                assert(entries[a] == lead[p + a]);
                assert(old[q].term != lead[q].term);
            }
        }
    }
}

/// The log of the member that takes a step is, after the step, in the order of the terms,
/// of no term after the member's, and true to the leaders.
#[verifier::rlimit(50)]
pub proof fn lemma_moving_log<L: Log>(
    r: Replicated,
    next: Replicated,
    member: u64,
    event: Event,
    log2: LogView,
)
    requires
        r.inv(),
        r.step::<L>(next, member, event, log2),
    ensures
        sorted(next.log(member)),
        bounded(next.log(member), next.group.nodes[member].current_term.id as int),
        next.matches_leaders(next.log(member)),
        !next.leader_log.contains_key(next.group.nodes[member].current_term.id) ==> bounded(
            next.log(member),
            next.group.nodes[member].current_term.id - 1,
        ),
        agree(next.log(member), r.log(member), r.group.nodes[member].commit_idx.id as int),
{
    lemma_local::<L>(r, next, member, event, log2);
    lemma_grows::<L>(r, next, member, event, log2);
    lemma_stays(r, next);
    let s = r.group.nodes[member];
    let s1 = next.group.nodes[member];
    let old = r.log(member);
    let new = next.log(member);
    let t1 = s1.current_term.id;
    assert(r.member_safe(member));
    assert(r.matches_leaders(old));
    if new == old {
        assert(next.matches_leaders(new));
        if !next.leader_log.contains_key(t1) && s.current_term.id == t1 {
            assert(!r.leader_log.contains_key(t1));
        }
    } else if s1.is_leader() {
        let e = new.last();
        assert(new == old.push(e));
        assert(next.leader_log[t1] == new);
        assert forall|a: int, b: int| 0 <= a <= b < new.len() implies (#[trigger] new[a]).term.id
            <= (#[trigger] new[b]).term.id by {
            if b < old.len() {
                assert(old[a].term.id <= old[b].term.id);
            } else if a < old.len() {
                assert(old[a].term.id <= s.current_term.id);
            }
        }
        assert forall|j: int| 0 <= j < new.len() implies (#[trigger] new[j]).term.id <= t1 by {
            if j < old.len() {
                assert(old[j].term.id <= s.current_term.id);
            }
        }
        assert forall|i: int| 1 <= i <= new.len() implies next.covers(
            new,
            (#[trigger] new[i - 1]).term.id,
            i,
        ) by {
            if i <= old.len() {
                let t = old[i - 1].term.id;
                assert(r.covers(old, t, i));
                assert(next.covers(old, t, i));
                assert forall|j: int| 0 <= j < i implies #[trigger] new[j]
                    == next.leader_log[t][j] by {
                    assert(old[j] == next.leader_log[t][j]);
                }
            }
        }
    } else {
        let sent = event->Receive_sent;
        let ticks = event->Receive_ticks;
        assert(s.takes_entries(sent.message, sent.from));
        lemma_follower_log::<L>(r, next, member, sent, ticks, log2);
        let tm = sent.message.term.id;
        assert(t1 == tm);
        assert(r.leader_safe(tm));
        assert(new.len() == reached(s, sent, log2));
        lemma_prefix_inherits(r, new, r.leader_log[tm], tm as int);
        assert(next.matches_leaders(new));
    }
}

/// What the member that takes a step has committed after the step is committed.
#[verifier::rlimit(50)]
pub proof fn lemma_moving_commit<L: Log>(
    r: Replicated,
    next: Replicated,
    member: u64,
    event: Event,
    log2: LogView,
)
    requires
        r.inv(),
        r.step::<L>(next, member, event, log2),
    ensures
        next.chosen(next.log(member), next.group.nodes[member].commit_idx.id as int),
{
    lemma_local::<L>(r, next, member, event, log2);
    lemma_grows::<L>(r, next, member, event, log2);
    lemma_stays(r, next);
    lemma_moving_log::<L>(r, next, member, event, log2);
    let s = r.group.nodes[member];
    let s1 = next.group.nodes[member];
    let old = r.log(member);
    let new = next.log(member);
    let t1 = s1.current_term.id;
    let c0 = s.commit_idx.id as int;
    let c1 = s1.commit_idx.id as int;
    assert(r.member_safe(member));
    if c1 == c0 {
        if c0 != 0 {
            let (t, c) = choose|t: u64, c: int| #[trigger]
                r.committed.contains((t, c)) && c0 <= c && r.covers(old, t, c0);
            assert(next.covers(old, t, c0));
            assert forall|j: int| 0 <= j < c0 implies #[trigger] new[j]
                == next.leader_log[t][j] by {
                assert(new[j] == old[j]);
                assert(old[j] == next.leader_log[t][j]);
            }
            assert(next.committed.contains((t, c)) && c1 <= c && next.covers(new, t, c1));
        }
    } else if s1.is_leader() {
        assert(next.committed.contains((t1, c1)));
        assert(next.leader_log[t1] == new);
        assert(next.covers(new, t1, c1));
    } else {
        let sent = event->Receive_sent;
        let ticks = event->Receive_ticks;
        lemma_follower_log::<L>(r, next, member, sent, ticks, log2);
        let tm = sent.message.term.id;
        let request = sent.message.rpc->0->AppendRequest_0;
        let lc = request.leader_commit.id as int;
        assert(r.sent_safe(sent));
        assert(r.chosen(r.leader_log[tm], lc));
        assert(lc >= c1 && c1 >= 1);
        let (t, c) = choose|t: u64, c: int| #[trigger]
            r.committed.contains((t, c)) && lc <= c && r.covers(r.leader_log[tm], t, lc);
        assert(next.covers(r.leader_log[tm], t, lc));
        assert forall|j: int| 0 <= j < c1 implies #[trigger] new[j] == next.leader_log[t][j] by {
            assert(new[j] == r.leader_log[tm][j]);
            assert(r.leader_log[tm][j] == next.leader_log[t][j]);
        }
        assert(next.committed.contains((t, c)) && c1 <= c && next.covers(new, t, c1));
    }
}

/// What the record says of the member that takes a step holds after the step.
#[verifier::rlimit(50)]
pub proof fn lemma_moving_member<L: Log>(
    r: Replicated,
    next: Replicated,
    member: u64,
    event: Event,
    log2: LogView,
)
    requires
        r.inv(),
        r.step::<L>(next, member, event, log2),
    ensures
        next.member_safe(member),
{
    lemma_local::<L>(r, next, member, event, log2);
    lemma_grows::<L>(r, next, member, event, log2);
    lemma_stays(r, next);
    lemma_moving_log::<L>(r, next, member, event, log2);
    lemma_moving_commit::<L>(r, next, member, event, log2);
    let s = r.group.nodes[member];
    let s1 = next.group.nodes[member];
    let old = r.log(member);
    let new = next.log(member);
    let t1 = s1.current_term.id;
    assert(r.member_safe(member));
    assert(r.group.member_ok(member));
    assert(next.group.member_ok(member));
    if s1.leadership is Candidate {
        assert(!s1.is_leader());
        if stands(s, event) {
            assert(new == old);
        } else {
            assert(s.leadership is Candidate && s.current_term == s1.current_term);
            assert(new == old);
        }
    }
    assert forall|t: u64| #[trigger] next.group.elected.contains((t, member)) implies t <= t1 && (t
        == t1 ==> s1.is_leader()) by {
        if r.group.elected.contains((t, member)) {
            assert(t <= s.current_term.id);
        }
    }
    assert forall|t: u64| #[trigger] next.cand_log.contains_key((t, member)) implies t <= t1 by {
        if r.cand_log.contains_key((t, member)) {
            assert(t <= s.current_term.id);
        }
    }
    match s1.leadership {
        LeadershipView::Leader { followers, .. } => {
            assert forall|p: u64| #[trigger] followers.contains_key(p) implies followers[p].match_idx.id
                == 0 || next.has_stored(p, t1, followers[p].match_idx.id as int) by {
                let m = followers[p].match_idx;
                if m.id != 0 {
                    if s.is_leader() && s1.current_term == s.current_term
                        && s.leadership->followers.contains_key(p)
                        && s.leadership->followers[p].match_idx == m {
                        assert(r.has_stored(p, t1, m.id as int));
                    } else {
                        let sent = event->Receive_sent;
                        assert(r.group.sent.contains(sent));
                        assert(r.sent_safe(sent));
                        assert(r.has_stored(p, t1, m.id as int));
                    }
                }
            }
            assert(next.has_stored(member, t1, new.len() as int));
        },
        _ => {},
    }
}

/// What the record says of a member that takes no step holds after the step of another.
#[verifier::rlimit(50)]
pub proof fn lemma_other_member<L: Log>(
    r: Replicated,
    next: Replicated,
    member: u64,
    event: Event,
    log2: LogView,
    n: u64,
)
    requires
        r.inv(),
        r.step::<L>(next, member, event, log2),
        r.group.members.contains(n),
        n != member,
    ensures
        next.member_safe(n),
{
    lemma_local::<L>(r, next, member, event, log2);
    lemma_grows::<L>(r, next, member, event, log2);
    lemma_stays(r, next);
    let s = r.group.nodes[n];
    let s1 = next.group.nodes[member];
    let mine = r.log(n);
    assert(next.group.nodes[n] == s);
    assert(r.member_safe(n));
    assert(next.full[n] == mine);
    if s.is_leader() {
        let t = s.current_term.id;
        if s1.is_leader() && s1.current_term.id == t {
            assert(next.group.member_ok(n));
            assert(next.group.elected.contains((t, n)));
            assert(next.group.elected.contains((t, member)));
            law_one_leader_per_term(next.group, t, n, member);
        }
        assert(next.leader_log[t] == r.leader_log[t]);
    }
    assert(next.chosen(mine, s.commit_idx.id as int));
    assert(next.matches_leaders(mine));
    match s.leadership {
        LeadershipView::Leader { followers, .. } => {
            assert forall|p: u64| #[trigger] followers.contains_key(p) implies followers[p].match_idx.id
                == 0 || next.has_stored(
                p,
                s.current_term.id,
                followers[p].match_idx.id as int,
            ) by {
                if followers[p].match_idx.id != 0 {
                    assert(r.has_stored(p, s.current_term.id, followers[p].match_idx.id as int));
                }
            }
            assert(r.has_stored(n, s.current_term.id, mine.len() as int));
        },
        _ => {},
    }
}

/// What the record says of the logs that candidates stood with holds after a step.
#[verifier::rlimit(50)]
pub proof fn lemma_candidates_safe<L: Log>(
    r: Replicated,
    next: Replicated,
    member: u64,
    event: Event,
    log2: LogView,
)
    requires
        r.inv(),
        r.step::<L>(next, member, event, log2),
    ensures
        forall|t: u64, c: u64| #[trigger]
            next.cand_log.contains_key((t, c)) ==> next.candidate_safe(t, c),
{
    lemma_local::<L>(r, next, member, event, log2);
    lemma_grows::<L>(r, next, member, event, log2);
    lemma_stays(r, next);
    let s = r.group.nodes[member];
    assert(r.member_safe(member));
    assert forall|t: u64, c: u64| #[trigger] next.cand_log.contains_key((t, c)) implies next.candidate_safe(
        t,
        c,
    ) by {
        if r.cand_log.contains_key((t, c)) {
            assert(r.candidate_safe(t, c));
            assert(next.cand_log[(t, c)] == r.cand_log[(t, c)]);
            assert(next.matches_leaders(r.cand_log[(t, c)]));
        } else {
            assert(stands(s, event));
            assert(next.cand_log[(t, c)] == r.log(member));
            assert(next.matches_leaders(r.log(member)));
        }
    }
}

/// What the record says of what the nodes have stored holds after a step.
#[verifier::rlimit(50)]
pub proof fn lemma_stored_safe<L: Log>(
    r: Replicated,
    next: Replicated,
    member: u64,
    event: Event,
    log2: LogView,
    v: u64,
    t: u64,
)
    requires
        r.inv(),
        r.step::<L>(next, member, event, log2),
        next.stored.contains_key((v, t)),
    ensures
        next.stored_safe(v, t),
{
    lemma_local::<L>(r, next, member, event, log2);
    lemma_grows::<L>(r, next, member, event, log2);
    lemma_stays(r, next);
    lemma_moving_member::<L>(r, next, member, event, log2);
    let s = r.group.nodes[member];
    let s1 = next.group.nodes[member];
    let old = r.log(member);
    let new = next.log(member);
    let t1 = s1.current_term.id;
    let m = next.stored[(v, t)];
    assert(r.member_safe(member));
    if v != member {
        assert(r.stored.contains_key((v, t)));
        assert(r.stored_safe(v, t));
        assert(next.group.nodes[v] == r.group.nodes[v]);
        assert forall|i: int| i <= m && #[trigger] next.own(t, i) implies next.covers(
            next.log(v),
            t,
            i,
        ) || next.lost_between(t, i, t as int, next.group.nodes[v].current_term.id as int) by {
            assert(r.own(t, i));
            if r.covers(r.log(v), t, i) {
                assert(next.covers(r.log(v), t, i));
            } else {
                assert(r.lost_between(t, i, t as int, r.group.nodes[v].current_term.id as int));
            }
        }
    } else if s1.is_leader() && t == t1 {
        assert(next.leader_log[t1] == new);
        assert(m == new.len());
        assert forall|i: int| i <= m && #[trigger] next.own(t, i) implies next.covers(
            next.log(v),
            t,
            i,
        ) by {}
    } else {
        let takes = match event {
            Event::Receive { sent, .. } => s.takes_entries(sent.message, sent.from),
            _ => false,
        };
        if takes {
            let sent = event->Receive_sent;
            let ticks = event->Receive_ticks;
            lemma_follower_log::<L>(r, next, member, sent, ticks, log2);
            let tm = sent.message.term.id;
            let lead = r.leader_log[tm];
            let far = reached(s, sent, log2);
            assert(t1 == tm);
            assert(r.leader_safe(tm));
            if t == tm {
                assert(next.leader_log[tm] == lead);
                assert forall|i: int| i <= m && #[trigger] next.own(t, i) implies next.covers(
                    new,
                    t,
                    i,
                ) by {
                    if i > far {
                        assert(r.stored.contains_key((v, t)));
                        assert(r.stored_safe(v, t));
                        assert(r.own(t, i));
                        assert(!r.lost_between(t, i, t as int, s.current_term.id as int));
                        assert(r.covers(old, t, i));
                        assert(agree(new, old, i));
                    }
                }
            } else {
                assert(r.stored.contains_key((v, t)));
                assert(r.stored_safe(v, t));
                assert(t < tm);
                assert forall|i: int| i <= m && #[trigger] next.own(t, i) implies next.covers(
                    new,
                    t,
                    i,
                ) || next.lost_between(t, i, t as int, t1 as int) by {
                    assert(r.own(t, i));
                    if r.covers(old, t, i) {
                        if agree(new, old, i) {
                            assert(next.covers(old, t, i));
                            assert forall|j: int| 0 <= j < i implies #[trigger] new[j]
                                == next.leader_log[t][j] by {
                                assert(new[j] == old[j]);
                            }
                        } else {
                            let x = choose|x: int|
                                0 <= x < i && x < lead.len() && old[x].term != lead[x].term;
                            assert(extends(next.leader_log[tm], lead, tm));
                            assert(extends(next.leader_log[t], r.leader_log[t], t));
                            assert(old[x] == r.leader_log[t][x]);
                            assert(next.leader_log[tm][x] == lead[x]);
                            assert(next.leader_log[t][x] == r.leader_log[t][x]);
                            assert(!agree(next.leader_log[tm], next.leader_log[t], i));
                            assert(next.leader_log.contains_key(tm));
                            assert(next.lost_between(t, i, t as int, t1 as int));
                        }
                    } else {
                        assert(r.lost_between(t, i, t as int, s.current_term.id as int));
                        assert(next.lost_between(t, i, t as int, s.current_term.id as int));
                        let w = choose|w: u64|
                            (t as int) < w <= (s.current_term.id as int)
                                && #[trigger] next.leader_log.contains_key(w) && !agree(
                                next.leader_log[w],
                                next.leader_log[t],
                                i,
                            );
                        assert(next.leader_log.contains_key(w));
                    }
                }
            }
        } else {
            assert(r.stored.contains_key((v, t)));
            assert(r.stored_safe(v, t));
            assert(next.stored[(v, t)] == r.stored[(v, t)]);
            assert forall|i: int| i <= m && #[trigger] next.own(t, i) implies next.covers(
                new,
                t,
                i,
            ) || next.lost_between(t, i, t as int, t1 as int) by {
                assert(r.own(t, i));
                if r.covers(old, t, i) {
                    assert(next.covers(old, t, i));
                    assert forall|j: int| 0 <= j < i implies #[trigger] new[j]
                        == next.leader_log[t][j] by {
                        assert(new[j] == old[j]);
                    }
                } else {
                    assert(r.lost_between(t, i, t as int, s.current_term.id as int));
                    assert(next.lost_between(t, i, t as int, s.current_term.id as int));
                    let w = choose|w: u64|
                        (t as int) < w <= (s.current_term.id as int)
                            && #[trigger] next.leader_log.contains_key(w) && !agree(
                            next.leader_log[w],
                            next.leader_log[t],
                            i,
                        );
                    assert(next.leader_log.contains_key(w));
                }
            }
        }
    }
}

/// The member that takes the lead by a step has the votes of a quorum that were cast
/// before the term had a leader.
#[verifier::rlimit(50)]
pub proof fn lemma_elected_timely<L: Log>(
    r: Replicated,
    next: Replicated,
    member: u64,
    event: Event,
    log2: LogView,
)
    requires
        r.inv(),
        r.step::<L>(next, member, event, log2),
        next.group.nodes[member].is_leader(),
        !r.leader_log.contains_key(next.group.nodes[member].current_term.id),
    ensures
        next.elected_timely(next.group.nodes[member].current_term.id, member),
{
    lemma_local::<L>(r, next, member, event, log2);
    lemma_grows::<L>(r, next, member, event, log2);
    let s = r.group.nodes[member];
    let s1 = next.group.nodes[member];
    let t1 = s1.current_term.id;
    assert(r.member_safe(member));
    assert(r.group.member_ok(member));
    assert(!(s.is_leader() && s1.current_term == s.current_term));
    let won = winners::<L>(s, event, log2);
    assert(s.peers == r.group.members.remove(member));
    assert forall|v: u64| won.contains(v) implies #[trigger] next.voted_timely(t1, v, member)
        && next.group.members.contains(v) by {
        assert(backs(s, s1, event, v));
        lemma_backs_voted::<L>(r.group, next.group, member, event, log2, v);
        if v == member {
            assert(s1.voted_for == Some(member)) by {
                assert(next.group.member_ok(member));
                assert(next.group.votes.contains_key((t1, member)));
            }
        } else {
            if s.leadership is Candidate && s1.current_term == s.current_term
                && s.leadership->votes_granted.contains(v) {
                assert(r.group.voted(t1, v, member));
            } else {
                let sent = event->Receive_sent;
                assert(r.group.sent_ok(sent));
                assert(r.group.voted(t1, v, member));
            }
            assert(r.group.votes.contains_key((t1, v)));
            assert(r.timely.contains((t1, v)));
        }
    }
    assert(won.subset_of(next.group.members));
    assert(next.is_quorum(won));
}

/// What the record says of the log of a leader that takes no step holds after the step of
/// another.
#[verifier::rlimit(50)]
pub proof fn lemma_leader_same<L: Log>(
    r: Replicated,
    next: Replicated,
    member: u64,
    event: Event,
    log2: LogView,
    t: u64,
)
    requires
        r.inv(),
        r.step::<L>(next, member, event, log2),
        r.leader_log.contains_key(t),
        next.leader_log.contains_key(t),
        next.leader_log[t] == r.leader_log[t],
    ensures
        next.leader_safe(t),
{
    lemma_grows::<L>(r, next, member, event, log2);
    lemma_stays(r, next);
    assert(r.leader_safe(t));
    let c = choose|c: u64| r.leads(t, c);
    assert(r.elected_timely(t, c));
    assert(next.elected_timely(t, c));
    assert(next.leads(t, c));
    assert(next.matches_leaders(r.leader_log[t]));
}

/// What the record says of the log of a leader that goes on leading holds after its step.
#[verifier::rlimit(50)]
pub proof fn lemma_leader_goes_on<L: Log>(
    r: Replicated,
    next: Replicated,
    member: u64,
    event: Event,
    log2: LogView,
)
    requires
        r.inv(),
        r.step::<L>(next, member, event, log2),
        next.group.nodes[member].is_leader(),
        r.leader_log.contains_key(next.group.nodes[member].current_term.id),
        next.member_safe(member),
    ensures
        next.leader_safe(next.group.nodes[member].current_term.id),
{
    lemma_local::<L>(r, next, member, event, log2);
    lemma_grows::<L>(r, next, member, event, log2);
    lemma_stays(r, next);
    let s = r.group.nodes[member];
    let s1 = next.group.nodes[member];
    let old = r.log(member);
    let new = next.log(member);
    let t = s1.current_term.id;
    assert(r.member_safe(member));
    assert(next.leader_log[t] == new);
    assert(next.group.elected.contains((t, member)));
    assert(new == old || (new == old.push(new.last()) && new.last().term == s1.current_term));
    assert(r.leader_safe(t));
    let c = choose|c: u64| r.leads(t, c);
    assert(next.group.elected.contains((t, c)));
    law_one_leader_per_term(next.group, t, c, member);
    assert(r.elected_timely(t, member));
    assert(next.elected_timely(t, member));
    assert(r.group.elected.contains((t, member)));
    assert(s.is_leader() && s.current_term.id == t);
    assert(r.leader_log[t] == old);
    let stood = r.cand_log[(t, member)];
    assert(next.cand_log[(t, member)] == stood);
    assert forall|j: int| stood.len() <= j < new.len() implies (#[trigger] new[j]).term.id == t by {
        if j < old.len() {
            assert(old[j].term.id == t);
        }
    }
    assert(agree(new, stood, stood.len() as int)) by {
        assert forall|j: int| 0 <= j < stood.len() implies #[trigger] new[j] == stood[j] by {
            assert(old[j] == stood[j]);
        }
    }
    assert(next.leads(t, member));
}

/// What the record says of the log of a member that takes the lead holds after its step.
#[verifier::rlimit(50)]
pub proof fn lemma_leader_starts<L: Log>(
    r: Replicated,
    next: Replicated,
    member: u64,
    event: Event,
    log2: LogView,
)
    requires
        r.inv(),
        r.step::<L>(next, member, event, log2),
        next.group.nodes[member].is_leader(),
        !r.leader_log.contains_key(next.group.nodes[member].current_term.id),
        next.member_safe(member),
    ensures
        next.leader_safe(next.group.nodes[member].current_term.id),
{
    lemma_local::<L>(r, next, member, event, log2);
    lemma_grows::<L>(r, next, member, event, log2);
    lemma_elected_timely::<L>(r, next, member, event, log2);
    let s = r.group.nodes[member];
    let s1 = next.group.nodes[member];
    let old = r.log(member);
    let new = next.log(member);
    let t = s1.current_term.id;
    assert(r.member_safe(member));
    assert(next.leader_log[t] == new);
    assert(next.group.elected.contains((t, member)));
    assert(new == old || (new == old.push(new.last()) && new.last().term == s1.current_term));
    assert(next.cand_log.contains_key((t, member)) && next.cand_log[(t, member)] == old) by {
        if !stands(s, event) {
            assert(s.leadership is Candidate);
            assert(s.current_term == s1.current_term);
        }
    }
    assert(agree(new, old, old.len() as int));
    assert(next.leads(t, member));
}

/// What the record says of the log of the leader that takes a step holds after the step.
pub proof fn lemma_leader_moving<L: Log>(
    r: Replicated,
    next: Replicated,
    member: u64,
    event: Event,
    log2: LogView,
)
    requires
        r.inv(),
        r.step::<L>(next, member, event, log2),
        next.group.nodes[member].is_leader(),
    ensures
        next.leader_safe(next.group.nodes[member].current_term.id),
{
    lemma_moving_member::<L>(r, next, member, event, log2);
    if r.leader_log.contains_key(next.group.nodes[member].current_term.id) {
        lemma_leader_goes_on::<L>(r, next, member, event, log2);
    } else {
        lemma_leader_starts::<L>(r, next, member, event, log2);
    }
}

/// What the record says of the logs of the leaders holds after a step.
pub proof fn lemma_leader_safe<L: Log>(
    r: Replicated,
    next: Replicated,
    member: u64,
    event: Event,
    log2: LogView,
    t: u64,
)
    requires
        r.inv(),
        r.step::<L>(next, member, event, log2),
        next.leader_log.contains_key(t),
    ensures
        next.leader_safe(t),
{
    let s1 = next.group.nodes[member];
    if s1.is_leader() && t == s1.current_term.id {
        lemma_leader_moving::<L>(r, next, member, event, log2);
    } else {
        lemma_leader_same::<L>(r, next, member, event, log2, t);
    }
}

/// A candidate whose log is at least as far as the log of a voter holds what the voter
/// holds of the log of an earlier leader up to an entry of that leader's term, unless a
/// leader in between did not hold it.
#[verifier::rlimit(50)]
pub proof fn lemma_up_to_date(
    r: Replicated,
    voter: Seq<EntryView>,
    stood: Seq<EntryView>,
    t: u64,
    i: int,
    term: u64,
)
    requires
        r.inv(),
        sorted(voter),
        r.matches_leaders(voter),
        sorted(stood),
        r.matches_leaders(stood),
        bounded(stood, term - 1),
        r.covers(voter, t, i),
        r.own(t, i),
        t < term,
        last_term(stood) > last_term(voter) || (last_term(stood) == last_term(voter)
            && stood.len() >= voter.len()),
    ensures
        r.covers(stood, t, i) || r.lost_between(t, i, t as int, term - 1),
{
    let lead = r.leader_log[t];
    assert(voter[i - 1] == lead[i - 1]);
    assert(voter[i - 1].term.id <= voter[voter.len() - 1].term.id);
    let top = last_term(stood);
    assert(stood.len() >= 1);
    assert(r.covers(stood, stood[stood.len() - 1].term.id, stood.len() as int));
    assert(r.leader_log.contains_key(top));
    let high = r.leader_log[top];
    if top == last_term(voter) {
        assert(r.covers(voter, voter[voter.len() - 1].term.id, voter.len() as int));
        assert forall|j: int| 0 <= j < i implies #[trigger] stood[j] == lead[j] by {
            assert(stood[j] == high[j]);
            assert(voter[j] == high[j]);
            assert(voter[j] == lead[j]);
        }
    } else {
        assert(top > t);
        assert(stood[stood.len() - 1].term.id <= term - 1);
        if agree(high, lead, i) {
            assert(r.leader_safe(top));
            assert(high[i - 1] == lead[i - 1]);
            assert(high[stood.len() - 1] == stood[stood.len() - 1]);
            if stood.len() - 1 <= i - 1 {
                assert(high[stood.len() - 1].term.id <= high[i - 1].term.id);
            }
            assert forall|j: int| 0 <= j < i implies #[trigger] stood[j] == lead[j] by {
                assert(stood[j] == high[j]);
                assert(high[j] == lead[j]);
            }
        } else {
            assert(r.leader_log.contains_key(top));
            assert(r.lost_between(t, i, t as int, term - 1));
        }
    }
}

/// How a member comes by a vote that it did not hold before: it stands for election and
/// votes for itself, or it grants its vote to a candidate whose log is at least as far as
/// its own.
pub open spec fn new_vote<L: Log>(
    s: StateView,
    event: Event,
    log2: LogView,
    full: Seq<EntryView>,
) -> bool {
    let s1 = after::<L>(s, event, log2);
    match s1.voted_for {
        Some(c) => {
            ||| s1.current_term == s.current_term && s.voted_for == Some(c)
            ||| stands(s, event) && c == s.node_id && s1.current_term.id == s.current_term.id + 1
            ||| match event {
                Event::Receive { sent, .. } => sent.from == c && sent.message.term
                    == s1.current_term && s1.log == s.log && match sent.message.rpc {
                    Some(RpcView::VoteRequest(request)) => request.last_log_term.id > last_term(
                        full,
                    ) || (request.last_log_term.id == last_term(full)
                        && request.last_log_idx.id >= full.len()),
                    _ => false,
                },
                _ => false,
            }
        },
        None => true,
    }
}

/// A member comes by a vote in one of the ways that there are.
#[verifier::rlimit(50)]
pub proof fn lemma_new_vote<L: Log>(r: Replicated, next: Replicated, member: u64, event: Event, log2: LogView)
    requires
        r.inv(),
        r.step::<L>(next, member, event, log2),
    ensures
        new_vote::<L>(r.group.nodes[member], event, log2, r.log(member)),
{
    lemma_local::<L>(r, next, member, event, log2);
    let s = r.group.nodes[member];
    let s1 = after::<L>(s, event, log2);
    assert(r.member_safe(member));
    lemma_ends_last(s.log, r.log(member));
    assert(r.group.member_ok(member));
    if s.leadership is Candidate {
        lemma_candidate_votes_for_itself(r.group, member);
    }
    match event {
        Event::Receive { sent, ticks } => {
            if s.peers.contains(sent.from) {
                let current = s.update_term(sent.message.term, ticks);
                let handled = current.handle::<L>(sent.message, sent.from, ticks, log2);
                let led = handled.become_leader(log2);
                assert(s1 == led.advance_commit());
                assert(s1.voted_for == handled.voted_for);
                assert(sent.from != s.node_id);
                match sent.message.rpc {
                    Some(RpcView::VoteRequest(request)) => {
                        if current.grants_vote(sent.message.term, request, sent.from) {
                            assert(!handled.wins_election());
                            assert(s1.log == s.log);
                        }
                    },
                    _ => {},
                }
            }
        },
        _ => {},
    }
}

/// What the record says of the votes cast in time holds after a step.
#[verifier::rlimit(50)]
pub proof fn lemma_vote_safe<L: Log>(
    r: Replicated,
    next: Replicated,
    member: u64,
    event: Event,
    log2: LogView,
    t: u64,
    v: u64,
)
    requires
        r.inv(),
        r.step::<L>(next, member, event, log2),
        next.timely.contains((t, v)),
    ensures
        next.vote_safe(t, v),
{
    lemma_local::<L>(r, next, member, event, log2);
    lemma_grows::<L>(r, next, member, event, log2);
    lemma_stays(r, next);
    lemma_new_vote::<L>(r, next, member, event, log2);
    let s = r.group.nodes[member];
    let s1 = next.group.nodes[member];
    let t1 = s1.current_term.id;
    assert(r.member_safe(member));
    assert(r.group.member_ok(member));
    assert(next.group.member_ok(member));
    if r.timely.contains((t, v)) {
        assert(r.vote_safe(t, v));
        let c = r.group.votes[(t, v)];
        assert(r.group.voted(t, v, c));
        assert(next.group.voted(t, v, c));
        let stood = r.cand_log[(t, c)];
        assert forall|u: u64, i: int|
            u < t && next.has_stored(v, u, i) && #[trigger] next.own(u, i) implies next.covers(
            next.cand_log[(t, c)],
            u,
            i,
        ) || next.lost_between(u, i, u as int, t - 1) by {
            if v == member && u == t1 {
                assert(r.group.votes.contains_key((t, member)));
                assert(t <= s.current_term.id);
            }
            assert(r.stored.contains_key((v, u)));
            assert(next.stored[(v, u)] == r.stored[(v, u)]);
            assert(r.has_stored(v, u, i));
            assert(r.stored_safe(v, u));
            assert(r.own(u, i));
            if r.covers(stood, u, i) {
                assert(next.covers(stood, u, i));
            } else {
                assert(r.lost_between(u, i, u as int, t - 1));
            }
        }
    } else {
        assert(v == member && t == t1);
        assert(!r.leader_log.contains_key(t1));
        let c = s1.voted_for->0;
        assert(!r.group.votes.contains_key((t1, member)));
        assert(next.group.votes[(t1, member)] == c);
        assert(!(s1.current_term == s.current_term && s.voted_for == Some(c)));
        let mine = r.log(member);
        if stands(s, event) && c == s.node_id && t1 == s.current_term.id + 1 {
            assert(next.cand_log[(t1, c)] == mine);
            assert forall|u: u64, i: int|
                u < t && next.has_stored(v, u, i) && #[trigger] next.own(u, i) implies next.covers(
                next.cand_log[(t, c)],
                u,
                i,
            ) || next.lost_between(u, i, u as int, t - 1) by {
                assert(r.stored.contains_key((v, u)));
                assert(next.stored[(v, u)] == r.stored[(v, u)]);
                assert(r.stored_safe(v, u));
                assert(r.own(u, i));
                if r.covers(mine, u, i) {
                    assert(next.covers(mine, u, i));
                } else {
                    assert(r.lost_between(u, i, u as int, s.current_term.id as int));
                }
            }
        } else {
            let sent = event->Receive_sent;
            assert(r.group.sent.contains(sent));
            assert(r.sent_safe(sent));
            let request = sent.message.rpc->0->VoteRequest_0;
            assert(r.cand_log.contains_key((t1, c)));
            let stood = r.cand_log[(t1, c)];
            assert(r.candidate_safe(t1, c));
            assert(next.cand_log[(t1, c)] == stood);
            assert forall|u: u64, i: int|
                u < t && next.has_stored(v, u, i) && #[trigger] next.own(u, i) implies next.covers(
                next.cand_log[(t, c)],
                u,
                i,
            ) || next.lost_between(u, i, u as int, t - 1) by {
                assert(r.stored.contains_key((v, u)));
                assert(next.stored[(v, u)] == r.stored[(v, u)]);
                assert(r.stored_safe(v, u));
                assert(r.own(u, i));
                if r.covers(mine, u, i) {
                    lemma_up_to_date(r, mine, stood, u, i, t1);
                    if r.covers(stood, u, i) {
                        assert(next.covers(stood, u, i));
                    } else {
                        assert(r.lost_between(u, i, u as int, t1 - 1));
                    }
                } else {
                    assert(r.lost_between(u, i, u as int, s.current_term.id as int));
                    let w = choose|w: u64|
                        (u as int) < w <= (s.current_term.id as int)
                            && #[trigger] r.leader_log.contains_key(w) && !agree(
                            r.leader_log[w],
                            r.leader_log[u],
                            i,
                        );
                    assert(w != t1);
                    assert(r.leader_log.contains_key(w));
                    assert(r.lost_between(u, i, u as int, t1 - 1));
                }
            }
        }
    }
}

/// Every vote of a term without a leader is on record as cast in time, after a step as
/// before.
pub proof fn lemma_timely_complete<L: Log>(
    r: Replicated,
    next: Replicated,
    member: u64,
    event: Event,
    log2: LogView,
)
    requires
        r.inv(),
        r.step::<L>(next, member, event, log2),
    ensures
        forall|t: u64, v: u64|
            !next.leader_log.contains_key(t) && #[trigger] next.group.votes.contains_key((t, v))
                ==> next.timely.contains((t, v)),
{
    lemma_local::<L>(r, next, member, event, log2);
    lemma_grows::<L>(r, next, member, event, log2);
    assert forall|t: u64, v: u64|
        !next.leader_log.contains_key(t) && #[trigger] next.group.votes.contains_key(
            (t, v),
        ) implies next.timely.contains((t, v)) by {
        if r.group.votes.contains_key((t, v)) {
            assert(!r.leader_log.contains_key(t));
            assert(r.timely.contains((t, v)));
        }
    }
}

/// The part of the invariant that the agreement of the leaders rests on: the group's own
/// invariant, and what the record says of the logs of the leaders and of the votes cast in
/// time.
pub open spec fn settled(x: Replicated) -> bool {
    &&& x.group.inv()
    &&& x.group.members.len() >= 1
    &&& forall|t: u64| #[trigger] x.leader_log.contains_key(t) ==> x.leader_safe(t)
    &&& forall|t: u64, v: u64| #[trigger] x.timely.contains((t, v)) ==> x.vote_safe(t, v)
}

/// Every leader of a later term holds the log of the leader of a term up to an entry of
/// that term that a quorum has stored.
#[verifier::rlimit(50)]
pub proof fn lemma_leaders_hold(x: Replicated, t: u64, c: int, u: u64)
    requires
        settled(x),
        x.own(t, c),
        x.stored_by_quorum(t, c),
        t < u,
        x.leader_log.contains_key(u),
    ensures
        agree(x.leader_log[u], x.leader_log[t], c),
    decreases u,
{
    assert(x.leader_safe(u));
    let cu = choose|cu: u64| x.leads(u, cu);
    let voters = choose|quorum: Set<u64>|
        x.is_quorum(quorum) && forall|v: u64|
            quorum.contains(v) ==> #[trigger] x.voted_timely(u, v, cu);
    let holders = choose|quorum: Set<u64>|
        x.is_quorum(quorum) && forall|v: u64| quorum.contains(v) ==> #[trigger] x.has_stored(v, t, c);
    law_quorums_intersect(x.group.members, holders, voters);
    let v = choose|v: u64| holders.contains(v) && voters.contains(v);
    assert(x.has_stored(v, t, c));
    assert(x.voted_timely(u, v, cu));
    assert(x.vote_safe(u, v));
    assert(x.group.votes[(u, v)] == cu);
    let stood = x.cand_log[(u, cu)];
    if x.covers(stood, t, c) {
        assert forall|j: int| 0 <= j < c implies #[trigger] x.leader_log[u][j]
            == x.leader_log[t][j] by {
            assert(x.leader_log[u][j] == stood[j]);
            assert(stood[j] == x.leader_log[t][j]);
        }
    } else {
        assert(x.lost_between(t, c, t as int, u - 1));
        let w = choose|w: u64|
            (t as int) < w <= u - 1 && #[trigger] x.leader_log.contains_key(w) && !agree(
                x.leader_log[w],
                x.leader_log[t],
                c,
            );
        lemma_leaders_hold(x, t, c, w);
    }
}

/// A request to append carries no more entries than the log holds from its first on.
pub proof fn lemma_chunk_held<L: Log>(log: LogView, idx: int, size: usize, max: usize)
    requires
        log.wf(),
    ensures
        idx + chunk_len::<L>(log, idx, size, max) <= log.last_index() + 1
            || chunk_len::<L>(log, idx, size, max) == 0,
    decreases log.last_index() - idx + 1,
{
    if log.has(idx) && !(size != 0 && size == max) {
        let more = size_sum(size, L::entry_size(log.entry(idx)));
        if size == 0 || more <= max {
            lemma_chunk_held::<L>(log, idx + 1, more, max);
        }
    }
}

/// What the record says of a message that was on its way before a step holds after it.
#[verifier::rlimit(50)]
pub proof fn lemma_sent_stays<L: Log>(
    r: Replicated,
    next: Replicated,
    member: u64,
    event: Event,
    log2: LogView,
    sent: Sent,
)
    requires
        r.inv(),
        r.step::<L>(next, member, event, log2),
        r.group.sent.contains(sent),
    ensures
        next.sent_safe(sent),
{
    lemma_grows::<L>(r, next, member, event, log2);
    lemma_stays(r, next);
    let term = sent.message.term.id;
    assert(r.sent_safe(sent));
    match sent.message.rpc {
        Some(RpcView::AppendRequest(request)) => {
            let p = request.prev_log_idx.id as int;
            let lead = r.leader_log[term];
            let now = next.leader_log[term];
            assert(extends(now, lead, term));
            let lc = request.leader_commit.id as int;
            assert(r.chosen(lead, lc));
            assert(next.chosen(lead, lc));
            if lc != 0 {
                let (t, c) = choose|t: u64, c: int| #[trigger]
                    next.committed.contains((t, c)) && lc <= c && next.covers(lead, t, lc);
                assert forall|j: int| 0 <= j < lc implies #[trigger] now[j]
                    == next.leader_log[t][j] by {
                    assert(now[j] == lead[j]);
                }
                assert(next.committed.contains((t, c)) && lc <= c && next.covers(now, t, lc));
            }
            assert forall|k: int| 0 <= k < request.entries.len() implies #[trigger] request.entries[k]
                == now[p + k] by {
                assert(request.entries[k] == lead[p + k]);
            }
        },
        Some(RpcView::AppendResponse(response)) => {
            if response.success && response.match_idx.id >= 1 {
                assert(r.has_stored(sent.from, term, response.match_idx.id as int));
            }
        },
        _ => {},
    }
}

/// What the record says of the request to append that a leader makes for a peer.
#[verifier::rlimit(50)]
pub proof fn lemma_sent_request<L: Log>(
    r: Replicated,
    next: Replicated,
    member: u64,
    to: u64,
    log2: LogView,
    sent: Sent,
)
    requires
        r.inv(),
        r.step::<L>(next, member, Event::AppendEntries { to }, log2),
        next.group.sent.contains(sent),
        !r.group.sent.contains(sent),
    ensures
        next.sent_safe(sent),
{
    let event = Event::AppendEntries { to };
    lemma_local::<L>(r, next, member, event, log2);
    lemma_moving_member::<L>(r, next, member, event, log2);
    let s = r.group.nodes[member];
    let s1 = next.group.nodes[member];
    let t1 = s1.current_term.id;
    assert(r.member_safe(member));
    assert(next.member_safe(member));
    let m = output::<L>(s, event, log2)->0;
    assert(sent == (Sent { from: member, message: m.message, dest: m.dest }));
    let made = s.append_request_for::<L>(to)->0;
    let request = made.0;
    let mine = r.log(member);
    assert(s.is_leader());
    assert(s1.log == s.log);
    assert(s1.current_term == s.current_term);
    lemma_ends_same(s.log, mine);
    assert(next.log(member) == mine);
    assert(next.leader_log[t1] == mine);
    let replication = s.leadership->followers[to];
    let from = replication.next_idx.id as int;
    lemma_chunk_held::<L>(s.log, from, 0, s.config.replication_chunk_size);
    let p = request.prev_log_idx.id as int;
    assert(p == from - 1 || (from == 0 && p == 0));
    if p >= 1 {
        assert(s.log.term_at(p) is Some);
        if p != s.log.prev_index {
            assert(s.log.has(p));
            assert(mine[p - 1] == s.log.entries[p - 1 - s.log.prev_index]);
        }
    }
    let n = request.entries.len() as int;
    if n > 0 {
        assert(s.log.has(from));
        assert(request.entries == s.log.between(p, p + n));
        assert forall|k: int| 0 <= k < n implies #[trigger] request.entries[k] == mine[p + k] by {
            assert(request.entries[k] == s.log.entries[p - s.log.prev_index + k]);
            assert(mine[p + k] == s.log.entries[p + k - s.log.prev_index]);
        }
    }
    let lc = request.leader_commit.id as int;
    assert(next.chosen(mine, s.commit_idx.id as int));
    if lc != 0 {
        let (t, c) = choose|t: u64, c: int| #[trigger]
            next.committed.contains((t, c)) && s.commit_idx.id <= c && next.covers(
                mine,
                t,
                s.commit_idx.id as int,
            );
        assert(next.committed.contains((t, c)) && lc <= c && next.covers(mine, t, lc));
    }
}

/// What the record says of the answer that a member sends to a message.
#[verifier::rlimit(50)]
pub proof fn lemma_sent_reply<L: Log>(
    r: Replicated,
    next: Replicated,
    member: u64,
    got: Sent,
    ticks: u32,
    log2: LogView,
    sent: Sent,
)
    requires
        r.inv(),
        r.step::<L>(next, member, Event::Receive { sent: got, ticks }, log2),
        next.group.sent.contains(sent),
        !r.group.sent.contains(sent),
    ensures
        next.sent_safe(sent),
{
    let event = Event::Receive { sent: got, ticks };
    lemma_local::<L>(r, next, member, event, log2);
    let s = r.group.nodes[member];
    let s1 = next.group.nodes[member];
    let t1 = s1.current_term.id;
    let m = output::<L>(s, event, log2)->0;
    assert(sent == (Sent { from: member, message: m.message, dest: m.dest }));
    match sent.message.rpc {
        Some(RpcView::AppendResponse(response)) => {
            if response.success && response.match_idx.id >= 1 {
                assert(s.takes_entries(got.message, got.from));
                assert(!s1.is_leader());
                assert(response.match_idx.id == reached(s, got, log2));
                assert(next.stored.contains_key((member, t1)));
                assert(sent.message.term.id == t1);
            }
        },
        _ => {},
    }
}

/// What the record says of the request for votes that a candidate sends.
#[verifier::rlimit(50)]
pub proof fn lemma_sent_vote_request<L: Log>(
    r: Replicated,
    next: Replicated,
    member: u64,
    event: Event,
    log2: LogView,
    sent: Sent,
)
    requires
        r.inv(),
        r.step::<L>(next, member, event, log2),
        next.group.sent.contains(sent),
        !r.group.sent.contains(sent),
        !(event is Receive),
        !(event is AppendEntries),
    ensures
        next.sent_safe(sent),
{
    lemma_local::<L>(r, next, member, event, log2);
    lemma_moving_member::<L>(r, next, member, event, log2);
    let s = r.group.nodes[member];
    let s1 = next.group.nodes[member];
    let t1 = s1.current_term.id;
    assert(next.member_safe(member));
    let m = output::<L>(s, event, log2)->0;
    assert(sent == (Sent { from: member, message: m.message, dest: m.dest }));
    assert(s1.leadership is Candidate);
    assert(next.cand_log[(t1, member)] == next.log(member));
    lemma_ends_last(s1.log, next.log(member));
}

/// What the record says of the messages on their way holds after a step.
pub proof fn lemma_sent_safe<L: Log>(
    r: Replicated,
    next: Replicated,
    member: u64,
    event: Event,
    log2: LogView,
    sent: Sent,
)
    requires
        r.inv(),
        r.step::<L>(next, member, event, log2),
        next.group.sent.contains(sent),
    ensures
        next.sent_safe(sent),
{
    if r.group.sent.contains(sent) {
        lemma_sent_stays::<L>(r, next, member, event, log2, sent);
    } else {
        match event {
            Event::Receive { sent: got, ticks } => {
                lemma_sent_reply::<L>(r, next, member, got, ticks, log2, sent);
            },
            Event::AppendEntries { to } => {
                lemma_sent_request::<L>(r, next, member, to, log2, sent);
            },
            _ => {
                lemma_sent_vote_request::<L>(r, next, member, event, log2, sent);
            },
        }
    }
}

/// What the record says of what the leaders have committed holds after a step.
#[verifier::rlimit(50)]
pub proof fn lemma_committed_safe<L: Log>(
    r: Replicated,
    next: Replicated,
    member: u64,
    event: Event,
    log2: LogView,
    t: u64,
    c: int,
)
    requires
        r.inv(),
        r.step::<L>(next, member, event, log2),
        next.committed.contains((t, c)),
        settled(next),
        next.member_safe(member),
    ensures
        next.committed_safe(t, c),
{
    lemma_local::<L>(r, next, member, event, log2);
    lemma_grows::<L>(r, next, member, event, log2);
    lemma_stays(r, next);
    let s = r.group.nodes[member];
    let s1 = next.group.nodes[member];
    let t1 = s1.current_term.id;
    if r.committed.contains((t, c)) {
        assert(r.committed_safe(t, c));
        assert(next.own(t, c));
        assert(next.stored_by_quorum(t, c));
    } else {
        assert(t == t1 && c == s1.commit_idx.id);
        assert(s1.is_leader() && c > s.commit_idx.id);
        assert(next.leader_log[t1] == next.log(member));
        assert(s1.is_quorum_index(c));
        let followers = s1.leadership->followers;
        let agreeing = agreeing(followers, s1.peers, c);
        let quorum = agreeing.insert(member);
        assert(r.group.member_ok(member));
        assert(s1.peers == r.group.members.remove(member));
        assert(agreeing.finite()) by {
            s1.peers.lemma_len_filter(|p: u64| followers[p].match_idx.id >= c);
        }
        assert(!agreeing.contains(member));
        assert(quorum.len() == agreeing.len() + 1);
        assert(s1.agree_count(c) == agreeing.len() + 1);
        assert forall|v: u64| quorum.contains(v) implies #[trigger] next.has_stored(v, t, c) by {
            if v != member {
                assert(followers.contains_key(v));
                assert(followers[v].match_idx.id >= c);
                assert(next.has_stored(v, t1, followers[v].match_idx.id as int));
            }
        }
        assert(quorum.subset_of(next.group.members));
        assert(next.is_quorum(quorum));
        assert(next.stored_by_quorum(t, c));
    }
    assert forall|u: u64| t < u && #[trigger] next.leader_log.contains_key(u) implies agree(
        next.leader_log[u],
        next.leader_log[t],
        c,
    ) by {
        lemma_leaders_hold(next, t, c, u);
    }
}

/// A step of a group whose logs hold every entry and cut where they are asked to keeps
/// the invariant of the proof.
#[verifier::rlimit(50)]
pub proof fn lemma_step_safe<L: Log>(
    r: Replicated,
    next: Replicated,
    member: u64,
    event: Event,
    log2: LogView,
)
    requires
        r.inv(),
        r.step::<L>(next, member, event, log2),
    ensures
        next.inv(),
{
    lemma_local::<L>(r, next, member, event, log2);
    lemma_grows::<L>(r, next, member, event, log2);
    lemma_moving_member::<L>(r, next, member, event, log2);
    lemma_candidates_safe::<L>(r, next, member, event, log2);
    lemma_timely_complete::<L>(r, next, member, event, log2);
    assert forall|n: u64| next.group.members.contains(n) implies #[trigger] next.member_safe(n) by {
        if n != member {
            lemma_other_member::<L>(r, next, member, event, log2, n);
        }
    }
    assert forall|v: u64, t: u64| #[trigger] next.stored.contains_key((v, t)) implies next.stored_safe(
        v,
        t,
    ) by {
        lemma_stored_safe::<L>(r, next, member, event, log2, v, t);
    }
    assert forall|t: u64| #[trigger] next.leader_log.contains_key(t) implies next.leader_safe(t) by {
        lemma_leader_safe::<L>(r, next, member, event, log2, t);
    }
    assert forall|t: u64, v: u64| #[trigger] next.timely.contains((t, v)) implies next.vote_safe(
        t,
        v,
    ) by {
        lemma_vote_safe::<L>(r, next, member, event, log2, t, v);
    }
    assert forall|sent: Sent| next.group.sent.contains(sent) implies #[trigger] next.sent_safe(
        sent,
    ) by {
        lemma_sent_safe::<L>(r, next, member, event, log2, sent);
    }
    assert(next.group.members.len() >= 1) by {
        if next.group.members.len() == 0 {
            assert(next.group.members.contains(member));
        }
    }
    assert(settled(next));
    assert forall|t: u64, c: int| #[trigger] next.committed.contains((t, c)) implies next.committed_safe(
        t,
        c,
    ) by {
        lemma_committed_safe::<L>(r, next, member, event, log2, t, c);
    }
}

/// A run of a group: the states that it goes through from its start, with the member, the
/// event and the log of each step.
pub struct Run {
    pub states: Seq<Replicated>,
    pub members: Seq<u64>,
    pub events: Seq<Event>,
    pub logs: Seq<LogView>,
}

impl Run {
    /// Whether the step from the state at position `k` to the next is a step of the group.
    pub open spec fn step_at<L: Log>(self, k: int) -> bool {
        self.states[k].step::<L>(
            self.states[k + 1],
            self.members[k],
            self.events[k],
            self.logs[k],
        )
    }

    /// Whether the run starts as a group starts and goes on by steps of the group, whose
    /// logs hold every entry and cut where they are asked to, and whose hosts only take
    /// committed entries.
    pub open spec fn valid<L: Log>(self) -> bool {
        &&& self.states.len() >= 1
        &&& self.members.len() == self.states.len() - 1
        &&& self.events.len() == self.states.len() - 1
        &&& self.logs.len() == self.states.len() - 1
        &&& self.states[0].starts()
        &&& forall|k: int| 0 <= k < self.states.len() - 1 ==> #[trigger] self.step_at::<L>(k)
    }
}

/// Every state of a run satisfies the invariant of the proof.
pub proof fn lemma_run_safe<L: Log>(run: Run, k: int)
    requires
        run.valid::<L>(),
        0 <= k < run.states.len(),
    ensures
        run.states[k].inv(),
    decreases k,
{
    if k == 0 {
        lemma_starts_safe(run.states[0]);
    } else {
        lemma_run_safe::<L>(run, k - 1);
        assert(run.step_at::<L>(k - 1));
        lemma_step_safe::<L>(
            run.states[k - 1],
            run.states[k],
            run.members[k - 1],
            run.events[k - 1],
            run.logs[k - 1],
        );
    }
}

/// In every state of a run, two nodes that both hold an entry at an index up to which both
/// have committed hold the same entry there.
pub proof fn law_state_machine_safety<L: Log>(run: Run, k: int, a: u64, b: u64, i: int)
    requires
        run.valid::<L>(),
        0 <= k < run.states.len(),
        run.states[k].group.members.contains(a),
        run.states[k].group.members.contains(b),
        1 <= i <= run.states[k].group.nodes[a].commit_idx.id,
        i <= run.states[k].group.nodes[b].commit_idx.id,
        run.states[k].group.nodes[a].log.has(i),
        run.states[k].group.nodes[b].log.has(i),
    ensures
        run.states[k].group.nodes[a].log.entry(i) == run.states[k].group.nodes[b].log.entry(i),
{
    lemma_run_safe::<L>(run, k);
    law_committed_entries_are_the_same(run.states[k], a, b, i);
}

} // verus!
