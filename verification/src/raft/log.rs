//! Storage of the replicated log: the capability a host supplies, its abstract model, and the
//! wrapper that tracks the commit index over it.

use crate::raft::message::{EntryView, LogEntry, LogIndex, TermId};
use vstd::prelude::*;

pub mod memory;

verus! {

/// The abstract value of a log: the entries still held, where they start, and how far the
/// host has consumed them.
pub struct LogView {
    /// The index immediately before the first entry held; entries up to it were discarded.
    pub prev_index: int,
    /// The term of the entry at `prev_index`, or 0 when nothing was ever discarded.
    pub prev_term: TermId,
    /// The entries held, at indices `prev_index + 1 ..= prev_index + entries.len()`.
    pub entries: Seq<EntryView>,
    /// The index of the last entry handed out by `take_next`.
    pub last_taken: int,
}

impl LogView {
    /// The log that every node starts with.
    pub open spec fn empty() -> LogView {
        LogView { prev_index: 0, prev_term: TermId { id: 0 }, entries: Seq::empty(), last_taken: 0 }
    }

    /// The index of the last entry held, or `prev_index` when none is.
    pub open spec fn last_index(self) -> int {
        self.prev_index + self.entries.len()
    }

    /// Indices are contiguous, nothing untaken was discarded, nothing absent was taken, and
    /// the index after the last one still fits in 64 bits.
    pub open spec fn wf(self) -> bool {
        0 <= self.prev_index <= self.last_taken <= self.last_index() < u64::MAX
    }

    /// Whether an entry is held at index `i`.
    pub open spec fn has(self, i: int) -> bool {
        self.prev_index < i <= self.last_index()
    }

    /// The entry at index `i`, where one is held.
    pub open spec fn entry(self, i: int) -> EntryView
        recommends
            self.has(i),
    {
        self.entries[i - self.prev_index - 1]
    }

    /// The term known for index `i`: that of a held entry, or the preserved term of the last
    /// discarded one.
    pub open spec fn term_at(self, i: int) -> Option<TermId> {
        if i == self.prev_index {
            Some(self.prev_term)
        } else if self.has(i) {
            Some(self.entry(i).term)
        } else {
            None
        }
    }

    /// The term of the last entry, or the preserved one when no entry is held.
    pub open spec fn last_term(self) -> TermId {
        if self.entries.len() == 0 {
            self.prev_term
        } else {
            self.entries.last().term
        }
    }

    /// The log after its first `n` entries were discarded.
    pub open spec fn evict(self, n: int) -> LogView
        recommends
            0 <= n <= self.entries.len(),
    {
        LogView {
            prev_index: self.prev_index + n,
            prev_term: if n == 0 { self.prev_term } else { self.entries[n - 1].term },
            entries: self.entries.skip(n),
            last_taken: self.last_taken,
        }
    }

    /// The log with `e` added at the end.
    pub open spec fn push(self, e: EntryView) -> LogView {
        LogView { entries: self.entries.push(e), ..self }
    }

    /// The log without the entries at index `from` and after.
    pub open spec fn truncate(self, from: int) -> LogView
        recommends
            self.prev_index < from <= self.last_index() + 1,
    {
        LogView { entries: self.entries.take(from - self.prev_index - 1), ..self }
    }

    /// The entries at the indices after `lo` up to and including `hi`, in order.
    pub open spec fn between(self, lo: int, hi: int) -> Seq<EntryView>
        recommends
            self.prev_index <= lo <= hi <= self.last_index(),
    {
        self.entries.subrange(lo - self.prev_index, hi - self.prev_index)
    }

    /// The log after the next entry was handed out.
    pub open spec fn take(self) -> LogView {
        LogView { last_taken: self.last_taken + 1, ..self }
    }

    /// Whether `self` may follow `pre` by discarding taken entries from the front and then
    /// adding `e` at the end.
    pub open spec fn appended_to(self, pre: LogView, e: EntryView) -> bool {
        &&& pre.prev_index <= self.prev_index <= pre.last_taken
        &&& self == pre.evict(self.prev_index - pre.prev_index).push(e)
    }
}

/// Storage for the log of a Raft node, supplied by the host.
///
/// A log starts empty, with `prev_index` and `last_index` 0. The first entry appended has
/// index 1 and indices are contiguous. A bounded log may discard entries from the front once
/// they were handed out by `take_next`; the term of the last discarded entry stays available.
/// The index after the last entry must always fit in 64 bits, so an implementation refuses an
/// append that would take the last index to `u64::MAX`.
///
/// A log may refuse to append or to be cut for reasons of its own, such as a failing disk.
/// What it is bound to do whatever happens, it says with `room` and `cuts`; where these hold,
/// a node promises that the entries that are due reach its log.
pub trait Log: Sized {
    /// The type of error returned by fallible operations.
    type Error;

    /// The abstract value of the log.
    spec fn model(&self) -> LogView;

    /// The invariant of the representation. It has to imply that the model is well formed.
    spec fn inv(&self) -> bool;

    /// The advisory size of an entry, a positive function of the entry alone.
    spec fn entry_size(entry: EntryView) -> usize;

    /// The entries that the log, as it stands, is bound to take: an append of one of them is
    /// not refused. A log that may fail at any time has none.
    spec fn room(&self) -> Set<EntryView>;

    /// Whether the log, as it stands, is bound to let go of entries that were not taken:
    /// it does not refuse to be cut after the last taken entry. A log that may fail at any
    /// time is not.
    spec fn cuts(&self) -> bool;

    /// Every entry counts at least one byte.
    proof fn entry_size_positive(entry: EntryView)
        ensures
            Self::entry_size(entry) >= 1,
    ;

    /// A log that satisfies its invariant has a well-formed model.
    proof fn inv_gives_wf(&self)
        requires
            self.inv(),
        ensures
            self.model().wf(),
    ;

    /// Appends an entry to the end of the log, for which taken entries may be discarded from
    /// the front. A log that refuses the entry stays as it was, and has no room for it; an
    /// entry that the log has room for is not refused.
    fn append(&mut self, entry: LogEntry) -> (r: Result<(), Self::Error>)
        requires
            old(self).inv(),
        ensures
            final(self).inv(),
            old(self).room().contains(entry@) ==> r is Ok,
            r is Err ==> !final(self).room().contains(entry@),
            r is Ok ==> final(self).model().appended_to(old(self).model(), entry@),
            r is Err ==> final(self).model() == old(self).model(),
    ;

    /// Removes the entry at `from_index` and all after it, and returns how many were removed.
    /// Fails, leaving the log as it was, when `from_index` is at or before the last taken
    /// entry or more than one past the end. A log that has room for an entry still has it
    /// for that entry once it was cut.
    fn cancel_from(&mut self, from_index: LogIndex) -> (r: Result<usize, Self::Error>)
        requires
            old(self).inv(),
        ensures
            final(self).inv(),
            old(self).cuts() && old(self).model().last_taken < from_index.id <= old(
                self,
            ).model().last_index() + 1 ==> r is Ok,
            r is Ok ==> old(self).room().subset_of(final(self).room()),
            r matches Ok(n) ==> old(self).model().last_taken < from_index.id <= old(
                self,
            ).model().last_index() + 1 && n == old(self).model().last_index() + 1 - from_index.id
                && final(self).model() == old(self).model().truncate(from_index.id as int),
            r is Err ==> final(self).model() == old(self).model(),
            !(old(self).model().last_taken < from_index.id <= old(self).model().last_index() + 1)
                ==> r is Err,
    ;

    /// The advisory serialized length of an entry.
    fn entry_len(&self, entry: &LogEntry) -> (n: usize)
        ensures
            n == Self::entry_size(entry@),
    ;

    /// The entry at `index`, or `None` where none is held.
    fn get(&mut self, index: LogIndex) -> (r: Option<LogEntry>)
        requires
            old(self).inv(),
        ensures
            final(self).inv(),
            final(self).model() == old(self).model(),
            final(self).room() == old(self).room(),
            final(self).cuts() == old(self).cuts(),
            r matches Some(e) ==> old(self).model().has(index.id as int) && e@ == old(
                self,
            ).model().entry(index.id as int),
            r is None ==> !old(self).model().has(index.id as int),
    ;

    /// The term of the entry at `index`, or `None` where none is held. At `prev_index` an
    /// implementation may answer with the preserved term.
    fn get_term(&mut self, index: LogIndex) -> (r: Option<TermId>)
        requires
            old(self).inv(),
        ensures
            final(self).inv(),
            final(self).model() == old(self).model(),
            final(self).room() == old(self).room(),
            final(self).cuts() == old(self).cuts(),
            index.id != old(self).model().prev_index ==> r == (if old(self).model().has(
                index.id as int,
            ) {
                Some(old(self).model().entry(index.id as int).term)
            } else {
                None::<TermId>
            }),
            index.id == old(self).model().prev_index ==> r is None || r == Some(
                old(self).model().prev_term,
            ),
    ;

    /// The advisory length of the entry at `index`, or `None` where none is held.
    fn get_len(&mut self, index: LogIndex) -> (r: Option<usize>)
        requires
            old(self).inv(),
        ensures
            final(self).inv(),
            final(self).model() == old(self).model(),
            final(self).room() == old(self).room(),
            final(self).cuts() == old(self).cuts(),
            r == (if old(self).model().has(index.id as int) {
                Some(Self::entry_size(old(self).model().entry(index.id as int)))
            } else {
                None::<usize>
            }),
    ;

    /// The index of the last entry handed out by `take_next`, or 0.
    fn last_taken_index(&self) -> (r: LogIndex)
        requires
            self.inv(),
        ensures
            r.id == self.model().last_taken,
    ;

    /// The index of the last entry, or of the last discarded one when none is held.
    fn last_index(&self) -> (r: LogIndex)
        requires
            self.inv(),
        ensures
            r.id == self.model().last_index(),
    ;

    /// The term of the last entry, or of the last discarded one when none is held.
    fn last_term(&self) -> (r: TermId)
        requires
            self.inv(),
        ensures
            r == self.model().last_term(),
    ;

    /// The index immediately before the first entry held.
    fn prev_index(&self) -> (r: LogIndex)
        requires
            self.inv(),
        ensures
            r.id == self.model().prev_index,
    ;

    /// The term of the entry immediately before the first entry held.
    fn prev_term(&self) -> (r: TermId)
        requires
            self.inv(),
        ensures
            r == self.model().prev_term,
    ;

    /// Hands out the next entry not handed out before, which makes it eligible for discard;
    /// `None` when every entry was handed out.
    fn take_next(&mut self) -> (r: Option<LogEntry>)
        requires
            old(self).inv(),
        ensures
            final(self).inv(),
            old(self).model().last_taken < old(self).model().last_index() ==> r is Some
                && r->0@ == old(self).model().entry(old(self).model().last_taken + 1)
                && final(self).model() == old(self).model().take(),
            old(self).model().last_taken >= old(self).model().last_index() ==> r is None
                && final(self).model() == old(self).model(),
    ;
}

/// A log together with the index up to which its entries are committed.
pub struct LogState<L> {
    /// The log itself.
    pub log: L,
    /// The index of the last committed entry.
    pub commit_idx: LogIndex,
}

/// Hands out, one by one and in index order, the committed entries that were not handed
/// out before. Each entry is taken from the log when it is asked for, so that an entry that
/// is never asked for stays with the log.
pub struct CommittedIter<'a, L> {
    /// The log state that the entries are taken from.
    pub log: &'a mut LogState<L>,
}

impl<L: Log> LogState<L> {
    /// The log held.
    pub open spec fn inner(&self) -> L {
        self.log
    }

    /// The index of the last committed entry.
    pub open spec fn commit(&self) -> LogIndex {
        self.commit_idx
    }

    /// The abstract value of the log held.
    pub open spec fn model(&self) -> LogView {
        self.inner().model()
    }

    /// The entries that the log held is bound to take.
    pub open spec fn room(&self) -> Set<EntryView> {
        self.inner().room()
    }

    /// Whether the log held is bound to let go of entries that were not taken.
    pub open spec fn cuts(&self) -> bool {
        self.inner().cuts()
    }

    /// The log's invariant holds, and the commit index lies between the last taken and the
    /// last index.
    pub open spec fn wf(&self) -> bool {
        &&& self.inner().inv()
        &&& self.model().last_taken <= self.commit().id <= self.model().last_index()
    }

    /// A well-formed state has a well-formed log.
    pub proof fn wf_gives_model_wf(&self)
        requires
            self.inner().inv(),
        ensures
            self.model().wf(),
    {
        self.log.inv_gives_wf();
    }

    /// Wraps a log, with nothing committed yet.
    pub fn new(log: L) -> (r: Self)
        requires
            log.inv(),
        ensures
            r.inner() == log,
            r.commit().id == 0,
    {
        LogState { log, commit_idx: LogIndex { id: 0 } }
    }

    /// Appends an entry to the log; the commit index stays.
    pub fn append(&mut self, entry: LogEntry) -> (r: Result<(), L::Error>)
        requires
            old(self).inner().inv(),
        ensures
            final(self).inner().inv(),
            final(self).commit() == old(self).commit(),
            old(self).room().contains(entry@) ==> r is Ok,
            r is Err ==> !final(self).room().contains(entry@),
            r is Ok ==> final(self).model().appended_to(old(self).model(), entry@),
            r is Err ==> final(self).model() == old(self).model(),
            old(self).wf() ==> final(self).wf(),
    {
        self.log.append(entry)
    }

    /// Removes the entry at `from_index` and all after it; the commit index stays.
    pub fn cancel_from(&mut self, from_index: LogIndex) -> (r: Result<usize, L::Error>)
        requires
            old(self).inner().inv(),
        ensures
            final(self).inner().inv(),
            final(self).commit() == old(self).commit(),
            old(self).cuts() && old(self).model().last_taken < from_index.id <= old(
                self,
            ).model().last_index() + 1 ==> r is Ok,
            r is Ok ==> old(self).room().subset_of(final(self).room()),
            r matches Ok(n) ==> old(self).model().last_taken < from_index.id <= old(
                self,
            ).model().last_index() + 1 && n == old(self).model().last_index() + 1 - from_index.id
                && final(self).model() == old(self).model().truncate(from_index.id as int),
            r is Err ==> final(self).model() == old(self).model(),
            !(old(self).model().last_taken < from_index.id <= old(self).model().last_index() + 1)
                ==> r is Err,
            old(self).wf() && from_index.id > old(self).commit().id ==> final(self).wf(),
    {
        self.log.cancel_from(from_index)
    }

    /// The advisory serialized length of an entry.
    pub fn entry_len(&self, entry: &LogEntry) -> (n: usize)
        ensures
            n == L::entry_size(entry@),
    {
        self.log.entry_len(entry)
    }

    /// The entry at `index`, or `None` where none is held; index 0 never holds one.
    pub fn get(&mut self, index: LogIndex) -> (r: Option<LogEntry>)
        requires
            old(self).inner().inv(),
        ensures
            final(self).inner().inv(),
            final(self).model() == old(self).model(),
            final(self).room() == old(self).room(),
            final(self).cuts() == old(self).cuts(),
            final(self).commit() == old(self).commit(),
            r matches Some(e) ==> old(self).model().has(index.id as int) && e@ == old(
                self,
            ).model().entry(index.id as int),
            r is None ==> !old(self).model().has(index.id as int),
    {
        proof {
            self.log.inv_gives_wf();
        }
        if index.id == 0 {
            None
        } else {
            self.log.get(index)
        }
    }

    /// The term known for `index`: the preserved term at index 0 and at `prev_index`, the
    /// term of the entry held there otherwise, `None` where there is neither.
    pub fn get_term(&mut self, index: LogIndex) -> (r: Option<TermId>)
        requires
            old(self).inner().inv(),
        ensures
            final(self).inner().inv(),
            final(self).model() == old(self).model(),
            final(self).room() == old(self).room(),
            final(self).cuts() == old(self).cuts(),
            final(self).commit() == old(self).commit(),
            index.id == 0 ==> r == Some(old(self).model().prev_term),
            index.id != 0 ==> r == old(self).model().term_at(index.id as int),
    {
        proof {
            self.log.inv_gives_wf();
        }
        if index.id == 0 || index.id == self.log.prev_index().id {
            Some(self.log.prev_term())
        } else {
            self.log.get_term(index)
        }
    }

    /// The advisory length of the entry at `index`, or `None` where none is held.
    pub fn get_len(&mut self, index: LogIndex) -> (r: Option<usize>)
        requires
            old(self).inner().inv(),
        ensures
            final(self).inner().inv(),
            final(self).model() == old(self).model(),
            final(self).room() == old(self).room(),
            final(self).cuts() == old(self).cuts(),
            final(self).commit() == old(self).commit(),
            r == (if old(self).model().has(index.id as int) {
                Some(L::entry_size(old(self).model().entry(index.id as int)))
            } else {
                None::<usize>
            }),
    {
        self.log.get_len(index)
    }

    /// The index of the last entry in the log.
    pub fn last_index(&self) -> (r: LogIndex)
        requires
            self.inner().inv(),
        ensures
            r.id == self.model().last_index(),
    {
        self.log.last_index()
    }

    /// The term of the last entry in the log.
    pub fn last_term(&self) -> (r: TermId)
        requires
            self.inner().inv(),
        ensures
            r == self.model().last_term(),
    {
        self.log.last_term()
    }

    /// The log held.
    pub fn log(&self) -> (r: &L)
        ensures
            *r == self.inner(),
    {
        &self.log
    }

    /// The log held, for the host to work on. Whatever the host leaves there is the log from
    /// then on; the commit index stays.
    pub fn log_mut(&mut self) -> (r: &mut L)
        ensures
            *r == old(self).inner(),
            final(self).inner() == *final(r),
            final(self).commit() == old(self).commit(),
    {
        &mut self.log
    }

    /// The index immediately before the first entry held.
    pub fn prev_index(&self) -> (r: LogIndex)
        requires
            self.inner().inv(),
        ensures
            r.id == self.model().prev_index,
    {
        self.log.prev_index()
    }

    /// The term of the entry immediately before the first entry held.
    pub fn prev_term(&self) -> (r: TermId)
        requires
            self.inner().inv(),
        ensures
            r == self.model().prev_term,
    {
        self.log.prev_term()
    }

    /// Takes the next committed entry from the log: the entry after the last taken, as long
    /// as that index is committed. Each entry taken moves the last taken index up by one, so
    /// that no index is handed out twice and the indices come in increasing order.
    pub fn take_next_committed(&mut self) -> (r: Option<LogEntry>)
        requires
            old(self).wf(),
        ensures
            final(self).wf(),
            final(self).model().wf(),
            final(self).commit() == old(self).commit(),
            old(self).model().last_taken < old(self).commit().id ==> r is Some
                && r->0@ == old(self).model().entry(old(self).model().last_taken + 1)
                && final(self).model() == old(self).model().take(),
            old(self).model().last_taken >= old(self).commit().id ==> r is None
                && final(self).model() == old(self).model(),
    {
        proof {
            self.log.inv_gives_wf();
        }
        let r = if self.log.last_taken_index().id < self.commit_idx.id {
            self.log.take_next()
        } else {
            None
        };
        proof {
            self.log.inv_gives_wf();
        }
        r
    }

    /// Starts handing out the committed entries that were not handed out before. The value
    /// returned works on this log state, which is as the value leaves it from then on.
    pub fn take_committed(&mut self) -> (r: CommittedIter<'_, L>)
        ensures
            *r.log == *old(self),
            *final(self) == *final(r.log),
    {
        CommittedIter { log: self }
    }
}

impl<'a, L: Log> CommittedIter<'a, L> {
    /// Hands out the next committed entry: the entry after the last taken, as long as that
    /// index is committed, and `None` from then on. Each entry handed out moves the last
    /// taken index of the log up by one.
    pub fn next(&mut self) -> (r: Option<LogEntry>)
        requires
            old(self).log.wf(),
        ensures
            final(self).log.wf(),
            final(self).log.model().wf(),
            *final(final(self).log) == *final(old(self).log),
            final(self).log.commit() == old(self).log.commit(),
            old(self).log.model().last_taken < old(self).log.commit().id ==> r is Some && r->0@
                == old(self).log.model().entry(old(self).log.model().last_taken + 1)
                && final(self).log.model() == old(self).log.model().take(),
            old(self).log.model().last_taken >= old(self).log.commit().id ==> r is None
                && final(self).log.model() == old(self).log.model(),
    {
        self.log.take_next_committed()
    }

    /// The exact number of entries still to come, as lower and upper bound, as far as a
    /// `usize` holds it.
    pub fn size_hint(&self) -> (r: (usize, Option<usize>))
        requires
            old(self.log).wf(),
        ensures
            r.0 == (if old(self.log).commit().id - old(self.log).model().last_taken
                <= usize::MAX {
                old(self.log).commit().id - old(self.log).model().last_taken
            } else {
                usize::MAX as int
            }),
            r.1 == Some(r.0),
    {
        let remaining = self.log.commit_idx.id - self.log.log.last_taken_index().id;
        let remaining = if remaining <= usize::MAX as u64 {
            remaining as usize
        } else {
            usize::MAX
        };
        (remaining, Some(remaining))
    }
}

} // verus!
