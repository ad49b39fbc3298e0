//! A log kept in memory, bounded by the total size of the entry data it holds.

use crate::raft::log::{Log, LogView};
use crate::raft::message::{entry_views, EntryView, LogEntry, LogIndex, TermId};
use std::collections::VecDeque;
use vstd::prelude::*;

verus! {

/// The summed data length of a sequence of entries.
pub open spec fn total_len(entries: Seq<EntryView>) -> nat
    decreases entries.len(),
{
    if entries.len() == 0 {
        0
    } else {
        total_len(entries.drop_last()) + entries.last().data.len()
    }
}

/// Dropping the first entry lowers the total by that entry's length.
pub proof fn total_len_skip_first(entries: Seq<EntryView>)
    requires
        entries.len() > 0,
    ensures
        total_len(entries.skip(1)) + entries[0].data.len() == total_len(entries),
    decreases entries.len(),
{
    if entries.len() == 1 {
        assert(entries.skip(1).len() == 0);
        assert(entries.drop_last().len() == 0);
        assert(total_len(entries.drop_last()) == 0);
        assert(entries.last() == entries[0]);
    } else {
        total_len_skip_first(entries.drop_last());
        assert(entries.skip(1).drop_last() =~= entries.drop_last().skip(1));
        assert(entries.skip(1).last() == entries.last());
        assert(entries.drop_last()[0] == entries[0]);
        assert(entries.skip(1).len() > 0);
    }
}

/// How many entries have to leave the front of `log` before `need` more bytes fit in
/// `capacity`, counting from `n` entries already gone, as far as taken entries reach.
pub open spec fn evictions(log: LogView, capacity: nat, need: nat, n: int) -> int
    decreases log.entries.len() - n,
{
    if 0 <= n < log.entries.len() && total_len(log.entries.skip(n)) + need > capacity
        && log.prev_index + n < log.last_taken {
        evictions(log, capacity, need, n + 1)
    } else {
        n
    }
}

/// Whether `need` more bytes of entry data go into `log`, which holds at most `capacity`
/// bytes of it: the next index leaves one after it, the data fits the capacity by itself,
/// and discarding taken entries makes room for it.
pub open spec fn fits(log: LogView, capacity: nat, need: nat) -> bool {
    &&& log.last_index() + 1 < u64::MAX
    &&& need <= capacity
    &&& total_len(log.entries.skip(evictions(log, capacity, need, 0))) + need <= capacity
}

/// The first entries of a sequence have no more data than all of them.
pub proof fn total_len_take(entries: Seq<EntryView>, m: int)
    requires
        0 <= m <= entries.len(),
    ensures
        total_len(entries.take(m)) <= total_len(entries),
    decreases entries.len(),
{
    if m == entries.len() {
        assert(entries.take(m) =~= entries);
    } else {
        total_len_take(entries.drop_last(), m);
        assert(entries.drop_last().take(m) =~= entries.take(m));
    }
}

/// Where the data fits once entries left the front of a log, counting from `n` entries
/// already gone, it also fits so once the log was cut at `from`.
proof fn lemma_evictions_after_cut(log: LogView, capacity: nat, need: nat, from: int, n: int)
    requires
        log.wf(),
        log.last_taken < from <= log.last_index() + 1,
        0 <= n <= log.last_taken - log.prev_index,
        total_len(log.entries.skip(evictions(log, capacity, need, n))) + need <= capacity,
    ensures
        total_len(
            log.truncate(from).entries.skip(evictions(log.truncate(from), capacity, need, n)),
        ) + need <= capacity,
    decreases log.last_taken - log.prev_index - n,
{
    let cut = log.truncate(from);
    let m = from - log.prev_index - 1;
    assert(cut.entries.skip(n) =~= log.entries.skip(n).take(m - n));
    total_len_take(log.entries.skip(n), m - n);
    if 0 <= n < log.entries.len() && total_len(log.entries.skip(n)) + need > capacity
        && log.prev_index + n < log.last_taken {
        if total_len(cut.entries.skip(n)) + need > capacity {
            lemma_evictions_after_cut(log, capacity, need, from, n + 1);
        }
    }
}

/// Cutting entries off the end of a log takes no room away: data that fitted before fits
/// afterwards.
pub proof fn lemma_fits_after_cut(log: LogView, capacity: nat, need: nat, from: int)
    requires
        log.wf(),
        log.last_taken < from <= log.last_index() + 1,
        fits(log, capacity, need),
    ensures
        fits(log.truncate(from), capacity, need),
{
    lemma_evictions_after_cut(log, capacity, need, from, 0);
}

/// A log kept in memory. Entries that were taken are discarded from the front when the data
/// of a new entry would not fit otherwise.
pub struct InMemoryLog {
    entries: VecDeque<LogEntry>,
    prev_log_idx: LogIndex,
    prev_log_term: TermId,
    last_taken: LogIndex,
    data_len: usize,
    data_capacity: usize,
}

impl InMemoryLog {
    /// The most bytes of entry data that the log holds at a time.
    pub closed spec fn capacity(&self) -> nat {
        self.data_capacity as nat
    }

    /// Constructs an empty log with unbounded capacity.
    pub fn new_unbounded() -> (r: Self)
        ensures
            r.inv(),
            r.model() == LogView::empty(),
            r.capacity() == usize::MAX,
    {
        Self::with_capacity(0, usize::MAX)
    }

    /// Constructs an empty log that holds at most `data_capacity` bytes of entry data, with
    /// room set aside for `initial_entries_capacity` entries.
    pub fn with_capacity(initial_entries_capacity: usize, data_capacity: usize) -> (r: Self)
        ensures
            r.inv(),
            r.model() == LogView::empty(),
            r.capacity() == data_capacity,
    {
        let r = InMemoryLog {
            entries: VecDeque::with_capacity(initial_entries_capacity),
            prev_log_idx: LogIndex { id: 0 },
            prev_log_term: TermId { id: 0 },
            last_taken: LogIndex { id: 0 },
            data_len: 0,
            data_capacity,
        };
        assert(entry_views(r.entries@) =~= Seq::<EntryView>::empty());
        r
    }

    /// The position in `entries` of the entry at `log_idx`, if that index lies after
    /// `prev_index`.
    fn entry_index(&self, log_idx: LogIndex) -> (r: Option<usize>)
        ensures
            log_idx.id > self.prev_log_idx.id && log_idx.id - self.prev_log_idx.id - 1
                <= usize::MAX ==> r == Some((log_idx.id - self.prev_log_idx.id - 1) as usize),
            !(log_idx.id > self.prev_log_idx.id && log_idx.id - self.prev_log_idx.id - 1
                <= usize::MAX) ==> r is None,
    {
        if log_idx.id > self.prev_log_idx.id {
            let d: u64 = log_idx.id - self.prev_log_idx.id - 1;
            if d <= usize::MAX as u64 {
                Some(d as usize)
            } else {
                None
            }
        } else {
            None
        }
    }

    /// Discards the first entry, which must have been taken, and keeps its term.
    fn pop_front(&mut self) -> (r: Result<(), ()>)
        requires
            old(self).inv(),
        ensures
            final(self).inv(),
            final(self).capacity() == old(self).capacity(),
            old(self).model().prev_index < old(self).model().last_taken ==> r is Ok
                && final(self).model() == old(self).model().evict(1),
            old(self).model().prev_index >= old(self).model().last_taken ==> r is Err
                && final(self).model() == old(self).model(),
    {
        if self.last_taken.id <= self.prev_log_idx.id {
            return Err(());
        }
        let ghost before = self.entries@;
        match self.entries.pop_front() {
            None => Err(()),
            Some(prev_log) => {
                proof {
                    total_len_skip_first(entry_views(before));
                    assert(entry_views(self.entries@) =~= entry_views(before).skip(1));
                }
                self.data_len = self.data_len - prev_log.data.len();
                self.prev_log_idx = LogIndex { id: self.prev_log_idx.id + 1 };
                self.prev_log_term = prev_log.term;
                Ok(())
            },
        }
    }
}

impl Log for InMemoryLog {
    type Error = ();

    closed spec fn model(&self) -> LogView {
        LogView {
            prev_index: self.prev_log_idx.id as int,
            prev_term: self.prev_log_term,
            entries: entry_views(self.entries@),
            last_taken: self.last_taken.id as int,
        }
    }

    closed spec fn inv(&self) -> bool {
        &&& self.model().wf()
        &&& self.data_len == total_len(self.model().entries)
        &&& self.data_len <= self.data_capacity
    }

    open spec fn entry_size(entry: EntryView) -> usize {
        if 4 + entry.data.len() <= usize::MAX {
            (4 + entry.data.len()) as usize
        } else {
            usize::MAX
        }
    }

    /// The log has room for every entry whose data fits.
    open spec fn room(&self) -> Set<EntryView> {
        Set::new(|entry: EntryView| fits(self.model(), self.capacity(), entry.data.len()))
    }

    /// The log never refuses to let go of entries that were not taken.
    open spec fn cuts(&self) -> bool {
        true
    }

    proof fn entry_size_positive(entry: EntryView) {
    }

    proof fn inv_gives_wf(&self) {
    }

    /// Succeeds exactly when the data of the entry fits. No more entries are discarded than
    /// needed, and none where the entry is refused.
    #[verifier::rlimit(50)]
    fn append(&mut self, log_entry: LogEntry) -> (r: Result<(), ()>)
        ensures
            final(self).capacity() == old(self).capacity(),
            r is Ok <==> fits(old(self).model(), old(self).capacity(), log_entry@.data.len()),
            r is Ok ==> final(self).model().prev_index == old(self).model().prev_index
                + evictions(old(self).model(), old(self).capacity(), log_entry@.data.len(), 0),
    {
        let need = log_entry.data.len();
        let ghost pre = self.model();
        let ghost cap = self.capacity();
        assert(pre.entries.skip(0) =~= pre.entries);
        assert(pre.evict(0) == pre);
        if self.last_index().id >= u64::MAX - 1 || need > self.data_capacity {
            return Err(());
        }
        let len = self.entries.len();
        let mut count: usize = 0;
        let mut freed: usize = 0;
        while self.data_len - freed > self.data_capacity - need
            invariant
                self.inv(),
                self.model() == pre,
                pre == old(self).model(),
                cap == self.data_capacity,
                cap == old(self).capacity(),
                need == log_entry@.data.len(),
                need <= cap,
                pre.last_index() + 1 < u64::MAX,
                len == self.entries@.len(),
                len == pre.entries.len(),
                pre.wf(),
                0 <= count <= pre.last_taken - pre.prev_index,
                count <= len,
                freed <= self.data_len,
                self.data_len - freed == total_len(pre.entries.skip(count as int)),
                evictions(pre, cap, need as nat, 0) == evictions(pre, cap, need as nat, count as int),
            decreases len - count,
        {
            if count >= len || self.last_taken.id - self.prev_log_idx.id <= count as u64 {
                assert(evictions(pre, cap, need as nat, count as int) == count);
                return Err(());
            }
            assert(evictions(pre, cap, need as nat, count as int) == evictions(
                pre,
                cap,
                need as nat,
                count + 1,
            ));
            proof {
                total_len_skip_first(pre.entries.skip(count as int));
                assert(pre.entries.skip(count as int).skip(1) =~= pre.entries.skip(count + 1));
                assert(pre.entries.skip(count as int)[0] == self.entries@[count as int]@);
            }
            freed = freed + self.entries[count].data.len();
            count = count + 1;
        }
        assert(evictions(pre, cap, need as nat, count as int) == count);
        let mut gone: usize = 0;
        while gone < count
            invariant
                self.inv(),
                self.capacity() == cap,
                pre.wf(),
                0 <= gone <= count <= pre.last_taken - pre.prev_index,
                self.model() == pre.evict(gone as int),
            decreases count - gone,
        {
            match self.pop_front() {
                Ok(()) => {
                    proof {
                        assert(pre.evict(gone as int).evict(1) =~= pre.evict(gone + 1)) by {
                            assert(pre.entries.skip(gone as int).skip(1) =~= pre.entries.skip(
                                gone + 1,
                            ));
                        }
                    }
                    gone = gone + 1;
                },
                Err(()) => {},
            }
        }
        self.data_len = self.data_len + need;
        let ghost before = self.entries@;
        self.entries.push_back(log_entry);
        proof {
            assert(entry_views(self.entries@) =~= entry_views(before).push(log_entry@));
            assert(entry_views(self.entries@).drop_last() =~= entry_views(before));
        }
        Ok(())
    }

    /// Succeeds exactly when `from_log_idx` lies after the last taken entry and at most one
    /// past the end.
    #[verifier::rlimit(50)]
    fn cancel_from(&mut self, from_log_idx: LogIndex) -> (r: Result<usize, ()>)
        ensures
            old(self).model().last_taken < from_log_idx.id <= old(self).model().last_index() + 1
                ==> r is Ok,
            final(self).capacity() == old(self).capacity(),
    {
        let len = self.entries.len();
        if from_log_idx.id <= self.last_taken.id {
            return Err(());
        }
        let from_index = match self.entry_index(from_log_idx) {
            Some(from_index) => from_index,
            None => {
                return Err(());
            },
        };
        if from_index > len {
            return Err(());
        }
        let cancelled_len = len - from_index;
        let ghost pre = self.model();
        assert(pre.entries.take(len as int) =~= pre.entries);
        while self.entries.len() > from_index
            invariant
                self.inv(),
                self.capacity() == old(self).capacity(),
                pre == old(self).model(),
                from_index <= self.entries@.len() <= pre.entries.len(),
                from_index == from_log_idx.id - pre.prev_index - 1,
                pre.last_taken < from_log_idx.id,
                self.model() == (LogView {
                    entries: pre.entries.take(self.entries@.len() as int),
                    ..pre
                }),
            decreases self.entries@.len(),
        {
            let ghost before = self.entries@;
            match self.entries.pop_back() {
                Some(entry) => {
                    proof {
                        assert(entry_views(self.entries@) =~= entry_views(before).drop_last());
                        assert(entry_views(before).last() == entry@);
                        assert(entry_views(self.entries@) =~= pre.entries.take(
                            self.entries@.len() as int,
                        ));
                    }
                    self.data_len = self.data_len - entry.data.len();
                },
                None => {},
            }
        }
        proof {
            assert(self.model() == pre.truncate(from_log_idx.id as int));
            assert forall|entry: EntryView| old(self).room().contains(entry) implies self.room().contains(
                entry,
            ) by {
                lemma_fits_after_cut(
                    pre,
                    self.capacity(),
                    entry.data.len(),
                    from_log_idx.id as int,
                );
            }
        }
        Ok(cancelled_len)
    }

    fn entry_len(&self, log_entry: &LogEntry) -> (n: usize) {
        let len = log_entry.data.len();
        if len <= usize::MAX - 4 {
            4 + len
        } else {
            usize::MAX
        }
    }

    fn get(&mut self, log_idx: LogIndex) -> (r: Option<LogEntry>) {
        let len = self.entries.len();
        match self.entry_index(log_idx) {
            Some(index) => {
                if index < len {
                    Some(self.entries[index].clone())
                } else {
                    None
                }
            },
            None => None,
        }
    }

    /// At `prev_index` the answer is the preserved term.
    fn get_term(&mut self, log_idx: LogIndex) -> (r: Option<TermId>)
        ensures
            r == old(self).model().term_at(log_idx.id as int),
    {
        if log_idx.id != self.prev_log_idx.id {
            match self.get(log_idx) {
                Some(log_entry) => Some(log_entry.term),
                None => None,
            }
        } else {
            Some(self.prev_log_term)
        }
    }

    fn get_len(&mut self, log_idx: LogIndex) -> (r: Option<usize>) {
        match self.get(log_idx) {
            Some(log_entry) => Some(self.entry_len(&log_entry)),
            None => None,
        }
    }

    fn prev_index(&self) -> (r: LogIndex) {
        self.prev_log_idx
    }

    fn last_index(&self) -> (r: LogIndex) {
        LogIndex { id: self.prev_log_idx.id + self.entries.len() as u64 }
    }

    fn last_taken_index(&self) -> (r: LogIndex) {
        self.last_taken
    }

    fn last_term(&self) -> (r: TermId) {
        if self.entries.len() == 0 {
            self.prev_log_term
        } else {
            self.entries[self.entries.len() - 1].term
        }
    }

    fn prev_term(&self) -> (r: TermId) {
        self.prev_log_term
    }

    fn take_next(&mut self) -> (r: Option<LogEntry>) {
        if self.last_taken.id >= self.last_index().id {
            return None;
        }
        let log_idx = LogIndex { id: self.last_taken.id + 1 };
        match self.get(log_idx) {
            Some(log_entry) => {
                self.last_taken = log_idx;
                Some(log_entry)
            },
            None => None,
        }
    }
}

} // verus!
