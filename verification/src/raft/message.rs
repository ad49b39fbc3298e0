//! Message types exchanged between Raft nodes, and the log entry they carry.

use bytes::Bytes;
use vstd::prelude::*;

verus! {

/// `bytes::Bytes`, an immutable shared byte buffer. Verus sees nothing inside it; its contents
/// go by the name [`bytes_contents`].
#[verifier::external_type_specification]
#[verifier::external_body]
pub struct ExBytes(Bytes);

/// The bytes that a `Bytes` value holds, in order.
pub uninterp spec fn bytes_contents(b: Bytes) -> Seq<u8>;

/// `Bytes::len` returns the number of bytes held.
pub assume_specification[ Bytes::len ](b: &Bytes) -> (n: usize)
    ensures
        n == bytes_contents(*b).len(),
;

/// `Bytes::new` returns a buffer that holds no bytes.
pub assume_specification[ Bytes::new ]() -> (b: Bytes)
    ensures
        bytes_contents(b) == Seq::<u8>::empty(),
;

/// Cloning a `Bytes` yields a handle on the same bytes.
pub assume_specification[ <Bytes as Clone>::clone ](b: &Bytes) -> (c: Bytes)
    ensures
        bytes_contents(c) == bytes_contents(*b),
;

/// The identifier of a term of group leadership; terms only ever grow.
#[derive(Clone, Copy, Debug, Default, PartialEq, Eq, Structural, Hash, PartialOrd, Ord)]
pub struct TermId {
    /// The non-negative integer assigned to this term.
    pub id: u64,
}

/// A 1-based position in the replicated log; 0 stands for "before the first entry".
#[derive(Clone, Copy, Debug, Default, PartialEq, Eq, Structural, Hash, PartialOrd, Ord)]
pub struct LogIndex {
    /// The integer representing this log index.
    pub id: u64,
}

/// An entry of the replicated log.
#[derive(Debug, PartialEq, Eq)]
pub struct LogEntry {
    /// The term of leadership of the node which appended this entry.
    pub term: TermId,
    /// Arbitrary data associated with the entry; empty for the no-op a new leader appends.
    pub data: Bytes,
}

/// The abstract value of a [`LogEntry`]: its term and its bytes.
pub struct EntryView {
    pub term: TermId,
    pub data: Seq<u8>,
}

/// A request to obtain leadership.
#[derive(Clone, Copy, Debug, Default, PartialEq, Eq, Structural)]
pub struct VoteRequest {
    /// The index of the last entry in the candidate's log.
    pub last_log_idx: LogIndex,
    /// The term of the last entry in the candidate's log.
    pub last_log_term: TermId,
}

/// The answer to a [`VoteRequest`].
#[derive(Clone, Copy, Debug, Default, PartialEq, Eq, Structural)]
pub struct VoteResponse {
    /// Whether the vote was granted.
    pub vote_granted: bool,
}

/// A request to append entries to a follower's log; with no entries, a heartbeat or a probe.
#[derive(Clone, Debug, Default, PartialEq, Eq)]
pub struct AppendRequest {
    /// The index immediately before that of the first entry in `entries`.
    pub prev_log_idx: LogIndex,
    /// The term of the entry at `prev_log_idx` in the sender's log.
    pub prev_log_term: TermId,
    /// The last index that the sender knows to be committed.
    pub leader_commit: LogIndex,
    /// Consecutive entries to append.
    pub entries: Vec<LogEntry>,
}

/// The abstract value of an [`AppendRequest`].
pub struct AppendRequestView {
    pub prev_log_idx: LogIndex,
    pub prev_log_term: TermId,
    pub leader_commit: LogIndex,
    pub entries: Seq<EntryView>,
}

/// The answer to an [`AppendRequest`].
#[derive(Clone, Copy, Debug, Default, PartialEq, Eq, Structural)]
pub struct AppendResponse {
    /// Whether the request was accepted.
    pub success: bool,
    /// On success the last index known to match the sender's log, otherwise the index before
    /// the responder's first live entry.
    pub match_idx: LogIndex,
    /// The last index in the responder's log.
    pub last_log_idx: LogIndex,
}

/// The remote procedure call that a [`Message`] carries.
#[derive(Clone, Debug, PartialEq, Eq)]
pub enum Rpc {
    /// A request to obtain leadership.
    VoteRequest(VoteRequest),
    /// The answer to a vote request.
    VoteResponse(VoteResponse),
    /// A request to append entries.
    AppendRequest(AppendRequest),
    /// The answer to an append request.
    AppendResponse(AppendResponse),
}

/// The abstract value of an [`Rpc`].
pub enum RpcView {
    VoteRequest(VoteRequest),
    VoteResponse(VoteResponse),
    AppendRequest(AppendRequestView),
    AppendResponse(AppendResponse),
}

/// A message between two nodes. It names no sender: the transport tells the receiver who sent it.
#[derive(Clone, Debug, Default, PartialEq, Eq)]
pub struct Message {
    /// The greatest term that the sender has seen.
    pub term: TermId,
    /// The call carried; `None` only where a wire format left it out.
    pub rpc: Option<Rpc>,
}

/// The abstract value of a [`Message`].
pub struct MessageView {
    pub term: TermId,
    pub rpc: Option<RpcView>,
}

/// Where a [`SendableMessage`] goes.
#[derive(Clone, Copy, Debug, PartialEq, Eq, Structural)]
pub enum MessageDestination {
    /// To every known peer.
    Broadcast,
    /// To one peer.
    To(u64),
}

/// A [`Message`] with its destination.
#[derive(Clone, Debug, PartialEq, Eq)]
pub struct SendableMessage {
    /// The message to be sent.
    pub message: Message,
    /// The destination for the message.
    pub dest: MessageDestination,
}

/// The abstract value of a [`SendableMessage`].
pub struct SendableView {
    pub message: MessageView,
    pub dest: MessageDestination,
}

impl TermId {
    /// Advances the term by `rhs`. A term that would pass `u64::MAX` is a programming error,
    /// so such a call is not allowed.
    pub fn add_assign(&mut self, rhs: u64)
        requires
            old(self).id + rhs <= u64::MAX,
        ensures
            final(self).id == old(self).id + rhs,
    {
        self.id = self.id + rhs;
    }
}

impl LogIndex {
    /// Subtracts `dec`, or returns `None` when the result would fall below zero.
    pub fn checked_sub(self, dec: u64) -> (r: Option<LogIndex>)
        ensures
            self.id >= dec ==> r == Some(LogIndex { id: (self.id - dec) as u64 }),
            self.id < dec ==> r is None,
    {
        if self.id >= dec {
            Some(LogIndex { id: self.id - dec })
        } else {
            None
        }
    }

    /// The index `inc` places further on. The sum has to fit.
    pub fn plus(self, inc: u64) -> (r: LogIndex)
        requires
            self.id + inc <= u64::MAX,
        ensures
            r.id == self.id + inc,
    {
        LogIndex { id: self.id + inc }
    }

    /// The index `dec` places back, stopping at 0.
    pub fn minus(self, dec: u64) -> (r: LogIndex)
        ensures
            r.id == (if self.id >= dec { self.id - dec } else { 0 }),
    {
        if self.id >= dec {
            LogIndex { id: self.id - dec }
        } else {
            LogIndex { id: 0 }
        }
    }
}

impl View for LogEntry {
    type V = EntryView;

    open spec fn view(&self) -> EntryView {
        EntryView { term: self.term, data: bytes_contents(self.data) }
    }
}

impl Clone for LogEntry {
    fn clone(&self) -> (r: Self)
        ensures
            r@ == self@,
    {
        LogEntry { term: self.term, data: self.data.clone() }
    }
}

impl Default for LogEntry {
    fn default() -> (r: Self)
        ensures
            r@ == (EntryView { term: TermId { id: 0 }, data: Seq::<u8>::empty() }),
    {
        LogEntry { term: TermId { id: 0 }, data: Bytes::new() }
    }
}

/// The views of a sequence of entries, one for one.
pub open spec fn entry_views(entries: Seq<LogEntry>) -> Seq<EntryView> {
    entries.map_values(|e: LogEntry| e@)
}

impl View for AppendRequest {
    type V = AppendRequestView;

    open spec fn view(&self) -> AppendRequestView {
        AppendRequestView {
            prev_log_idx: self.prev_log_idx,
            prev_log_term: self.prev_log_term,
            leader_commit: self.leader_commit,
            entries: entry_views(self.entries@),
        }
    }
}

impl View for Rpc {
    type V = RpcView;

    open spec fn view(&self) -> RpcView {
        match *self {
            Rpc::VoteRequest(r) => RpcView::VoteRequest(r),
            Rpc::VoteResponse(r) => RpcView::VoteResponse(r),
            Rpc::AppendRequest(r) => RpcView::AppendRequest(r@),
            Rpc::AppendResponse(r) => RpcView::AppendResponse(r),
        }
    }
}

impl View for Message {
    type V = MessageView;

    open spec fn view(&self) -> MessageView {
        MessageView {
            term: self.term,
            rpc: match self.rpc {
                Some(rpc) => Some(rpc@),
                None => None,
            },
        }
    }
}

impl View for SendableMessage {
    type V = SendableView;

    open spec fn view(&self) -> SendableView {
        SendableView { message: self.message@, dest: self.dest }
    }
}

} // verus!
