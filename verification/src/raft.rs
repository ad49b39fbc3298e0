//! Raft consensus as a deterministic state machine.
//!
//! A node is driven by three kinds of events: a client asks to append an entry, a message
//! arrives from a peer, or the timer ticks. Each event may change the node and returns the
//! messages that the host has to send; the engine itself performs no I/O.
//!
//! [`node`] is what a host works with, over the state machine of [`state`], the messages of
//! [`message`] and the log storage of [`log`]. [`laws`] states what holds of every node
//! whatever the events; [`group`] and [`safety`] follow a whole group of nodes through its
//! steps and prove that no term sees two leaders and that the nodes agree on what is
//! committed.

pub mod group;
pub mod laws;
pub mod log;
pub mod message;
pub mod node;
pub mod ordered;
pub mod safety;
pub mod state;
