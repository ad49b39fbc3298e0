//! An embeddable Redis-compatible store: the Raft engine that replicates its log, and the
//! parser of the Redis serialization protocol.

pub mod protocol;
pub mod raft;
