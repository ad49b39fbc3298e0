//! Errors of parsing the protocol.

use vstd::prelude::*;

verus! {

/// The kinds of error that parsing reports.
#[derive(Clone, Copy, Debug, PartialEq, Eq, Structural)]
pub enum RedisErrorType {
    /// The input starts with a byte that introduces no value.
    UnknownSymbol,
    /// The input is empty.
    EmptyInput,
    /// A line has no end.
    NoCrlf,
    /// A bulk string is not followed by a line end where its length says.
    IncorrectFormat,
    /// A length or count is not a decimal number that fits 64 bits.
    Other,
}

/// An error of parsing.
#[derive(Clone, Copy, Debug, PartialEq, Eq, Structural)]
pub struct RedisError {
    /// The kind of the error.
    pub err_type: RedisErrorType,
}

impl RedisError {
    /// The input starts with a byte that introduces no value.
    pub fn unknown_symbol() -> (r: Self)
        ensures
            r.err_type == RedisErrorType::UnknownSymbol,
    {
        Self { err_type: RedisErrorType::UnknownSymbol }
    }

    /// The input is empty.
    pub fn empty_input() -> (r: Self)
        ensures
            r.err_type == RedisErrorType::EmptyInput,
    {
        Self { err_type: RedisErrorType::EmptyInput }
    }

    /// A line has no end.
    pub fn no_crlf() -> (r: Self)
        ensures
            r.err_type == RedisErrorType::NoCrlf,
    {
        Self { err_type: RedisErrorType::NoCrlf }
    }

    /// A bulk string is not followed by a line end where its length says.
    pub fn incorrect_format() -> (r: Self)
        ensures
            r.err_type == RedisErrorType::IncorrectFormat,
    {
        Self { err_type: RedisErrorType::IncorrectFormat }
    }

    /// A length or count is not a decimal number that fits 64 bits.
    pub fn other() -> (r: Self)
        ensures
            r.err_type == RedisErrorType::Other,
    {
        Self { err_type: RedisErrorType::Other }
    }
}

} // verus!
