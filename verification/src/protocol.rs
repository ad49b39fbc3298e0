//! The Redis serialization protocol (RESP): the values it carries and the errors of parsing.

use vstd::prelude::*;

pub mod error;
pub mod parser;

verus! {

/// The number of bytes that stand for the nil value after the `$`.
pub const NIL_VALUE_SIZE: usize = 4;

/// Carriage return.
pub const CR: u8 = 13;

/// Line feed.
pub const LF: u8 = 10;

/// A value of the protocol, borrowing its bytes from the input.
#[derive(Debug, PartialEq, Eq)]
pub enum Resp<'a> {
    /// A simple string: the bytes after `+` up to the line end.
    String(&'a [u8]),
    /// An error: the bytes after `-` up to the line end.
    Error(&'a [u8]),
    /// An integer: the bytes after `:` up to the line end, not interpreted.
    Integer(&'a [u8]),
    /// A bulk string: as many bytes as the length after `$` says.
    BulkString(&'a [u8]),
    /// An array: as many values as the count after `*` says.
    Array(Vec<Resp<'a>>),
    /// The nil value, `$-1`.
    Nil,
}

/// A value of the protocol under its former name.
pub type RESP<'a> = Resp<'a>;

/// The abstract value of a [`Resp`].
pub enum RespView {
    String(Seq<u8>),
    Error(Seq<u8>),
    Integer(Seq<u8>),
    BulkString(Seq<u8>),
    Array(Seq<RespView>),
    Nil,
}

/// The view of a value.
pub open spec fn resp_view(value: Resp) -> RespView
    decreases value,
{
    match value {
        Resp::String(bytes) => RespView::String(bytes@),
        Resp::Error(bytes) => RespView::Error(bytes@),
        Resp::Integer(bytes) => RespView::Integer(bytes@),
        Resp::BulkString(bytes) => RespView::BulkString(bytes@),
        Resp::Array(items) => RespView::Array(resp_views(items@)),
        Resp::Nil => RespView::Nil,
    }
}

/// The views of a sequence of values, one for one.
pub open spec fn resp_views(values: Seq<Resp>) -> Seq<RespView>
    decreases values,
{
    if values.len() == 0 {
        Seq::empty()
    } else {
        resp_views(values.drop_last()).push(resp_view(values.last()))
    }
}

} // verus!
