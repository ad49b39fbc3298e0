//! The parser of the protocol: a function from bytes to a value and the bytes left over.

use crate::protocol::error::{RedisError, RedisErrorType};
use crate::protocol::{resp_view, resp_views, Resp, RespView, CR, LF, NIL_VALUE_SIZE};
use vstd::prelude::*;
use vstd::slice::slice_subrange;

verus! {

/// The parser of the protocol.
pub struct RedisProtocolParser;

/// Whether a line end stands at position `i` of `s`.
pub open spec fn crlf_at(s: Seq<u8>, i: int) -> bool {
    0 <= i && i + 1 < s.len() && s[i] == CR && s[i + 1] == LF
}

/// The position of the first line end of `s` at or after `from`, or -1 where there is none.
pub open spec fn first_crlf(s: Seq<u8>, from: int) -> int
    decreases s.len() - from,
{
    if from < 0 || from + 1 >= s.len() {
        -1
    } else if crlf_at(s, from) {
        from
    } else {
        first_crlf(s, from + 1)
    }
}

/// The number that the decimal digits `digits` stand for, from position `i` on, after the
/// digits before gave `acc`; `None` where a byte is no digit or the number passes 64 bits.
pub open spec fn digits_value(digits: Seq<u8>, i: int, acc: int) -> Option<u64>
    decreases digits.len() - i,
{
    if i < 0 || i >= digits.len() {
        if acc <= u64::MAX {
            Some(acc as u64)
        } else {
            None
        }
    } else if 48 <= digits[i] <= 57 && acc * 10 + (digits[i] - 48) <= u64::MAX {
        digits_value(digits, i + 1, acc * 10 + (digits[i] - 48))
    } else {
        None
    }
}

/// The number that `text` stands for in decimal: an optional `+` and at least one digit,
/// of a value that fits 64 bits.
pub open spec fn decimal(text: Seq<u8>) -> Option<u64> {
    let start: int = if text.len() > 0 && text[0] == 43 {
        1
    } else {
        0
    };
    if text.len() <= start {
        None
    } else {
        digits_value(text, start, 0)
    }
}

/// Whether `input` starts with the nil value's `-1` and line end.
pub open spec fn is_null_value(input: Seq<u8>) -> bool {
    input.len() >= 4 && input[0] == 45 && input[1] == 49 && input[2] == CR && input[3] == LF
}

/// The value at the start of `input` and the bytes after it, or the error of parsing.
pub open spec fn parse_spec(input: Seq<u8>) -> Result<(RespView, Seq<u8>), RedisErrorType>
    decreases input.len(), 0nat, 0nat,
{
    if input.len() == 0 {
        Err(RedisErrorType::EmptyInput)
    } else {
        let rest = input.skip(1);
        let first = input[0];
        if first == 43 || first == 58 || first == 45 {
            let end = first_crlf(rest, 0);
            if end < 0 {
                Err(RedisErrorType::NoCrlf)
            } else {
                let line = rest.subrange(0, end);
                let left = rest.skip(end + 2);
                Ok(
                    (
                        if first == 43 {
                            RespView::String(line)
                        } else if first == 58 {
                            RespView::Integer(line)
                        } else {
                            RespView::Error(line)
                        },
                        left,
                    ),
                )
            }
        } else if first == 36 {
            if is_null_value(rest) {
                Ok((RespView::Nil, rest.skip(4)))
            } else {
                let end = first_crlf(rest, 0);
                if end < 0 {
                    Err(RedisErrorType::NoCrlf)
                } else {
                    match decimal(rest.subrange(0, end)) {
                        None => Err(RedisErrorType::Other),
                        Some(size) => {
                            let body = rest.skip(end + 2);
                            if crlf_at(body, size as int) {
                                Ok(
                                    (
                                        RespView::BulkString(body.subrange(0, size as int)),
                                        body.skip(size + 2),
                                    ),
                                )
                            } else {
                                Err(RedisErrorType::IncorrectFormat)
                            }
                        },
                    }
                }
            }
        } else if first == 42 {
            let end = first_crlf(rest, 0);
            if end < 0 {
                Err(RedisErrorType::NoCrlf)
            } else {
                let body = rest.skip(end + 2);
                match decimal(rest.subrange(0, end)) {
                    None => Err(RedisErrorType::Other),
                    Some(count) => if body.len() < input.len() {
                        array_of(parse_items_spec(body, count as nat))
                    } else {
                        Err(RedisErrorType::IncorrectFormat)
                    },
                }
            }
        } else {
            Err(RedisErrorType::UnknownSymbol)
        }
    }
}

/// The `count` values at the start of `input` and the bytes after them, or the error of
/// parsing the first that fails.
pub open spec fn parse_items_spec(input: Seq<u8>, count: nat) -> Result<
    (Seq<RespView>, Seq<u8>),
    RedisErrorType,
>
    decreases input.len(), 1nat, count,
{
    if count == 0 {
        Ok((Seq::empty(), input))
    } else {
        match parse_spec(input) {
            Err(e) => Err(e),
            Ok((item, left)) => {
                if left.len() < input.len() {
                    match parse_items_spec(left, (count - 1) as nat) {
                        Ok((items, rest)) => Ok((seq![item] + items, rest)),
                        Err(e) => Err(e),
                    }
                } else {
                    Err(RedisErrorType::IncorrectFormat)
                }
            },
        }
    }
}

/// The result of parsing further values, with the values `done` before them.
pub open spec fn after_items(
    done: Seq<RespView>,
    more: Result<(Seq<RespView>, Seq<u8>), RedisErrorType>,
) -> Result<(Seq<RespView>, Seq<u8>), RedisErrorType> {
    match more {
        Ok((items, rest)) => Ok((done + items, rest)),
        Err(e) => Err(e),
    }
}

/// The array of the values parsed, with the bytes after them.
pub open spec fn array_of(items: Result<(Seq<RespView>, Seq<u8>), RedisErrorType>) -> Result<
    (RespView, Seq<u8>),
    RedisErrorType,
> {
    match items {
        Ok((items, left)) => Ok((RespView::Array(items), left)),
        Err(e) => Err(e),
    }
}

/// The first line end at or after a position lies at or after it, and no line end lies
/// between.
pub proof fn lemma_first_crlf(s: Seq<u8>, from: int)
    requires
        0 <= from,
    ensures
        first_crlf(s, from) == -1 || (from <= first_crlf(s, from) && crlf_at(s, first_crlf(s, from))),
        forall|j: int|
            from <= j && (first_crlf(s, from) == -1 || j < first_crlf(s, from)) ==> !crlf_at(s, j),
    decreases s.len() - from,
{
    if from + 1 < s.len() && !crlf_at(s, from) {
        lemma_first_crlf(s, from + 1);
    }
}

/// Parses the number that `text` stands for in decimal.
pub fn parse_decimal(text: &[u8]) -> (r: Option<u64>)
    ensures
        r == decimal(text@),
{
    let len = text.len();
    let start: usize = if len > 0 && text[0] == 43 {
        1
    } else {
        0
    };
    if len <= start {
        return None;
    }
    let mut acc: u64 = 0;
    let mut i: usize = start;
    while i < len
        invariant
            start <= i <= len,
            start < len,
            len == text@.len(),
            start == (if text@.len() > 0 && text@[0] == 43 {
                1int
            } else {
                0int
            }),
            digits_value(text@, start as int, 0) == digits_value(text@, i as int, acc as int),
        decreases len - i,
    {
        let byte = text[i];
        if byte < 48 || byte > 57 {
            assert(digits_value(text@, i as int, acc as int) is None);
            return None;
        }
        let digit = (byte - 48) as u64;
        if acc > (u64::MAX - digit) / 10 {
            assert(acc * 10 + digit > u64::MAX) by (nonlinear_arith)
                requires
                    acc > (u64::MAX - digit) / 10,
                    digit <= 9,
            ;
            assert(digits_value(text@, i as int, acc as int) is None);
            return None;
        }
        assert(acc * 10 + digit <= u64::MAX) by (nonlinear_arith)
            requires
                acc <= (u64::MAX - digit) / 10,
                digit <= 9,
        ;
        acc = acc * 10 + digit;
        i = i + 1;
    }
    assert(digits_value(text@, i as int, acc as int) == Some(acc));
    Some(acc)
}

impl RedisProtocolParser {
    /// Parses the value at the start of `input`, and returns it with the bytes after it.
    #[verifier::rlimit(50)]
    pub fn parse<'a>(input: &'a [u8]) -> (r: Result<(Resp<'a>, &'a [u8]), RedisError>)
        ensures
            match r {
                Ok((value, left)) => parse_spec(input@) == Ok::<
                    (RespView, Seq<u8>),
                    RedisErrorType,
                >((resp_view(value), left@)) && left@.len() < input@.len(),
                Err(e) => parse_spec(input@) == Err::<(RespView, Seq<u8>), RedisErrorType>(
                    e.err_type,
                ),
            },
        decreases input@.len(), 1nat,
    {
        if input.len() == 0 {
            return Err(RedisError::empty_input());
        }
        let first = input[0];
        let rest = slice_subrange(input, 1, input.len());
        proof {
            assert(rest@ =~= input@.skip(1));
            assert(seq![first] + rest@ =~= input@);
            lemma_first_crlf(rest@, 0);
        }
        if first == 43 {
            Self::parse_simple_string(rest)
        } else if first == 58 {
            Self::parse_integers(rest)
        } else if first == 36 {
            Self::parse_bulk_strings(rest)
        } else if first == 42 {
            Self::parse_arrays(rest)
        } else if first == 45 {
            Self::parse_errors(rest)
        } else {
            Err(RedisError::unknown_symbol())
        }
    }

    /// Splits `input` at its first line end: the bytes before it, and the bytes after it.
    pub fn parse_everything_until_crlf<'a>(input: &'a [u8]) -> (r: Result<
        (&'a [u8], &'a [u8]),
        RedisError,
    >)
        ensures
            match r {
                Ok((line, left)) => {
                    let end = first_crlf(input@, 0);
                    &&& 0 <= end
                    &&& line@ == input@.subrange(0, end)
                    &&& left@ == input@.skip(end + 2)
                },
                Err(e) => first_crlf(input@, 0) == -1 && e.err_type == RedisErrorType::NoCrlf,
            },
    {
        let len = input.len();
        let mut index: usize = 0;
        while len - index > 1
            invariant
                len == input@.len(),
                index <= len,
                first_crlf(input@, 0) == first_crlf(input@, index as int),
            decreases len - index,
        {
            if input[index] == CR && input[index + 1] == LF {
                let line = slice_subrange(input, 0, index);
                let left = slice_subrange(input, index + 2, len);
                assert(left@ =~= input@.skip(index + 2));
                return Ok((line, left));
            }
            index = index + 1;
        }
        Err(RedisError::no_crlf())
    }

    /// Parses a simple string, after its `+`.
    pub fn parse_simple_string<'a>(input: &'a [u8]) -> (r: Result<(Resp<'a>, &'a [u8]), RedisError>)
        ensures
            match r {
                Ok((value, left)) => {
                    let end = first_crlf(input@, 0);
                    &&& 0 <= end
                    &&& resp_view(value) == RespView::String(input@.subrange(0, end))
                    &&& left@ == input@.skip(end + 2)
                },
                Err(e) => first_crlf(input@, 0) == -1 && e.err_type == RedisErrorType::NoCrlf,
            },
    {
        match Self::parse_everything_until_crlf(input) {
            Ok((line, left)) => Ok((Resp::String(line), left)),
            Err(e) => Err(e),
        }
    }

    /// Parses an error, after its `-`.
    pub fn parse_errors<'a>(input: &'a [u8]) -> (r: Result<(Resp<'a>, &'a [u8]), RedisError>)
        ensures
            match r {
                Ok((value, left)) => {
                    let end = first_crlf(input@, 0);
                    &&& 0 <= end
                    &&& resp_view(value) == RespView::Error(input@.subrange(0, end))
                    &&& left@ == input@.skip(end + 2)
                },
                Err(e) => first_crlf(input@, 0) == -1 && e.err_type == RedisErrorType::NoCrlf,
            },
    {
        match Self::parse_everything_until_crlf(input) {
            Ok((line, left)) => Ok((Resp::Error(line), left)),
            Err(e) => Err(e),
        }
    }

    /// Parses an integer, after its `:`. The digits are handed on as they stand.
    pub fn parse_integers<'a>(input: &'a [u8]) -> (r: Result<(Resp<'a>, &'a [u8]), RedisError>)
        ensures
            match r {
                Ok((value, left)) => {
                    let end = first_crlf(input@, 0);
                    &&& 0 <= end
                    &&& resp_view(value) == RespView::Integer(input@.subrange(0, end))
                    &&& left@ == input@.skip(end + 2)
                },
                Err(e) => first_crlf(input@, 0) == -1 && e.err_type == RedisErrorType::NoCrlf,
            },
    {
        match Self::parse_everything_until_crlf(input) {
            Ok((line, left)) => Ok((Resp::Integer(line), left)),
            Err(e) => Err(e),
        }
    }

    /// Parses a bulk string or the nil value, after the `$`.
    #[verifier::rlimit(50)]
    pub fn parse_bulk_strings<'a>(input: &'a [u8]) -> (r: Result<(Resp<'a>, &'a [u8]), RedisError>)
        ensures
            match r {
                Ok((value, left)) => parse_spec(seq![36u8] + input@) == Ok::<
                    (RespView, Seq<u8>),
                    RedisErrorType,
                >((resp_view(value), left@)) && left@.len() < input@.len(),
                Err(e) => parse_spec(seq![36u8] + input@) == Err::<
                    (RespView, Seq<u8>),
                    RedisErrorType,
                >(e.err_type),
            },
    {
        assert((seq![36u8] + input@).skip(1) =~= input@);
        if Self::check_null_value(input) {
            let left = slice_subrange(input, NIL_VALUE_SIZE, input.len());
            assert(left@ =~= input@.skip(4));
            return Ok((Resp::Nil, left));
        }
        let (size_str, input_after_size) = match Self::parse_everything_until_crlf(input) {
            Ok(parts) => parts,
            Err(e) => {
                return Err(e);
            },
        };
        let size = match parse_decimal(size_str) {
            Some(size) => size,
            None => {
                return Err(RedisError::other());
            },
        };
        let after_len = input_after_size.len();
        proof {
            lemma_first_crlf(input@, 0);
        }
        if size <= usize::MAX as u64 && Self::check_crlf_at_index(input_after_size, size as usize) {
            assert(crlf_at(input_after_size@, size as int));
            let value = slice_subrange(input_after_size, 0, size as usize);
            let left = slice_subrange(input_after_size, size as usize + 2, input_after_size.len());
            assert(left@ =~= input_after_size@.skip(size + 2));
            Ok((Resp::BulkString(value), left))
        } else {
            Err(RedisError::incorrect_format())
        }
    }

    /// Whether a line end stands at position `index` of `input`.
    pub fn check_crlf_at_index(input: &[u8], index: usize) -> (r: bool)
        ensures
            r == crlf_at(input@, index as int),
    {
        index < input.len() && input.len() - index > 1 && input[index] == CR && input[index + 1]
            == LF
    }

    /// Whether `input` starts with the nil value's `-1` and line end.
    pub fn check_null_value(input: &[u8]) -> (r: bool)
        ensures
            r == is_null_value(input@),
    {
        input.len() >= 4 && input[0] == 45 && input[1] == 49 && input[2] == CR && input[3] == LF
    }

    /// Parses an array, after its `*`: the count and then as many values.
    #[verifier::rlimit(50)]
    pub fn parse_arrays<'a>(input: &'a [u8]) -> (r: Result<(Resp<'a>, &'a [u8]), RedisError>)
        ensures
            match r {
                Ok((value, left)) => parse_spec(seq![42u8] + input@) == Ok::<
                    (RespView, Seq<u8>),
                    RedisErrorType,
                >((resp_view(value), left@)) && left@.len() < input@.len(),
                Err(e) => parse_spec(seq![42u8] + input@) == Err::<
                    (RespView, Seq<u8>),
                    RedisErrorType,
                >(e.err_type),
            },
        decreases input@.len() + 1, 0nat,
    {
        assert((seq![42u8] + input@).skip(1) =~= input@);
        let (size_str, start) = match Self::parse_everything_until_crlf(input) {
            Ok(parts) => parts,
            Err(e) => {
                return Err(e);
            },
        };
        let size = match parse_decimal(size_str) {
            Some(size) => size,
            None => {
                return Err(RedisError::other());
            },
        };
        proof {
            lemma_first_crlf(input@, 0);
        }
        let mut left = start;
        let mut result: Vec<Resp<'a>> = Vec::new();
        let mut done: u64 = 0;
        assert(resp_views(result@) =~= Seq::<RespView>::empty());
        assert(parse_spec(seq![42u8] + input@) == array_of(parse_items_spec(start@, size as nat)));
        while done < size
            invariant
                done <= size,
                parse_spec(seq![42u8] + input@) == array_of(
                    parse_items_spec(start@, size as nat),
                ),
                left@.len() <= start@.len(),
                start@.len() < input@.len(),
                parse_items_spec(start@, size as nat) == after_items(
                    resp_views(result@),
                    parse_items_spec(left@, (size - done) as nat),
                ),
            decreases size - done,
        {
            let ghost before = result@;
            let ghost here = left@;
            match Self::parse(left) {
                Ok((element, tmp)) => {
                    result.push(element);
                    left = tmp;
                    proof {
                        assert(result@.drop_last() =~= before);
                        let more = parse_items_spec(tmp@, (size - done - 1) as nat);
                        match more {
                            Ok((items, rest)) => {
                                assert(resp_views(before) + (seq![resp_view(element)] + items)
                                    =~= resp_views(result@) + items);
                            },
                            Err(_) => {},
                        }
                    }
                },
                Err(e) => {
                    return Err(e);
                },
            }
            done = done + 1;
        }
        proof {
            assert(resp_views(result@) + Seq::<RespView>::empty() =~= resp_views(result@));
        }
        Ok((Resp::Array(result), left))
    }
}

} // verus!
