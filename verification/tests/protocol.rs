use redisless::protocol::error::{RedisError, RedisErrorType};
use redisless::protocol::parser::{parse_decimal, RedisProtocolParser};
use redisless::protocol::{Resp, RESP};

#[test]
pub fn mod_test_simple_string() -> std::result::Result<(), RedisError> {
    let input = "+hello\r\n".as_bytes();
    let (resp, left) = RedisProtocolParser::parse(input)?;
    assert_eq!(resp, Resp::String("hello".as_bytes()));
    assert!(left.is_empty());
    Ok(())
}

#[test]
pub fn mod_test_errors() -> std::result::Result<(), RedisError> {
    let input = "+hello".as_bytes();
    let err = RedisProtocolParser::parse(input).unwrap_err();
    assert!(matches!(err.err_type, RedisErrorType::NoCrlf));
    let input = "*2\r\n$3\r\nfoo\r\n)hello".as_bytes();
    let err = RedisProtocolParser::parse(input).unwrap_err();
    assert!(matches!(err.err_type, RedisErrorType::UnknownSymbol));
    let input = "".as_bytes();
    let err = RedisProtocolParser::parse(input).unwrap_err();
    assert!(matches!(err.err_type, RedisErrorType::EmptyInput));
    let input = "$4\r\nfoo\r\n".as_bytes();
    let err = RedisProtocolParser::parse(input).unwrap_err();
    assert!(matches!(err.err_type, RedisErrorType::IncorrectFormat));
    let input = "*2\r\n$3\r\nfoo+hello\r\n".as_bytes();
    let err = RedisProtocolParser::parse(input).unwrap_err();
    assert!(matches!(err.err_type, RedisErrorType::IncorrectFormat));
    Ok(())
}

#[test]
pub fn mod_test_nil() -> std::result::Result<(), RedisError> {
    let input = "$-1\r\n".as_bytes();
    let (resp, left) = RedisProtocolParser::parse(input)?;
    assert_eq!(resp, Resp::Nil);
    assert!(left.is_empty());
    Ok(())
}

#[test]
pub fn mod_test_bulk_string() -> std::result::Result<(), RedisError> {
    let input = "$6\r\nfoobar\r\n".as_bytes();
    let (resp, left) = RedisProtocolParser::parse(input)?;
    assert_eq!(resp, Resp::BulkString("foobar".as_bytes()));
    assert!(left.is_empty());
    let input = "$0\r\n\r\n".as_bytes();
    let (resp, left) = RedisProtocolParser::parse(input)?;
    assert_eq!(resp, Resp::BulkString("".as_bytes()));
    assert!(left.is_empty());
    Ok(())
}

#[test]
pub fn mod_test_arrays() -> std::result::Result<(), RedisError> {
    let input = "*2\r\n$3\r\nfoo\r\n$3\r\nbar\r\n".as_bytes();
    let (resp, left) = RedisProtocolParser::parse(input)?;
    assert_eq!(
        resp,
        Resp::Array(vec![
            Resp::BulkString("foo".as_bytes()),
            Resp::BulkString("bar".as_bytes())
        ])
    );
    assert!(left.is_empty());
    let input = "*5\r\n:1\r\n:2\r\n:3\r\n:4\r\n$6\r\nfoobar\r\n".as_bytes();
    let (resp, left) = RedisProtocolParser::parse(input)?;
    assert_eq!(
        resp,
        Resp::Array(vec![
            Resp::Integer("1".as_bytes()),
            Resp::Integer("2".as_bytes()),
            Resp::Integer("3".as_bytes()),
            Resp::Integer("4".as_bytes()),
            Resp::BulkString("foobar".as_bytes()),
        ])
    );
    assert!(left.is_empty());
    Ok(())
}

#[test]
pub fn mod_test_array_of_arrays() -> std::result::Result<(), RedisError> {
    let input = "*2\r\n*3\r\n:1\r\n:2\r\n:3\r\n*2\r\n+Foo\r\n-Bar\r\n".as_bytes();
    let (resp, left) = RedisProtocolParser::parse(input)?;
    assert_eq!(
        resp,
        Resp::Array(vec![
            Resp::Array(vec![
                Resp::Integer("1".as_bytes()),
                Resp::Integer("2".as_bytes()),
                Resp::Integer("3".as_bytes()),
            ]),
            Resp::Array(vec![
                Resp::String("Foo".as_bytes()),
                Resp::Error("Bar".as_bytes()),
            ]),
        ])
    );
    assert!(left.is_empty());
    Ok(())
}

#[test]
pub fn resp_test_simple_string() -> std::result::Result<(), RedisError> {
    let input = "+hello\r\n".as_bytes();
    let (resp, left) = RedisProtocolParser::parse(input)?;
    assert_eq!(resp, RESP::String("hello".as_bytes()));
    assert!(left.is_empty());
    Ok(())
}

#[test]
pub fn resp_test_errors() -> std::result::Result<(), RedisError> {
    let input = "+hello".as_bytes();
    let err = RedisProtocolParser::parse(input).unwrap_err();
    assert!(matches!(err.err_type, RedisErrorType::NoCrlf));
    let input = "*2\r\n$3\r\nfoo\r\n)hello".as_bytes();
    let err = RedisProtocolParser::parse(input).unwrap_err();
    assert!(matches!(err.err_type, RedisErrorType::UnknownSymbol));
    let input = "".as_bytes();
    let err = RedisProtocolParser::parse(input).unwrap_err();
    assert!(matches!(err.err_type, RedisErrorType::EmptyInput));
    let input = "$4\r\nfoo\r\n".as_bytes();
    let err = RedisProtocolParser::parse(input).unwrap_err();
    assert!(matches!(err.err_type, RedisErrorType::IncorrectFormat));
    let input = "*2\r\n$3\r\nfoo+hello\r\n".as_bytes();
    let err = RedisProtocolParser::parse(input).unwrap_err();
    assert!(matches!(err.err_type, RedisErrorType::IncorrectFormat));
    Ok(())
}

#[test]
pub fn resp_test_nil() -> std::result::Result<(), RedisError> {
    let input = "$-1\r\n".as_bytes();
    let (resp, left) = RedisProtocolParser::parse(input)?;
    assert_eq!(resp, RESP::Nil);
    assert!(left.is_empty());
    Ok(())
}

#[test]
pub fn resp_test_bulk_string() -> std::result::Result<(), RedisError> {
    let input = "$6\r\nfoobar\r\n".as_bytes();
    let (resp, left) = RedisProtocolParser::parse(input)?;
    assert_eq!(resp, RESP::BulkString("foobar".as_bytes()));
    assert!(left.is_empty());
    let input = "$0\r\n\r\n".as_bytes();
    let (resp, left) = RedisProtocolParser::parse(input)?;
    assert_eq!(resp, RESP::BulkString("".as_bytes()));
    assert!(left.is_empty());
    Ok(())
}

#[test]
pub fn resp_test_arrays() -> std::result::Result<(), RedisError> {
    let input = "*2\r\n$3\r\nfoo\r\n$3\r\nbar\r\n".as_bytes();
    let (resp, left) = RedisProtocolParser::parse(input)?;
    assert_eq!(
        resp,
        RESP::Array(vec![
            RESP::BulkString("foo".as_bytes()),
            RESP::BulkString("bar".as_bytes())
        ])
    );
    assert!(left.is_empty());
    let input = "*5\r\n:1\r\n:2\r\n:3\r\n:4\r\n$6\r\nfoobar\r\n".as_bytes();
    let (resp, left) = RedisProtocolParser::parse(input)?;
    assert_eq!(
        resp,
        RESP::Array(vec![
            RESP::Integer("1".as_bytes()),
            RESP::Integer("2".as_bytes()),
            RESP::Integer("3".as_bytes()),
            RESP::Integer("4".as_bytes()),
            RESP::BulkString("foobar".as_bytes()),
        ])
    );
    assert!(left.is_empty());
    Ok(())
}

#[test]
pub fn resp_test_array_of_arrays() -> std::result::Result<(), RedisError> {
    let input = "*2\r\n*3\r\n:1\r\n:2\r\n:3\r\n*2\r\n+Foo\r\n-Bar\r\n".as_bytes();
    let (resp, left) = RedisProtocolParser::parse(input)?;
    assert_eq!(
        resp,
        RESP::Array(vec![
            RESP::Array(vec![
                RESP::Integer("1".as_bytes()),
                RESP::Integer("2".as_bytes()),
                RESP::Integer("3".as_bytes()),
            ]),
            RESP::Array(vec![
                RESP::String("Foo".as_bytes()),
                RESP::Error("Bar".as_bytes()),
            ]),
        ])
    );
    assert!(left.is_empty());
    Ok(())
}

#[test]
pub fn parse_leaves_the_rest_of_the_input() {
    let input = "+OK\r\n:42\r\n".as_bytes();
    let (resp, left) = RedisProtocolParser::parse(input).unwrap();
    assert_eq!(resp, Resp::String("OK".as_bytes()));
    assert_eq!(left, ":42\r\n".as_bytes());
    let (resp, left) = RedisProtocolParser::parse(left).unwrap();
    assert_eq!(resp, Resp::Integer("42".as_bytes()));
    assert!(left.is_empty());
}

#[test]
pub fn parse_rejects_lengths_that_are_no_numbers() {
    let err = RedisProtocolParser::parse("$abc\r\nfoo\r\n".as_bytes()).unwrap_err();
    assert_eq!(err.err_type, RedisErrorType::Other);
    let err = RedisProtocolParser::parse("*\r\n".as_bytes()).unwrap_err();
    assert_eq!(err.err_type, RedisErrorType::Other);
    let err = RedisProtocolParser::parse("*18446744073709551616\r\n".as_bytes()).unwrap_err();
    assert_eq!(err.err_type, RedisErrorType::Other);
}

#[test]
pub fn parse_reports_a_bulk_string_cut_short() {
    let err = RedisProtocolParser::parse("$3\r\nfoo".as_bytes()).unwrap_err();
    assert_eq!(err.err_type, RedisErrorType::IncorrectFormat);
    let err = RedisProtocolParser::parse("$3\r\nfoo\r".as_bytes()).unwrap_err();
    assert_eq!(err.err_type, RedisErrorType::IncorrectFormat);
    let err = RedisProtocolParser::parse("*3\r\n:1\r\n".as_bytes()).unwrap_err();
    assert_eq!(err.err_type, RedisErrorType::EmptyInput);
}

#[test]
pub fn decimal_numbers() {
    assert_eq!(parse_decimal("0".as_bytes()), Some(0));
    assert_eq!(parse_decimal("+17".as_bytes()), Some(17));
    assert_eq!(parse_decimal("007".as_bytes()), Some(7));
    assert_eq!(parse_decimal("18446744073709551615".as_bytes()), Some(u64::MAX));
    assert_eq!(parse_decimal("18446744073709551616".as_bytes()), None);
    assert_eq!(parse_decimal("".as_bytes()), None);
    assert_eq!(parse_decimal("+".as_bytes()), None);
    assert_eq!(parse_decimal("-1".as_bytes()), None);
    assert_eq!(parse_decimal("1 ".as_bytes()), None);
}

#[test]
pub fn line_ends_and_nil_are_told_apart() {
    assert!(RedisProtocolParser::check_crlf_at_index("ab\r\n".as_bytes(), 2));
    assert!(!RedisProtocolParser::check_crlf_at_index("ab\r\n".as_bytes(), 3));
    assert!(!RedisProtocolParser::check_crlf_at_index("ab\r\n".as_bytes(), 4));
    assert!(!RedisProtocolParser::check_crlf_at_index("ab\r\n".as_bytes(), 1));
    assert!(RedisProtocolParser::check_null_value("-1\r\nrest".as_bytes()));
    assert!(!RedisProtocolParser::check_null_value("-1\r".as_bytes()));
    let (line, left) = RedisProtocolParser::parse_everything_until_crlf("a\rb\r\nc".as_bytes()).unwrap();
    assert_eq!(line, "a\rb".as_bytes());
    assert_eq!(left, "c".as_bytes());
}
