//! Concrete checks of the codec's laws: round trips, fragmentation
//! invariance, residual progress, the configured bounds, null
//! distinctness, and the exact error kind of each malformed input.

use resp_codec::RespType::{Array, BulkString, Integer, Null, NullArray, SimpleString};
use resp_codec::{ParserError, RespConfig, RespParser, RespType};

fn parse_one(bytes: &[u8]) -> Vec<RespType> {
    let mut parser = RespParser::default();
    parser.read(bytes).unwrap()
}

fn parse_err(bytes: &[u8]) -> ParserError {
    let mut parser = RespParser::default();
    parser.read(bytes).unwrap_err()
}

#[test]
fn scenario_simple_string() {
    assert_eq!(parse_one(b"+OK\r\n"), vec![SimpleString("OK".into())]);
}

#[test]
fn scenario_negative_integer() {
    assert_eq!(parse_one(b":-12345\r\n"), vec![Integer(-12345)]);
}

#[test]
fn scenario_two_bulk_strings() {
    assert_eq!(
        parse_one(b"$6\r\nValid!\r\n$5\r\nwooo!\r\n"),
        vec![BulkString("Valid!".into()), BulkString("wooo!".into())]
    );
}

#[test]
fn scenario_null_and_null_array() {
    assert_eq!(parse_one(b"$-1\r\n"), vec![Null]);
    assert_eq!(parse_one(b"*-1\r\n"), vec![NullArray]);
}

// The error scenarios: each malformed input raises its exact kind.

#[test]
fn error_invalid_integer() {
    assert_eq!(parse_err(b":hi\r\n"), ParserError::IntegerError);
}

#[test]
fn error_byte_after_cr() {
    assert_eq!(parse_err(b"+OK\rx"), ParserError::ReadlineError);
}

#[test]
fn error_embedded_newline() {
    assert_eq!(parse_err(b"+OK\n\r\n"), ParserError::ReadlineError);
}

#[test]
fn error_invalid_type_token() {
    assert_eq!(parse_err(b"#foo\r\n"), ParserError::TypeTokenError('#'));
}

#[test]
fn error_negative_size() {
    assert_eq!(parse_err(b"$-2\r\n"), ParserError::ReadsizeError(-2));
}

// Round trip: encode then parse gives back the value.

#[test]
fn round_trip_values() {
    let values = vec![
        SimpleString("status".into()),
        RespType::error("oops".into()).unwrap(),
        Integer(-9223372036854775808),
        Integer(9223372036854775807),
        BulkString(vec![0, 1, 2, 13, 10, 255]),
        Null,
        NullArray,
        Array(vec![]),
        Array(vec![
            NullArray,
            Array(vec![BulkString("hello".into()), BulkString("world".into())]),
            Integer(7),
        ]),
    ];
    for v in values {
        let encoded = v.as_bytes();
        // as_bytes consumes the value, so re-parse and compare the bytes.
        let parsed = parse_one(&encoded);
        assert_eq!(parsed.len(), 1);
        let reencoded = parsed.into_iter().next().unwrap().as_bytes();
        assert_eq!(reencoded, encoded);
    }
}

#[test]
fn round_trip_preserves_value() {
    let v = Array(vec![SimpleString("ping".into()), BulkString(b"pong".to_vec())]);
    let expected = Array(vec![SimpleString("ping".into()), BulkString(b"pong".to_vec())]);
    let parsed = parse_one(&v.as_bytes());
    assert_eq!(parsed, vec![expected]);
}

// Fragmentation invariance: any split of the stream yields the same list.

#[test]
fn fragmentation_all_splits() {
    let stream = b"*2\r\n$5\r\nhello\r\n$5\r\nworld\r\n:42\r\n+done\r\n";
    let whole = parse_one(stream);
    for split in 0..stream.len() {
        let mut parser = RespParser::default();
        let mut collected = parser.read(&stream[..split]).unwrap();
        collected.extend(parser.read(&stream[split..]).unwrap());
        assert_eq!(collected, whole, "split at {} differs", split);
    }
}

// Residual progress: an empty result keeps the bytes staged, and feeding
// nothing does not advance the parse.

#[test]
fn residual_progress() {
    let mut parser = RespParser::default();
    assert_eq!(parser.read(b"+OK\r").unwrap(), vec![]);
    assert_eq!(parser.read(b"").unwrap(), vec![]);
    assert_eq!(parser.read(b"").unwrap(), vec![]);
    assert_eq!(parser.read(b"\n").unwrap(), vec![SimpleString("OK".into())]);
}

// Bounds: exceeding either configured limit raises the size error and
// yields no value.

#[test]
fn buffer_size_limit() {
    let mut parser = RespParser::new(RespConfig::new(1024, 8));
    assert_eq!(
        parser.read(b"+way too long\r\n").unwrap_err(),
        ParserError::SizeExceededError
    );
}

#[test]
fn value_size_limit_line() {
    let mut parser = RespParser::new(RespConfig::new(4, 1024));
    assert_eq!(
        parser.read(b"+hello\r\n").unwrap_err(),
        ParserError::SizeExceededError
    );
}

#[test]
fn value_size_limit_bulk() {
    let mut parser = RespParser::new(RespConfig::new(4, 1024));
    assert_eq!(
        parser.read(b"$5\r\nhello\r\n").unwrap_err(),
        ParserError::SizeExceededError
    );
}

#[test]
fn value_size_limit_array_count() {
    let mut parser = RespParser::new(RespConfig::new(2, 1024));
    assert_eq!(
        parser.read(b"*3\r\n+a\r\n+b\r\n+c\r\n").unwrap_err(),
        ParserError::SizeExceededError
    );
}

// Null distinctness: the nulls and the empty array differ as bytes and
// as parsed values.

#[test]
fn null_distinctness() {
    let null_bytes = RespType::Null.as_bytes();
    let null_array_bytes = RespType::NullArray.as_bytes();
    let empty_array_bytes = RespType::Array(vec![]).as_bytes();
    assert_ne!(null_bytes, empty_array_bytes);
    assert_ne!(null_array_bytes, empty_array_bytes);
    assert_ne!(parse_one(b"$-1\r\n"), parse_one(b"*0\r\n"));
    assert_ne!(parse_one(b"*-1\r\n"), parse_one(b"*0\r\n"));
}

// Partial-feed scenario from the wire contract: "+OK\r" then "\n".

#[test]
fn partial_feed_two_calls() {
    let mut parser = RespParser::default();
    assert_eq!(parser.read(b"+OK\r").unwrap(), vec![]);
    assert_eq!(parser.read(b"\n").unwrap(), vec![SimpleString("OK".into())]);
}

#[test]
fn integer_with_plus_sign() {
    assert_eq!(parse_one(b":+5\r\n"), vec![Integer(5)]);
}

#[test]
fn integer_overflow_is_an_error() {
    assert_eq!(parse_err(b":9223372036854775808\r\n"), ParserError::IntegerError);
}

#[test]
fn empty_bulk_string_parses() {
    assert_eq!(parse_one(b"$0\r\n\r\n"), vec![BulkString(vec![])]);
}
