//! Tests of the value constructors and the encoder.

use resp_codec::RespType;

fn assert_expected_encode(resp: RespType, expected: &str) {
    let encoded = resp.as_bytes();
    assert_eq!(expected.as_bytes(), encoded);
}

#[test]
fn simple_string() {
    let input = "test";
    let resp = RespType::simple_string(input.into()).unwrap();
    assert_expected_encode(resp, "+test\r\n");
}

#[test]
fn error() {
    let input = "error";
    let resp = RespType::error(input.into()).unwrap();
    assert_expected_encode(resp, "-error\r\n");
}

#[test]
fn integer() {
    let resp = RespType::integer(42);
    assert_expected_encode(resp, ":42\r\n");
}

#[test]
fn bulk_string() {
    let input = "test";
    let resp = RespType::bulk_string(input.into());
    assert_expected_encode(resp, "$4\r\ntest\r\n");
}

#[test]
fn empty_bulk_string() {
    let resp = RespType::bulk_string("".into());
    assert_expected_encode(resp, "$0\r\n\r\n");
}

#[test]
fn null_bulk_string() {
    let resp = RespType::Null;
    assert_expected_encode(resp, "$-1\r\n");
}

#[test]
fn array() {
    let resp = RespType::Array(vec![RespType::SimpleString("test!".into())]);
    assert_expected_encode(resp, "*1\r\n+test!\r\n");
}

#[test]
fn empty_array() {
    let resp = RespType::Array(Vec::new());
    assert_expected_encode(resp, "*0\r\n");
}

#[test]
fn null_array() {
    let resp = RespType::NullArray;
    assert_expected_encode(resp, "*-1\r\n");
}

#[test]
fn simple_string_rejects_cr() {
    assert!(RespType::simple_string("bad\rtext".into()).is_err());
    assert!(RespType::simple_string("bad\ntext".into()).is_err());
    assert!(RespType::error("bad\rtext".into()).is_err());
    assert!(RespType::error("bad\ntext".into()).is_err());
}

#[test]
fn integer_extremes_encode() {
    assert_expected_encode(RespType::integer(i64::MIN), ":-9223372036854775808\r\n");
    assert_expected_encode(RespType::integer(i64::MAX), ":9223372036854775807\r\n");
    assert_expected_encode(RespType::integer(0), ":0\r\n");
    assert_expected_encode(RespType::integer(-1), ":-1\r\n");
}

#[test]
fn command_builds_bulk_string_array() {
    let resp = RespType::command(vec![b"GET".to_vec(), b"key".to_vec()]);
    assert_expected_encode(resp, "*2\r\n$3\r\nGET\r\n$3\r\nkey\r\n");
}

#[test]
fn multibyte_simple_string_encodes_utf8() {
    let resp = RespType::simple_string("h\u{e9}llo".into()).unwrap();
    assert_expected_encode(resp, "+h\u{e9}llo\r\n");
}
