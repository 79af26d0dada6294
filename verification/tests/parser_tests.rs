//! Tests of the resumable parser: whole feeds, partial feeds, nesting,
//! and every error kind.

use resp_codec::RespType::{Array, BulkString, Error, Integer, Null, NullArray, SimpleString};
use resp_codec::{ParserError, RespParser, RespType};

fn test_parser_ok(buffer: &[u8]) -> Vec<RespType> {
    let mut parser = RespParser::default();
    match parser.read(buffer) {
        Ok(results) => results,
        other => panic!("result was not Ok(), was {:#?}", other),
    }
}

fn test_parser_err(buffer: &[u8]) -> ParserError {
    let mut parser = RespParser::default();
    match parser.read(buffer) {
        Err(error) => error,
        Ok(results) => panic!("error was expected, got {:#?}", results),
    }
}

fn assert_empty_result(results: Vec<RespType>) {
    let result_length = results.len();
    assert_eq!(
        result_length, 0,
        "result was not empty, contained {} elements",
        result_length
    );
}

fn assert_num_results(results: &Vec<RespType>, expected: usize) {
    let result_length = results.len();
    assert_eq!(
        result_length, expected,
        "result was of unexpected length, contained {} elements, expected {}",
        result_length, expected
    )
}

fn assert_simple_string(elements: &Vec<RespType>, index: usize, expected: &str) {
    match elements.get(index) {
        Some(SimpleString(string)) => assert_eq!(string, expected),
        _ => panic!("Expected SimpleString variant"),
    }
}

fn assert_error(elements: &Vec<RespType>, index: usize, expected: &str) {
    match elements.get(index) {
        Some(Error(string)) => assert_eq!(string, expected),
        _ => panic!("Expected Error variant"),
    }
}

fn assert_integer(elements: &Vec<RespType>, index: usize, expected: i64) {
    match elements.get(index) {
        Some(Integer(int)) => assert_eq!(*int, expected),
        _ => panic!("Expected Integer variant"),
    }
}

fn assert_bulk_string(results: &Vec<RespType>, index: usize, expected: &[u8]) {
    match results.get(index) {
        Some(BulkString(string)) => assert_eq!(string, expected),
        _ => panic!("Expected BulkString variant"),
    }
}

#[test]
fn empty_start() {
    let results = test_parser_ok(b"");

    assert_empty_result(results);
}

#[test]
fn complex_nested() {
    let results = test_parser_ok(
        b"*3\r\n*-1\r\n*2\r\n$5\r\nhello\r\n$5\r\nworld\r\n*5\r\n+test\r\n-test3\r\n:-12345\r\n$2\r\nab\r\n$-1\r\n",
    );

    assert_num_results(&results, 1);
    if let Array(array) = &results[0] {
        assert_eq!(array.len(), 3);
        assert_eq!(array[0], NullArray);
        if let Array(nested) = &array[1] {
            assert_eq!(nested.len(), 2);
            assert_eq!(nested[0], BulkString("hello".into()));
            assert_eq!(nested[1], BulkString("world".into()));
        } else {
            panic!("Nested array at pos 1 expected")
        }
        if let Array(mixed) = &array[2] {
            assert_eq!(mixed.len(), 5);
            assert_eq!(mixed[0], SimpleString("test".into()));
            assert_eq!(mixed[1], Error("test3".into()));
            assert_eq!(mixed[2], Integer(-12345));
            assert_eq!(mixed[3], BulkString("ab".into()));
            assert_eq!(mixed[4], Null);
        } else {
            panic!("Mixed array at pos 2 expected")
        }
    } else {
        panic!("Array type expected")
    }
}

#[test]
fn complex_nested_onebyte() {
    let mut parser = RespParser::default();
    for byte in
        b"*3\r\n*-1\r\n*2\r\n$5\r\nhello\r\n$5\r\nworld\r\n*5\r\n+test\r\n-test3\r\n:-12345\r\n$2\r\nab\r\n$-1\r"
    {
        let results = parser.read(&[*byte]).unwrap();
        assert_eq!(results.len(), 0);
    }

    let results = parser.read(b"\n").unwrap();

    assert_num_results(&results, 1);
    if let Array(array) = &results[0] {
        assert_eq!(array.len(), 3);
        assert_eq!(array[0], NullArray);
        if let Array(nested) = &array[1] {
            assert_eq!(nested.len(), 2);
            assert_eq!(nested[0], BulkString("hello".into()));
            assert_eq!(nested[1], BulkString("world".into()));
        } else {
            panic!("Nested array at pos 1 expected")
        }
        if let Array(mixed) = &array[2] {
            assert_eq!(mixed.len(), 5);
            assert_eq!(mixed[0], SimpleString("test".into()));
            assert_eq!(mixed[1], Error("test3".into()));
            assert_eq!(mixed[2], Integer(-12345));
            assert_eq!(mixed[3], BulkString("ab".into()));
            assert_eq!(mixed[4], Null);
        } else {
            panic!("Mixed array at pos 2 expected")
        }
    } else {
        panic!("Array type expected")
    }
}

#[test]
fn parser_valid() {
    let results = test_parser_ok(b"+Valid!\r\n");

    assert_num_results(&results, 1);
    assert_simple_string(&results, 0, "Valid!");
}

#[test]
fn valid_remainder() {
    let results = test_parser_ok(b"+valid and then some\r\n+");

    assert_num_results(&results, 1);
    assert_simple_string(&results, 0, "valid and then some");
}

#[test]
fn valid_incomplete() {
    let results = test_parser_ok(b"+OK\r");

    assert_empty_result(results);
}

#[test]
fn invalid_char_after_cr() {
    test_parser_err(b"+OK\rx");
}

#[test]
fn parser_invalid_newline() {
    test_parser_err(b"+OK\n\r\n");
}

#[test]
fn error_valid() {
    let results = test_parser_ok(b"-Valid!\r\n");

    assert_num_results(&results, 1);
    assert_error(&results, 0, "Valid!");
}

#[test]
fn parser_remainder() {
    let results = test_parser_ok(b"-Valid!\r\n:");

    assert_num_results(&results, 1);
    assert_error(&results, 0, "Valid!");
}

#[test]
fn parser_two() {
    let results = test_parser_ok(b"-Valid!\r\n-andmore\r\n");

    assert_num_results(&results, 2);
    assert_error(&results, 0, "Valid!");
    assert_error(&results, 1, "andmore");
}

#[test]
fn integer_valid() {
    let results = test_parser_ok(b":1234\r\n");

    assert_num_results(&results, 1);
    assert_integer(&results, 0, 1234);
}

#[test]
fn valid_negative() {
    let results = test_parser_ok(b":-1234\r\n");

    assert_num_results(&results, 1);
    assert_integer(&results, 0, -1234);
}

#[test]
fn parser_invalid() {
    test_parser_err(b":hi\r\n");
}

#[test]
fn bulk_string_valid() {
    let results = test_parser_ok(b"$6\r\nValid!\r\n");

    assert_num_results(&results, 1);
    assert_bulk_string(&results, 0, "Valid!".as_bytes());
}

#[test]
fn two() {
    let results = test_parser_ok(b"$6\r\nValid!\r\n$5\r\nwooo!\r\n");

    assert_num_results(&results, 2);
    assert_bulk_string(&results, 0, "Valid!".as_bytes());
    assert_bulk_string(&results, 1, "wooo!".as_bytes());
}

#[test]
fn remainder() {
    let results = test_parser_ok(b"$6\r\nValid!\r\n+OK");

    assert_num_results(&results, 1);
    assert_bulk_string(&results, 0, "Valid!".as_bytes());
}

#[test]
fn empty() {
    let results = test_parser_ok(b"$0\r\n\r\n");

    assert_num_results(&results, 1);
}

#[test]
fn null() {
    let results = test_parser_ok(b"$-1\r\n");

    assert_num_results(&results, 1);
}

#[test]
fn start() {
    let results = test_parser_ok(b"*");
    assert_empty_result(results);
}

#[test]
fn hello_world() {
    let results = test_parser_ok(b"*2\r\n$5\r\nhello\r\n$5\r\nworld\r\n");

    assert_num_results(&results, 1);
}

#[test]
fn nested() {
    let results = test_parser_ok(b"*1\r\n*3\r\n$5\r\nhello\r\n+ok\r\n*-1\r\n");
    assert_num_results(&results, 1);
}

#[test]
fn parser_null() {
    let results = test_parser_ok(b"*-1\r\n");

    assert_num_results(&results, 1);
    match results.first().unwrap() {
        NullArray => {
            // good
        }
        _ => {
            panic!("null array expected");
        }
    };
}

#[test]
fn parser_empty() {
    let results = test_parser_ok(b"*0\r\n");

    assert_num_results(&results, 1);
}
