//! Tests of the byte-reader primitives: line extraction with CRLF
//! discipline, blob extraction, and length-prefix parsing.

use resp_codec::buffer::{readbuffer, readline, readsize, ReadlineResult, ReadsizeResult};
use resp_codec::ParserError;

#[test]
fn buffer_valid() {
    let buffer: Vec<u8> = "hello!\r\n".into();
    let expected = "hello!".to_string();

    match readline(&buffer, 0, 0) {
        Ok(ReadlineResult::Line { line, cursor }) => {
            assert_eq!(line.len(), 6);
            assert_eq!(line, expected);
            assert_eq!(cursor, 8);
        }
        _ => {
            panic!("valid line was expected")
        }
    }
}

#[test]
fn buffer_invalid() {
    let buffer: Vec<u8> = "hello!\rx".into();

    match readline(&buffer, 0, 0) {
        Err(error) => {
            println!("{:#?}", error);
        }
        _ => {
            panic!("error was expected")
        }
    }
}

#[test]
fn buffer_invalid_newline() {
    let buffer: Vec<u8> = "hel\nlo!\r\n".into();

    match readline(&buffer, 0, 0) {
        Err(error) => {
            println!("{:#?}", error);
        }
        _ => {
            panic!("error was expected")
        }
    }
}

#[test]
fn buffer_remainder() {
    let buffer: Vec<u8> = "hello!\r\nextra".into();
    let expected = "hello!".to_string();

    match readline(&buffer, 0, 0) {
        Ok(ReadlineResult::Line { line, cursor }) => {
            assert_eq!(line.len(), 6);
            assert_eq!(line, expected);
            assert_eq!(cursor, 8);
        }
        other => {
            panic!("valid line was expected, got {:#?}", other);
        }
    }
}

#[test]
fn none_progresses_cursor() {
    let buffer: Vec<u8> = "hello!".into();

    match readline(&buffer, 0, 0) {
        Ok(ReadlineResult::NeedMore { cursor }) => {
            assert_eq!(cursor, 6);
        }
        _ => {
            panic!("Ok(ReadlineResult::NeedMore{{}}) variant was not expected")
        }
    }
}

#[test]
fn valid() {
    let buffer: Vec<u8> = "test\r\n".into();
    if let Some((data, end)) = readbuffer(&buffer, 0, 4) {
        assert_eq!(data, "test".as_bytes().to_vec());
        assert_eq!(end, 6);
    } else {
        panic!("readsize was None, expected 'test'")
    }
}

#[test]
fn short() {
    let buffer: Vec<u8> = "test\r".into();
    assert_eq!(readbuffer(&buffer, 0, 4), None);
}

#[test]
fn buffer_offset() {
    let buffer: Vec<u8> = "1234test\r\n".into();
    if let Some((data, end)) = readbuffer(&buffer, 4, 4) {
        assert_eq!(data, "test".as_bytes().to_vec());
        assert_eq!(end, 10);
    } else {
        panic!("readsize was None, expected 'test'")
    }
}

#[test]
fn end_on_cr() {
    let buffer: Vec<u8> = "hello!\r".into();

    match readline(&buffer, 0, 0) {
        Ok(ReadlineResult::NeedMore { cursor: end }) => {
            assert_eq!(end, 6);
        }
        _ => {
            panic!("Ok(ReadlineResult::NeedMore{{}}) variant was not expected")
        }
    }
}

#[test]
fn offset() {
    let buffer: Vec<u8> = "123hello!\r\nextra".into();
    let expected = "hello!".to_string();
    let cursor = 3;

    match readline(&buffer, cursor, cursor) {
        Ok(ReadlineResult::Line { line, cursor }) => {
            assert_eq!(line.len(), 6);
            assert_eq!(line, expected);
            assert_eq!(cursor, 11);
        }
        other => {
            panic!("valid line was expected, got {:#?}", other);
        }
    }
}

#[test]
fn offset_end_on_cr() {
    let buffer: Vec<u8> = "123hello!\r".into();
    let cursor = 3;

    match readline(&buffer, cursor, cursor) {
        Ok(ReadlineResult::NeedMore { cursor: end }) => {
            assert_eq!(end, 9);
        }
        other => {
            panic!("expected NeedMore, got {:#?}", other);
        }
    }
}

#[test]
fn offset_start() {
    let buffer: Vec<u8> = "123hello!\r\nextra".into();
    let expected = "123hello!".to_string();
    let cursor = 3;

    match readline(&buffer, cursor, 0) {
        Ok(ReadlineResult::Line { line, cursor }) => {
            assert_eq!(line.len(), 9);
            assert_eq!(line, expected);
            assert_eq!(cursor, 11);
        }
        other => {
            panic!("valid line was expected, got {:#?}", other);
        }
    }
}

#[test]
fn readline_multibyte_utf8() {
    // A non-ASCII line must come back decoded, not as raw bytes.
    let buffer: Vec<u8> = "h\u{e9}llo\r\n".into();
    match readline(&buffer, 0, 0) {
        Ok(ReadlineResult::Line { line, cursor }) => {
            assert_eq!(line, "h\u{e9}llo");
            assert_eq!(line.len(), 6);
            assert_eq!(cursor, 8);
        }
        other => {
            panic!("valid line was expected, got {:#?}", other);
        }
    }
}

#[test]
fn readline_invalid_utf8() {
    let buffer: Vec<u8> = vec![0xff, 0xfe, b'\r', b'\n'];
    match readline(&buffer, 0, 0) {
        Err(e) => assert_eq!(e, ParserError::ReadlineError),
        other => panic!("error was expected, got {:#?}", other),
    }
}

#[test]
fn readsize_valid() {
    let buffer: Vec<u8> = "17\r\n".into();
    match readsize(&buffer, 0, 0) {
        Ok(ReadsizeResult::Size { end, size }) => {
            assert_eq!(end, 4);
            assert_eq!(size, 17);
        }
        other => {
            panic!("size was expected, got {:#?}", other);
        }
    }
}

#[test]
fn readsize_null_marker() {
    let buffer: Vec<u8> = "-1\r\n".into();
    match readsize(&buffer, 0, 0) {
        Ok(ReadsizeResult::Null(end)) => {
            assert_eq!(end, 4);
        }
        other => {
            panic!("null was expected, got {:#?}", other);
        }
    }
}

#[test]
fn readsize_below_null() {
    let buffer: Vec<u8> = "-2\r\n".into();
    match readsize(&buffer, 0, 0) {
        Err(e) => assert_eq!(e, ParserError::ReadsizeError(-2)),
        other => panic!("error was expected, got {:#?}", other),
    }
}

#[test]
fn readsize_not_a_number() {
    let buffer: Vec<u8> = "ten\r\n".into();
    match readsize(&buffer, 0, 0) {
        Err(e) => assert_eq!(e, ParserError::IntegerError),
        other => panic!("error was expected, got {:#?}", other),
    }
}
