//! Tests for the frame codec: serialization shapes, parsing, round
//! trips, and the error cases.

use respkv::resp::{parse, parse_int, read_until_crlf, ProtocolError, Value};

fn bulk(s: &str) -> Value {
    Value::BulkString(String::from(s))
}

#[test]
fn serialize_simple_string() {
    let v = Value::SimpleString(String::from("PONG"));
    assert_eq!(v.serialize(), b"+PONG\r\n".to_vec());
}

#[test]
fn serialize_simple_error() {
    let v = Value::SimpleError(String::from("oops"));
    assert_eq!(v.serialize(), b"-oops\r\n".to_vec());
}

#[test]
fn serialize_bulk_string() {
    let v = bulk("hello");
    assert_eq!(v.serialize(), b"$5\r\nhello\r\n".to_vec());
}

#[test]
fn serialize_bulk_counts_chars_not_bytes() {
    // "héllo" is five characters but six UTF-8 bytes; the header counts
    // characters.
    let v = bulk("h\u{e9}llo");
    let mut expected = b"$5\r\n".to_vec();
    expected.extend_from_slice("h\u{e9}llo".as_bytes());
    expected.extend_from_slice(b"\r\n");
    assert_eq!(v.serialize(), expected);
}

#[test]
fn serialize_null_bulk() {
    assert_eq!(Value::NullBulk.serialize(), b"$-1\r\n".to_vec());
}

#[test]
fn serialize_array() {
    let v = Value::Array(vec![bulk("GET"), bulk("k")]);
    assert_eq!(v.serialize(), b"*2\r\n$3\r\nGET\r\n$1\r\nk\r\n".to_vec());
}

#[test]
fn parse_simple_string_frame() {
    let (v, n) = parse(b"+OK\r\n").unwrap();
    assert_eq!(v, Value::SimpleString(String::from("OK")));
    assert_eq!(n, 5);
}

#[test]
fn parse_bulk_string_frame() {
    let (v, n) = parse(b"$4\r\nPING\r\n").unwrap();
    assert_eq!(v, bulk("PING"));
    assert_eq!(n, 10);
}

#[test]
fn parse_array_frame() {
    let (v, n) = parse(b"*1\r\n$4\r\nPING\r\n").unwrap();
    assert_eq!(v, Value::Array(vec![bulk("PING")]));
    assert_eq!(n, 14);
}

#[test]
fn parse_nested_array() {
    let (v, n) = parse(b"*2\r\n*1\r\n+a\r\n+b\r\n").unwrap();
    assert_eq!(
        v,
        Value::Array(vec![
            Value::Array(vec![Value::SimpleString(String::from("a"))]),
            Value::SimpleString(String::from("b")),
        ])
    );
    assert_eq!(n, 16);
}

#[test]
fn parse_stops_after_first_frame() {
    let (v, n) = parse(b"+one\r\n+two\r\n").unwrap();
    assert_eq!(v, Value::SimpleString(String::from("one")));
    assert_eq!(n, 6);
}

#[test]
fn parse_unknown_tag_is_malformed() {
    assert_eq!(parse(b"!bad\r\n"), Err(ProtocolError::Malformed));
}

#[test]
fn parse_empty_buffer_needs_more() {
    assert_eq!(parse(b""), Err(ProtocolError::Incomplete));
}

#[test]
fn parse_partial_line_needs_more() {
    assert_eq!(parse(b"+PON"), Err(ProtocolError::Incomplete));
}

#[test]
fn parse_partial_bulk_needs_more() {
    assert_eq!(parse(b"$5\r\nab"), Err(ProtocolError::Incomplete));
}

#[test]
fn parse_partial_array_needs_more() {
    assert_eq!(parse(b"*2\r\n$1\r\na\r\n"), Err(ProtocolError::Incomplete));
}

#[test]
fn parse_bad_length_is_malformed() {
    assert_eq!(parse(b"$abc\r\nxx\r\n"), Err(ProtocolError::Malformed));
}

#[test]
fn parse_negative_length_is_malformed() {
    assert_eq!(parse(b"$-1\r\n"), Err(ProtocolError::Malformed));
}

#[test]
fn parse_bulk_without_terminator_is_malformed() {
    assert_eq!(parse(b"$2\r\nabXY"), Err(ProtocolError::Malformed));
}

#[test]
fn parse_bulk_invalid_utf8_is_malformed() {
    assert_eq!(parse(b"$2\r\n\xff\xfe\r\n"), Err(ProtocolError::Malformed));
}

#[test]
fn round_trip_simple_string() {
    let v = Value::SimpleString(String::from("hello world"));
    let bytes = v.serialize();
    let (back, n) = parse(&bytes).unwrap();
    assert_eq!(back, v);
    assert_eq!(n, bytes.len());
}

#[test]
fn round_trip_bulk_string_with_crlf_inside() {
    let v = bulk("a\r\nb");
    let bytes = v.serialize();
    let (back, n) = parse(&bytes).unwrap();
    assert_eq!(back, v);
    assert_eq!(n, bytes.len());
}

#[test]
fn round_trip_simple_string_non_ascii() {
    let v = Value::SimpleString(String::from("gr\u{fc}\u{df}e"));
    let bytes = v.serialize();
    let (back, n) = parse(&bytes).unwrap();
    assert_eq!(back, v);
    assert_eq!(n, bytes.len());
}

#[test]
fn round_trip_array() {
    let v = Value::Array(vec![bulk("SET"), bulk("key"), bulk("value")]);
    let bytes = v.serialize();
    let (back, n) = parse(&bytes).unwrap();
    assert_eq!(back, v);
    assert_eq!(n, bytes.len());
}

#[test]
fn round_trip_empty_array() {
    let v = Value::Array(vec![]);
    let bytes = v.serialize();
    let (back, n) = parse(&bytes).unwrap();
    assert_eq!(back, v);
    assert_eq!(n, bytes.len());
}

#[test]
fn parse_int_decimal() {
    assert_eq!(parse_int(b"123"), Ok(123));
    assert_eq!(parse_int(b"0"), Ok(0));
    assert_eq!(parse_int(b"007"), Ok(7));
}

#[test]
fn parse_int_signed() {
    assert_eq!(parse_int(b"-5"), Ok(-5));
    assert_eq!(parse_int(b"+7"), Ok(7));
}

#[test]
fn parse_int_extremes() {
    assert_eq!(parse_int(b"9223372036854775807"), Ok(i64::MAX));
    assert_eq!(parse_int(b"-9223372036854775808"), Ok(i64::MIN));
    assert_eq!(parse_int(b"9223372036854775808"), Err(ProtocolError::Malformed));
    assert_eq!(parse_int(b"-9223372036854775809"), Err(ProtocolError::Malformed));
}

#[test]
fn parse_int_rejects_junk() {
    assert_eq!(parse_int(b""), Err(ProtocolError::Malformed));
    assert_eq!(parse_int(b"-"), Err(ProtocolError::Malformed));
    assert_eq!(parse_int(b"12a"), Err(ProtocolError::Malformed));
    assert_eq!(parse_int(b" 1"), Err(ProtocolError::Malformed));
}

#[test]
fn read_until_crlf_finds_first_line() {
    let (line, len) = read_until_crlf(b"+abc\r\ndef\r\n", 1).unwrap();
    assert_eq!(line, b"abc".to_vec());
    assert_eq!(len, 5);
}

#[test]
fn read_until_crlf_none_without_terminator() {
    assert!(read_until_crlf(b"+abc", 1).is_none());
}

#[test]
fn parse_empty_bulk_string() {
    let (v, n) = parse(b"$0\r\n\r\n").unwrap();
    assert_eq!(v, bulk(""));
    assert_eq!(n, 6);
}

#[test]
fn round_trip_empty_simple_string() {
    let v = Value::SimpleString(String::new());
    let bytes = v.serialize();
    assert_eq!(bytes, b"+\r\n".to_vec());
    let (back, n) = parse(&bytes).unwrap();
    assert_eq!(back, v);
    assert_eq!(n, 3);
}
