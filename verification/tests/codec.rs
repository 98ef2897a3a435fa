use miniredis::num::RespError;
use miniredis::num::i64_to_string;
use miniredis::num::parse_int;
use miniredis::num::parse_u64;
use miniredis::num::u64_to_string;
use miniredis::resp::Value;
use miniredis::resp::parse_message;
use miniredis::resp::read_until_crlf;

fn expect_simple(v: Value) -> String {
    match v {
        Value::SimpleString(s) => s,
        other => panic!("expected a simple string, got {:?}", other),
    }
}

fn expect_bulk(v: Value) -> String {
    match v {
        Value::BulkString(s) => s,
        other => panic!("expected a bulk string, got {:?}", other),
    }
}

fn expect_array(v: Value) -> Vec<Value> {
    match v {
        Value::Array(vs) => vs,
        other => panic!("expected an array, got {:?}", other),
    }
}

#[test]
fn serialise_simple_string() {
    let s = Value::SimpleString("PONG".to_string()).serialise();
    assert_eq!(s, "+PONG\r\n");
}

#[test]
fn serialise_bulk_string() {
    let s = Value::BulkString("hello".to_string()).serialise();
    assert_eq!(s, "$5\r\nhello\r\n");
}

#[test]
fn serialise_empty_bulk_string() {
    let s = Value::BulkString(String::new()).serialise();
    assert_eq!(s, "$0\r\n\r\n");
}

#[test]
fn serialise_array_is_refused() {
    let r = Value::Array(vec![]).try_serialise();
    assert_eq!(r.unwrap_err(), RespError::UnsupportedEncoding);
}

#[test]
fn round_trip_simple_string() {
    let wire = Value::SimpleString("hello".to_string()).serialise();
    let (v, used) = parse_message(&wire).unwrap();
    assert_eq!(expect_simple(v), "hello");
    assert_eq!(used, wire.len());
}

#[test]
fn round_trip_empty_simple_string() {
    let wire = Value::SimpleString(String::new()).serialise();
    assert_eq!(wire, "+\r\n");
    let (v, used) = parse_message(&wire).unwrap();
    assert_eq!(expect_simple(v), "");
    assert_eq!(used, 3);
}

#[test]
fn round_trip_bulk_string() {
    let wire = Value::BulkString("hello".to_string()).serialise();
    let (v, used) = parse_message(&wire).unwrap();
    assert_eq!(expect_bulk(v), "hello");
    assert_eq!(used, wire.len());
}

#[test]
fn round_trip_bulk_string_with_line_break_payload() {
    let wire = Value::BulkString("ab\r\ncd".to_string()).serialise();
    assert_eq!(wire, "$6\r\nab\r\ncd\r\n");
    let (v, used) = parse_message(&wire).unwrap();
    assert_eq!(expect_bulk(v), "ab\r\ncd");
    assert_eq!(used, wire.len());
}

#[test]
fn round_trip_empty_bulk_string() {
    let wire = Value::BulkString(String::new()).serialise();
    let (v, used) = parse_message(&wire).unwrap();
    assert_eq!(expect_bulk(v), "");
    assert_eq!(used, wire.len());
}

#[test]
fn array_decode_recursion() {
    let wire = "*2\r\n$3\r\nfoo\r\n$3\r\nbar\r\n";
    let (v, used) = parse_message(wire).unwrap();
    let items = expect_array(v);
    assert_eq!(items.len(), 2);
    let mut it = items.into_iter();
    assert_eq!(expect_bulk(it.next().unwrap()), "foo");
    assert_eq!(expect_bulk(it.next().unwrap()), "bar");
    assert_eq!(used, wire.len());
    assert_eq!(used, 22);
}

#[test]
fn nested_array_decodes() {
    let (v, used) = parse_message("*1\r\n*1\r\n$1\r\nx\r\n").unwrap();
    let outer = expect_array(v);
    assert_eq!(outer.len(), 1);
    let inner = expect_array(outer.into_iter().next().unwrap());
    assert_eq!(inner.len(), 1);
    assert_eq!(expect_bulk(inner.into_iter().next().unwrap()), "x");
    assert_eq!(used, 15);
}

#[test]
fn empty_array_decodes() {
    let (v, used) = parse_message("*0\r\n").unwrap();
    assert_eq!(expect_array(v).len(), 0);
    assert_eq!(used, 4);
}

#[test]
fn unknown_marker_is_malformed() {
    assert_eq!(parse_message("?foo\r\n").unwrap_err(), RespError::MalformedFrame);
}

#[test]
fn empty_buffer_is_malformed() {
    assert_eq!(parse_message("").unwrap_err(), RespError::MalformedFrame);
}

#[test]
fn missing_line_break_is_malformed() {
    assert_eq!(parse_message("+abc").unwrap_err(), RespError::MalformedFrame);
}

#[test]
fn truncated_bulk_string_is_malformed() {
    assert_eq!(parse_message("$5\r\nab").unwrap_err(), RespError::MalformedFrame);
}

#[test]
fn negative_bulk_length_is_malformed() {
    assert_eq!(parse_message("$-1\r\n\r\n").unwrap_err(), RespError::MalformedFrame);
}

#[test]
fn negative_array_count_is_malformed() {
    assert_eq!(parse_message("*-1\r\n").unwrap_err(), RespError::MalformedFrame);
}

#[test]
fn truncated_array_is_malformed() {
    assert_eq!(parse_message("*2\r\n$3\r\nfoo\r\n").unwrap_err(), RespError::MalformedFrame);
}

#[test]
fn read_until_crlf_finds_first_pair() {
    let (line, used) = read_until_crlf("abc\r\ndef\r\n").unwrap();
    assert_eq!(line, "abc");
    assert_eq!(used, 5);
}

#[test]
fn read_until_crlf_none_without_pair() {
    assert!(read_until_crlf("abc\rdef\n").is_none());
}

#[test]
fn parse_int_accepts_signs_and_bounds() {
    assert_eq!(parse_int("42").unwrap(), 42);
    assert_eq!(parse_int("+42").unwrap(), 42);
    assert_eq!(parse_int("-42").unwrap(), -42);
    assert_eq!(parse_int("0").unwrap(), 0);
    assert_eq!(parse_int("007").unwrap(), 7);
    assert_eq!(parse_int("9223372036854775807").unwrap(), i64::MAX);
    assert_eq!(parse_int("-9223372036854775808").unwrap(), i64::MIN);
}

#[test]
fn parse_int_rejects_bad_text() {
    assert!(parse_int("").is_err());
    assert!(parse_int("-").is_err());
    assert!(parse_int("12a").is_err());
    assert!(parse_int(" 1").is_err());
    assert!(parse_int("9223372036854775808").is_err());
    assert!(parse_int("-9223372036854775809").is_err());
}

#[test]
fn parse_u64_accepts_and_rejects() {
    assert_eq!(parse_u64("0").unwrap(), 0);
    assert_eq!(parse_u64("+5").unwrap(), 5);
    assert_eq!(parse_u64("18446744073709551615").unwrap(), u64::MAX);
    assert!(parse_u64("18446744073709551616").is_err());
    assert!(parse_u64("-1").is_err());
    assert!(parse_u64("ten").is_err());
}

#[test]
fn integer_rendering_is_canonical() {
    assert_eq!(u64_to_string(0), "0");
    assert_eq!(u64_to_string(1234567890), "1234567890");
    assert_eq!(i64_to_string(-42), "-42");
    assert_eq!(i64_to_string(i64::MIN), "-9223372036854775808");
    assert_eq!(i64_to_string(i64::MAX), "9223372036854775807");
}
