use resp_server::error::Error;
use resp_server::parse::{needs_more_at, parse_resp};
use resp_server::resptype::Type;

fn bulk(s: &str) -> Type {
    Type::BulkString(s.to_string())
}

#[test]
fn serialize_simple_string() {
    assert_eq!(Type::SimpleString("OK".to_string()).serialize(), b"+OK\r\n".to_vec());
}

#[test]
fn serialize_bulk_string() {
    assert_eq!(bulk("hello").serialize(), b"$5\r\nhello\r\n".to_vec());
}

#[test]
fn serialize_bulk_string_counts_bytes_not_chars() {
    assert_eq!(bulk("héllo").serialize(), "$6\r\nhéllo\r\n".as_bytes().to_vec());
}

#[test]
fn serialize_empty_bulk_string() {
    assert_eq!(bulk("").serialize(), b"$0\r\n\r\n".to_vec());
}

#[test]
fn serialize_null_bulk_string() {
    assert_eq!(Type::NullBulkString.serialize(), b"$-1\r\n".to_vec());
}

#[test]
fn serialize_integer() {
    assert_eq!(Type::Integer("42".to_string()).serialize(), b":42\r\n".to_vec());
}

#[test]
fn serialize_array() {
    let v = Type::Array(vec![bulk("ECHO"), bulk("hello")]);
    assert_eq!(v.serialize(), b"*2\r\n$4\r\nECHO\r\n$5\r\nhello\r\n".to_vec());
}

#[test]
fn serialize_empty_array() {
    assert_eq!(Type::Array(vec![]).serialize(), b"*0\r\n".to_vec());
}

#[test]
fn serialize_long_array_count() {
    let items: Vec<Type> = (0..12).map(|_| Type::NullBulkString).collect();
    let out = Type::Array(items).serialize();
    assert!(out.starts_with(b"*12\r\n$-1\r\n"));
    assert_eq!(out.len(), 5 + 12 * 5);
}

#[test]
fn serialize_snapshot_has_no_trailing_crlf() {
    let v = Type::RDBSyncString("48656c6C6f".to_string());
    assert_eq!(v.serialize(), b"$5\r\nHello".to_vec());
}

#[test]
fn parse_simple_string() {
    let (v, n) = parse_resp(b"+PONG\r\n").unwrap();
    assert!(matches!(v, Type::SimpleString(ref s) if s == "PONG"));
    assert_eq!(n, 7);
}

#[test]
fn parse_error_line_reads_as_simple_string() {
    let (v, n) = parse_resp(b"-ERR bad\r\n").unwrap();
    assert!(matches!(v, Type::SimpleString(ref s) if s == "ERR bad"));
    assert_eq!(n, 10);
}

#[test]
fn parse_integer() {
    let (v, n) = parse_resp(b":1000\r\n").unwrap();
    assert!(matches!(v, Type::Integer(ref s) if s == "1000"));
    assert_eq!(n, 7);
}

#[test]
fn parse_bulk_string() {
    let (v, n) = parse_resp(b"$5\r\nhello\r\n").unwrap();
    assert!(matches!(v, Type::BulkString(ref s) if s == "hello"));
    assert_eq!(n, 11);
}

#[test]
fn parse_bulk_string_decodes_utf8() {
    let bytes = "$6\r\nhéllo\r\n".as_bytes();
    let (v, n) = parse_resp(bytes).unwrap();
    assert!(matches!(v, Type::BulkString(ref s) if s == "héllo"));
    assert_eq!(n, bytes.len());
}

#[test]
fn parse_bulk_string_with_crlf_inside() {
    let (v, n) = parse_resp(b"$4\r\na\r\nb\r\n").unwrap();
    assert!(matches!(v, Type::BulkString(ref s) if s == "a\r\nb"));
    assert_eq!(n, 10);
}

#[test]
fn parse_null_bulk_string() {
    let (v, n) = parse_resp(b"$-1\r\n").unwrap();
    assert!(matches!(v, Type::NullBulkString));
    assert_eq!(n, 5);
}

#[test]
fn parse_array_of_bulk_strings() {
    let (v, n) = parse_resp(b"*2\r\n$4\r\nECHO\r\n$5\r\nhello\r\n").unwrap();
    match v {
        Type::Array(items) => {
            assert_eq!(items.len(), 2);
            assert!(matches!(items[0], Type::BulkString(ref s) if s == "ECHO"));
            assert!(matches!(items[1], Type::BulkString(ref s) if s == "hello"));
        }
        _ => panic!("not an array"),
    }
    assert_eq!(n, 25);
}

#[test]
fn parse_nested_array() {
    let (v, n) = parse_resp(b"*2\r\n*1\r\n:1\r\n$-1\r\n").unwrap();
    match v {
        Type::Array(items) => {
            assert!(matches!(&items[0], Type::Array(inner) if inner.len() == 1));
            assert!(matches!(items[1], Type::NullBulkString));
        }
        _ => panic!("not an array"),
    }
    assert_eq!(n, 17);
}

#[test]
fn parse_rejects_unknown_lead_byte() {
    assert!(matches!(parse_resp(b"!oops\r\n"), Err(Error::Protocol)));
}

#[test]
fn parse_rejects_empty_input() {
    assert!(matches!(parse_resp(b""), Err(Error::Protocol)));
}

#[test]
fn parse_rejects_truncated_bulk_string() {
    assert!(matches!(parse_resp(b"$5\r\nhel"), Err(Error::Protocol)));
}

#[test]
fn parse_rejects_missing_crlf() {
    assert!(matches!(parse_resp(b"+PONG"), Err(Error::Protocol)));
    assert!(matches!(parse_resp(b"+PONG\rx"), Err(Error::Protocol)));
}

#[test]
fn parse_rejects_bad_length() {
    assert!(matches!(parse_resp(b"$x\r\nab\r\n"), Err(Error::Protocol)));
    assert!(matches!(parse_resp(b"*-2\r\n"), Err(Error::Protocol)));
    assert!(matches!(parse_resp(b"$\r\n\r\n"), Err(Error::Protocol)));
}

#[test]
fn parse_rejects_length_overflow() {
    assert!(matches!(
        parse_resp(b"$99999999999999999999999\r\nab\r\n"),
        Err(Error::Protocol)
    ));
    assert!(matches!(parse_resp(b"*99999999999999999999999\r\n"), Err(Error::Protocol)));
}

#[test]
fn parse_rejects_invalid_utf8() {
    assert!(matches!(parse_resp(b"$2\r\n\xff\xfe\r\n"), Err(Error::Protocol)));
    assert!(matches!(parse_resp(b"+\xff\r\n"), Err(Error::Protocol)));
}

#[test]
fn parse_rejects_truncated_array() {
    assert!(matches!(parse_resp(b"*2\r\n$4\r\nECHO\r\n"), Err(Error::Protocol)));
}

#[test]
fn round_trip_of_nested_value() {
    let v = Type::Array(vec![
        Type::SimpleString("OK".to_string()),
        bulk("with\r\ncrlf"),
        Type::NullBulkString,
        Type::Integer("-7".to_string()),
        Type::Array(vec![bulk("")]),
    ]);
    let bytes = v.serialize();
    let (back, n) = parse_resp(&bytes).unwrap();
    assert_eq!(n, bytes.len());
    assert_eq!(back.serialize(), bytes);
}

#[test]
fn length_accounting_over_concatenation() {
    let first = Type::Array(vec![bulk("SET"), bulk("k"), bulk("v")]).serialize();
    let second = Type::SimpleString("PONG".to_string()).serialize();
    let mut both = first.clone();
    both.extend_from_slice(&second);
    let (v, n) = parse_resp(&both).unwrap();
    assert_eq!(n, first.len());
    assert_eq!(v.serialize(), first);
    let (w, m) = parse_resp(&both[n..]).unwrap();
    assert_eq!(m, second.len());
    assert!(matches!(w, Type::SimpleString(ref s) if s == "PONG"));
}

#[test]
fn needs_more_tells_cut_short_from_malformed() {
    assert!(needs_more_at(b"", 0));
    assert!(needs_more_at(b"*2\r\n$4\r\nEC", 0));
    assert!(needs_more_at(b"*2\r\n$4\r\nECHO\r\n", 0));
    assert!(needs_more_at(b"$5\r\nhel", 0));
    assert!(needs_more_at(b"+PON", 0));
    assert!(needs_more_at(b"+PONG\r", 0));
    assert!(!needs_more_at(b"!x", 0));
    assert!(!needs_more_at(b"+PO\rNG\r\n", 0));
    assert!(!needs_more_at(b"$x\r\n", 0));
    assert!(!needs_more_at(b"$99999999999999999999999\r\n", 0));
    assert!(!needs_more_at(b"*1\r\n!", 0));
    assert!(!needs_more_at(b"+PONG\r\n", 0));
    assert!(needs_more_at(b"xx*1\r\n", 2));
}
