//! Codec tests: decoding, encoding, round trips and incremental feeding.

use resp_kv::resp::encode;
use resp_kv::{ParseResult, RespParser, RespValue};

fn parse_all(bytes: &[u8]) -> (RespValue, usize) {
    let mut p = RespParser::new();
    p.feed(bytes);
    match p.parse() {
        ParseResult::Complete(v, n) => (v, n),
        ParseResult::Incomplete => panic!("incomplete"),
        ParseResult::Error(e) => panic!("error: {:?}", e),
    }
}

#[test]
fn test_decode_simple_string() {
    let (v, n) = parse_all(b"+PONG\r\n");
    assert_eq!(v, RespValue::SimpleString(b"PONG".to_vec()));
    assert_eq!(n, 7);
}

#[test]
fn test_decode_error_frame() {
    let (v, n) = parse_all(b"-ERR nope\r\n");
    assert_eq!(v, RespValue::Error(b"ERR nope".to_vec()));
    assert_eq!(n, 11);
}

#[test]
fn test_decode_integer_frames() {
    assert_eq!(parse_all(b":42\r\n").0, RespValue::Integer(42));
    assert_eq!(parse_all(b":-7\r\n").0, RespValue::Integer(-7));
    assert_eq!(
        parse_all(b":9223372036854775807\r\n").0,
        RespValue::Integer(i64::MAX)
    );
    assert_eq!(
        parse_all(b":-9223372036854775808\r\n").0,
        RespValue::Integer(i64::MIN)
    );
}

#[test]
fn test_decode_bulk_and_null_bulk() {
    let (v, n) = parse_all(b"$5\r\nhello\r\n");
    assert_eq!(v, RespValue::BulkString(Some(b"hello".to_vec())));
    assert_eq!(n, 11);
    let (v, n) = parse_all(b"$-1\r\n");
    assert_eq!(v, RespValue::BulkString(None));
    assert_eq!(n, 5);
    let (v, _) = parse_all(b"$0\r\n\r\n");
    assert_eq!(v, RespValue::BulkString(Some(vec![])));
}

#[test]
fn test_decode_array() {
    let (v, n) = parse_all(b"*2\r\n$4\r\nECHO\r\n$2\r\nhi\r\n");
    assert_eq!(
        v,
        RespValue::Array(Some(vec![
            RespValue::BulkString(Some(b"ECHO".to_vec())),
            RespValue::BulkString(Some(b"hi".to_vec())),
        ]))
    );
    assert_eq!(n, 22);
    let (v, _) = parse_all(b"*0\r\n");
    assert_eq!(v, RespValue::Array(Some(vec![])));
    let (v, _) = parse_all(b"*-1\r\n");
    assert_eq!(v, RespValue::Array(None));
}

#[test]
fn test_decode_rejects_bad_prefix() {
    let mut p = RespParser::new();
    p.feed(b"!oops\r\n");
    assert!(matches!(p.parse(), ParseResult::Error(_)));
}

#[test]
fn test_decode_rejects_negative_lengths_below_null() {
    let mut p = RespParser::new();
    p.feed(b"$-2\r\n");
    assert!(matches!(p.parse(), ParseResult::Error(_)));
    let mut p = RespParser::new();
    p.feed(b"*-3\r\n");
    assert!(matches!(p.parse(), ParseResult::Error(_)));
}

#[test]
fn test_decode_rejects_non_digit_length() {
    let mut p = RespParser::new();
    p.feed(b"$x\r\n");
    assert!(matches!(p.parse(), ParseResult::Error(_)));
}

#[test]
fn test_decode_rejects_missing_bulk_terminator() {
    let mut p = RespParser::new();
    p.feed(b"$2\r\nab!X");
    assert!(matches!(p.parse(), ParseResult::Error(_)));
}

#[test]
fn test_encode_decode_round_trip() {
    let values = vec![
        RespValue::SimpleString(b"OK".to_vec()),
        RespValue::Error(b"ERR x".to_vec()),
        RespValue::Integer(-123),
        RespValue::BulkString(Some(b"binary \x00\x01".to_vec())),
        RespValue::BulkString(None),
        RespValue::Array(None),
        RespValue::Array(Some(vec![])),
        RespValue::Array(Some(vec![
            RespValue::Integer(0),
            RespValue::Array(Some(vec![RespValue::BulkString(Some(b"deep".to_vec()))])),
        ])),
    ];
    for v in values {
        let bytes = encode(&v);
        let (back, n) = parse_all(&bytes);
        assert_eq!(n, bytes.len());
        assert_eq!(back, v);
    }
}

#[test]
fn test_byte_at_a_time_is_incomplete_until_the_last_byte() {
    let v = RespValue::Array(Some(vec![
        RespValue::BulkString(Some(b"SET".to_vec())),
        RespValue::SimpleString(b"k".to_vec()),
        RespValue::Integer(-5),
        RespValue::BulkString(None),
    ]));
    let bytes = encode(&v);
    let mut p = RespParser::new();
    for (i, byte) in bytes.iter().enumerate() {
        p.feed(&[*byte]);
        if i + 1 < bytes.len() {
            assert!(matches!(p.parse(), ParseResult::Incomplete), "byte {}", i);
        }
    }
    match p.parse() {
        ParseResult::Complete(back, n) => {
            assert_eq!(back, v);
            assert_eq!(n, bytes.len());
        }
        other => panic!("expected completion, got {:?}", other),
    }
}

#[test]
fn test_parser_consume_leaves_the_next_frame() {
    let mut p = RespParser::new();
    p.feed(b"+one\r\n+two\r\n");
    let n = match p.parse() {
        ParseResult::Complete(v, n) => {
            assert_eq!(v, RespValue::SimpleString(b"one".to_vec()));
            n
        }
        other => panic!("unexpected: {:?}", other),
    };
    p.consume(n);
    match p.parse() {
        ParseResult::Complete(v, _) => assert_eq!(v, RespValue::SimpleString(b"two".to_vec())),
        other => panic!("unexpected: {:?}", other),
    }
}

#[test]
fn test_decoder_is_restartable_after_incomplete() {
    let mut p = RespParser::new();
    p.feed(b"$5\r\nhel");
    assert!(matches!(p.parse(), ParseResult::Incomplete));
    assert!(matches!(p.parse(), ParseResult::Incomplete));
    p.feed(b"lo\r\n");
    match p.parse() {
        ParseResult::Complete(v, n) => {
            assert_eq!(v, RespValue::BulkString(Some(b"hello".to_vec())));
            assert_eq!(n, 11);
        }
        other => panic!("unexpected: {:?}", other),
    }
}
