//! Reply rendering: JSON bodies, JSONP, raw text, MessagePack, content
//! types, and the lossy text form of binary replies.

use webdis::format::{ContentType, OutputFormat};
use webdis::json::{json_to_bytes, Json};
use webdis::reply::{redis_value_to_json, Reply};

#[test]
fn test_json_format_set_ok() {
    let f = OutputFormat::Json;
    let r = f.format_response(b"SET", &Reply::Okay, None);
    assert_eq!(r.status, 200);
    assert_eq!(r.body, b"{\"SET\":\"OK\"}");
    assert!(matches!(r.content_type, ContentType::Json));
    assert!(r.cors);
}

#[test]
fn test_json_format_get_value() {
    let f = OutputFormat::Json;
    let r = f.format_response(b"GET", &Reply::Bytes(b"v".to_vec()), None);
    assert_eq!(r.body, b"{\"GET\":\"v\"}");
}

#[test]
fn test_jsonp_callback() {
    let f = OutputFormat::Json;
    let cb = b"handle.it".to_vec();
    let r = f.format_response(b"GET", &Reply::Nil, Some(&cb));
    assert_eq!(r.body, b"handle.it({\"GET\":null})");
    assert!(matches!(r.content_type, ContentType::JavaScript));
}

#[test]
fn test_raw_format() {
    let f = OutputFormat::Raw;
    let r = f.format_response(b"GET", &Reply::Bytes(b"v".to_vec()), None);
    assert_eq!(r.status, 200);
    assert_eq!(r.body, b"v");
    assert!(matches!(r.content_type, ContentType::Plain));

    // null is an empty body, integers are lexical
    assert_eq!(f.format_response(b"GET", &Reply::Nil, None).body, b"");
    assert_eq!(f.format_response(b"INCR", &Reply::Integer(-7), None).body, b"-7");

    // arrays join with newlines; a nested array collapses one level
    let arr = Reply::Array(vec![
        Reply::Bytes(b"a".to_vec()),
        Reply::Array(vec![Reply::Bytes(b"b".to_vec()), Reply::Integer(2)]),
        Reply::Status(b"c".to_vec()),
    ]);
    assert_eq!(f.format_response(b"MGET", &arr, None).body, b"a\nb\n2\nc");
}

#[test]
fn test_msgpack_format() {
    let f = OutputFormat::Msgpack;
    let r = f.format_response(b"SET", &Reply::Okay, None);
    assert_eq!(
        r.body,
        vec![0x81u8, 0xa3, b'S', b'E', b'T', 0xa2, b'O', b'K']
    );
    assert!(matches!(r.content_type, ContentType::Msgpack));

    // binary stays binary, integers take the fixint forms
    let r2 = f.format_response(
        b"GET",
        &Reply::Array(vec![
            Reply::Bytes(vec![0xff, 0x00]),
            Reply::Integer(5),
            Reply::Integer(-1),
            Reply::Integer(300),
            Reply::Nil,
        ]),
        None,
    );
    assert_eq!(
        r2.body,
        vec![
            0x81u8, 0xa3, b'G', b'E', b'T', 0x95, 0xc4, 0x02, 0xff, 0x00, 0x05, 0xff, 0xd3, 0x00,
            0x00, 0x00, 0x00, 0x00, 0x00, 0x01, 0x2c, 0xc0,
        ]
    );
}

#[test]
fn test_from_extension() {
    assert!(matches!(OutputFormat::from_extension("raw"), OutputFormat::Raw));
    assert!(matches!(OutputFormat::from_extension("msg"), OutputFormat::Msgpack));
    assert!(matches!(OutputFormat::from_extension("msgpack"), OutputFormat::Msgpack));
    assert!(matches!(OutputFormat::from_extension("json"), OutputFormat::Json));
    assert!(matches!(OutputFormat::from_extension("bin"), OutputFormat::Json));
}

#[test]
fn test_lossy_binary_reply() {
    // invalid UTF-8 is replaced, valid UTF-8 passes through unchanged
    let j = redis_value_to_json(&Reply::Bytes(vec![0xff]));
    assert_eq!(json_to_bytes(&j), b"\"\xef\xbf\xbd\"");
    let ok = redis_value_to_json(&Reply::Bytes("héllo".as_bytes().to_vec()));
    match ok {
        Json::Str(s) => assert_eq!(s, "héllo".as_bytes()),
        _ => panic!("expected a string"),
    }
}

#[test]
fn test_reply_conversion_shapes() {
    assert!(matches!(redis_value_to_json(&Reply::Nil), Json::Null));
    assert!(matches!(redis_value_to_json(&Reply::Integer(3)), Json::Int(3)));
    match redis_value_to_json(&Reply::Okay) {
        Json::Str(s) => assert_eq!(s, b"OK"),
        _ => panic!("expected OK"),
    }
    match redis_value_to_json(&Reply::Array(vec![Reply::Nil, Reply::Integer(1)])) {
        Json::Arr(es) => {
            assert_eq!(es.len(), 2);
            assert!(matches!(es[0], Json::Null));
            assert!(matches!(es[1], Json::Int(1)));
        }
        _ => panic!("expected an array"),
    }
}
