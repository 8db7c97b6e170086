//! The JSON encoder and the parsers: exact texts, escapes, integers at the
//! edges, and the encode-then-parse round trip.

use webdis::jparse::{json_parse_scalar_object, json_parse_string_array};
use webdis::json::{json_to_bytes, Json, JsonPair};

fn obj1(key: &str, val: Json) -> Json {
    Json::Obj(vec![JsonPair { key: key.as_bytes().to_vec(), val }])
}

#[test]
fn test_encode_scalars() {
    assert_eq!(json_to_bytes(&Json::Null), b"null");
    assert_eq!(json_to_bytes(&Json::Bool(true)), b"true");
    assert_eq!(json_to_bytes(&Json::Bool(false)), b"false");
    assert_eq!(json_to_bytes(&Json::Int(0)), b"0");
    assert_eq!(json_to_bytes(&Json::Int(-42)), b"-42");
    assert_eq!(
        json_to_bytes(&Json::Int(i64::MIN)),
        b"-9223372036854775808"
    );
    assert_eq!(
        json_to_bytes(&Json::Str(b"hi".to_vec())),
        b"\"hi\""
    );
}

#[test]
fn test_encode_object_and_array() {
    let v = obj1("SET", Json::Str(b"OK".to_vec()));
    assert_eq!(json_to_bytes(&v), b"{\"SET\":\"OK\"}");

    let arr = Json::Arr(vec![
        Json::Str(b"message".to_vec()),
        Json::Str(b"ch".to_vec()),
        Json::Int(7),
    ]);
    assert_eq!(json_to_bytes(&arr), b"[\"message\",\"ch\",7]");
}

#[test]
fn test_encode_escapes() {
    let v = Json::Str(b"a\"b\\c\nd\x01".to_vec());
    assert_eq!(json_to_bytes(&v), b"\"a\\\"b\\\\c\\nd\\u0001\"");
}

#[test]
fn test_parse_scalar_object_round_trip() {
    let text = json_to_bytes(&obj1("GET", Json::Str(b"v\"x\n".to_vec())));
    let (key, val) = json_parse_scalar_object(&text).expect("round trip parses");
    assert_eq!(key, b"GET");
    match val {
        Json::Str(s) => assert_eq!(s, b"v\"x\n"),
        _ => panic!("expected a string"),
    }

    let text2 = json_to_bytes(&obj1("INCR", Json::Int(i64::MAX)));
    let (k2, v2) = json_parse_scalar_object(&text2).expect("integer round trip parses");
    assert_eq!(k2, b"INCR");
    match v2 {
        Json::Int(n) => assert_eq!(n, i64::MAX),
        _ => panic!("expected an integer"),
    }

    let text3 = json_to_bytes(&obj1("EXPIRE", Json::Null));
    let (_, v3) = json_parse_scalar_object(&text3).expect("null round trip parses");
    assert!(matches!(v3, Json::Null));
}

#[test]
fn test_parse_rejects_malformed() {
    assert!(json_parse_scalar_object(b"").is_none());
    assert!(json_parse_scalar_object(b"{\"a\":}").is_none());
    assert!(json_parse_scalar_object(b"{\"a\":1} trailing").is_none());
    assert!(json_parse_scalar_object(b"{\"a\":01}").is_none());
    // an integer beyond the signed 64-bit range is refused
    assert!(json_parse_scalar_object(b"{\"a\":9223372036854775808}").is_none());
    assert!(json_parse_scalar_object(b"{\"a\":-9223372036854775809}").is_none());
    // the extremes themselves parse
    assert!(json_parse_scalar_object(b"{\"a\":9223372036854775807}").is_some());
    assert!(json_parse_scalar_object(b"{\"a\":-9223372036854775808}").is_some());
}

#[test]
fn test_parse_string_array() {
    let items = json_parse_string_array(b"[\"SET\",\"k\",\"v\"]").expect("frame parses");
    assert_eq!(items.len(), 3);
    assert_eq!(items[0], b"SET");
    assert_eq!(items[1], b"k");
    assert_eq!(items[2], b"v");

    let spaced = json_parse_string_array(b" [ \"GET\" , \"k\" ] ").expect("whitespace is fine");
    assert_eq!(spaced.len(), 2);
    assert_eq!(spaced[0], b"GET");

    let empty = json_parse_string_array(b"[]").expect("the empty array parses");
    assert_eq!(empty.len(), 0);

    let escaped = json_parse_string_array(b"[\"a\\nb\",\"\\u0041\"]").expect("escapes decode");
    assert_eq!(escaped[0], b"a\nb");
    assert_eq!(escaped[1], b"A");

    assert!(json_parse_string_array(b"[\"a\",]").is_none());
    assert!(json_parse_string_array(b"[1,2]").is_none());
    assert!(json_parse_string_array(b"not json").is_none());
    assert!(json_parse_string_array(b"[\"a\"] tail").is_none());
}
