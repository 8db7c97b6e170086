//! The dispatcher's decisions end to end: parsing paths, access control,
//! rendering outcomes, error statuses, and the body cap.

use webdis::acl::{Acl, PeerAddr};
use webdis::config::AclConfig;
use webdis::dispatch::{
    body_within_limit, error_response, finish_request, handle_options, prepare_request, ErrorKind,
};
use webdis::format::{ContentType, OutputFormat};
use webdis::reply::Reply;
use webdis::request::parse_http_request;

fn peer() -> PeerAddr {
    PeerAddr { v4: true, addr: 0x7f000001 }
}

#[test]
fn test_basic_get_set() {
    let acl = Acl::new(None);
    let req = match prepare_request(&acl, &peer(), None, b"SET/test_key/test_value", None, None) {
        Ok(req) => req,
        Err(_) => panic!("expected the command to be allowed"),
    };
    assert_eq!(req.name, b"SET");
    assert_eq!(req.args.len(), 2);
    assert_eq!(req.args[0], b"test_key");
    assert_eq!(req.args[1], b"test_value");
    let resp = finish_request(&req, Ok(&Reply::Okay));
    assert_eq!(resp.status, 200);
    assert_eq!(resp.body, b"{\"SET\":\"OK\"}");

    let req2 = match prepare_request(&acl, &peer(), None, b"GET/test_key", None, None) {
        Ok(req) => req,
        Err(_) => panic!("expected the command to be allowed"),
    };
    let resp2 = finish_request(&req2, Ok(&Reply::Bytes(b"test_value".to_vec())));
    assert_eq!(resp2.status, 200);
    assert_eq!(resp2.body, b"{\"GET\":\"test_value\"}");
}

#[test]
fn test_json_output() {
    // a JSON text stored as a value comes back escaped inside the reply
    let stored = "{\"a\":1,\"b\":\"c\"}";
    let encoded = b"SET/json_key/%7B%22a%22%3A1%2C%22b%22%3A%22c%22%7D";
    let req = parse_http_request(encoded, None, None).expect("parses");
    assert_eq!(req.args[1], stored.as_bytes());

    let req2 = parse_http_request(b"GET/json_key", None, None).expect("parses");
    let resp = finish_request(&req2, Ok(&Reply::Bytes(stored.as_bytes().to_vec())));
    assert_eq!(resp.status, 200);
    assert_eq!(
        resp.body,
        b"{\"GET\":\"{\\\"a\\\":1,\\\"b\\\":\\\"c\\\"}\"}"
    );
}

#[test]
fn test_raw_extension_on_key() {
    // `GET /GET/k.raw` selects the raw format and strips the extension
    let req = parse_http_request(b"GET/k.raw", None, None).expect("parses");
    assert_eq!(req.name, b"GET");
    assert_eq!(req.args.len(), 1);
    assert_eq!(req.args[0], b"k");
    assert!(matches!(req.format, OutputFormat::Raw));
    let resp = finish_request(&req, Ok(&Reply::Bytes(b"v".to_vec())));
    assert_eq!(resp.status, 200);
    assert!(matches!(resp.content_type, ContentType::Plain));
    assert_eq!(resp.body, b"v");
}

#[test]
fn test_extension_on_command_name() {
    let req = parse_http_request(b"GET.raw/k", None, None).expect("parses");
    assert_eq!(req.name, b"GET");
    assert_eq!(req.args[0], b"k");
    assert!(matches!(req.format, OutputFormat::Raw));

    // an unknown extension on the command still strips, format stays JSON
    let req2 = parse_http_request(b"GET.weird/k", None, None).expect("parses");
    assert_eq!(req2.name, b"GET");
    assert!(matches!(req2.format, OutputFormat::Json));

    // an unknown suffix on the final argument is left alone
    let req3 = parse_http_request(b"GET/k.weird", None, None).expect("parses");
    assert_eq!(req3.args[0], b"k.weird");
    assert!(matches!(req3.format, OutputFormat::Json));
}

#[test]
fn test_percent_decoding() {
    let req = parse_http_request(b"SET/a%2Fb/c%20d", None, None).expect("parses");
    assert_eq!(req.args[0], b"a/b");
    assert_eq!(req.args[1], b"c d");
    // `+` is not a space in the path
    let req2 = parse_http_request(b"SET/a+b/x", None, None).expect("parses");
    assert_eq!(req2.args[0], b"a+b");
}

#[test]
fn test_query_type_and_callback() {
    let q = b"type=raw&cb=handle".to_vec();
    let req = parse_http_request(b"GET/k", Some(&q), None).expect("parses");
    assert!(matches!(req.format, OutputFormat::Raw));
    assert_eq!(req.callback.as_deref(), Some(b"handle".as_slice()));

    // a non-identifier callback is silently ignored
    let q2 = b"cb=1bad".to_vec();
    let req2 = parse_http_request(b"GET/k", Some(&q2), None).expect("parses");
    assert!(req2.callback.is_none());

    // `callback` works too, and the later `type` wins
    let q3 = b"type=raw&callback=f&type=msgpack".to_vec();
    let req3 = parse_http_request(b"GET/k", Some(&q3), None).expect("parses");
    assert!(matches!(req3.format, OutputFormat::Msgpack));
    assert_eq!(req3.callback.as_deref(), Some(b"f".as_slice()));
}

#[test]
fn test_body_becomes_final_argument() {
    let body = b"hello world".to_vec();
    let req = parse_http_request(b"SET/k", None, Some(&body)).expect("parses");
    assert_eq!(req.args.len(), 2);
    assert_eq!(req.args[1], b"hello world");

    // an empty body adds nothing
    let empty = Vec::new();
    let req2 = parse_http_request(b"SET/k", None, Some(&empty)).expect("parses");
    assert_eq!(req2.args.len(), 1);
}

#[test]
fn test_empty_command_rejected() {
    let acl = Acl::new(None);
    let resp = match prepare_request(&acl, &peer(), None, b"", None, None) {
        Err(resp) => resp,
        Ok(_) => panic!("expected a refusal"),
    };
    assert_eq!(resp.status, 400);
    assert_eq!(resp.body, b"{\"error\":\"Empty command\"}");
}

#[test]
fn test_forbidden_response() {
    let acl = Acl::new(Some(vec![AclConfig {
        ip: None,
        http_basic_auth: None,
        enabled: None,
        disabled: Some(vec!["*".to_string()]),
    }]));
    let resp = match prepare_request(&acl, &peer(), None, b"GET/k", None, None) {
        Err(resp) => resp,
        Ok(_) => panic!("expected a refusal"),
    };
    assert_eq!(resp.status, 403);
    assert_eq!(resp.body, b"{\"error\":\"Forbidden\"}");
}

#[test]
fn test_backend_error_maps_to_500() {
    let req = parse_http_request(b"GET/k", None, None).expect("parses");
    let msg = b"WRONGTYPE Operation against a key".to_vec();
    let resp = finish_request(&req, Err(&msg));
    assert_eq!(resp.status, 500);
    assert_eq!(
        resp.body,
        b"{\"error\":\"WRONGTYPE Operation against a key\"}"
    );
}

#[test]
fn test_error_statuses() {
    assert_eq!(error_response(ErrorKind::Parse, b"x").status, 400);
    assert_eq!(error_response(ErrorKind::Forbidden, b"x").status, 403);
    assert_eq!(error_response(ErrorKind::LimitExceeded, b"x").status, 413);
    assert_eq!(error_response(ErrorKind::BackendUnavailable, b"x").status, 503);
    assert_eq!(error_response(ErrorKind::BackendCommand, b"x").status, 500);
    assert_eq!(error_response(ErrorKind::InternalEncode, b"x").status, 500);
}

#[test]
fn test_huge_upload() {
    // a ten-mebibyte body against a one-mebibyte cap is refused with 413
    let cap: usize = 1024 * 1024;
    let body_len: usize = 10 * 1024 * 1024;
    assert!(!body_within_limit(body_len, cap));
    assert!(body_within_limit(cap, cap));
    let resp = error_response(ErrorKind::LimitExceeded, b"Payload too large");
    assert_eq!(resp.status, 413);
}

#[test]
fn test_options_preflight() {
    let r = handle_options();
    assert_eq!(r.status, 200);
    assert!(r.cors);
    assert!(r.preflight);
    assert!(r.body.is_empty());
}
