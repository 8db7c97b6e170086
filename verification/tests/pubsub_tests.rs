//! The multiplexer: ordered delivery, lag signalling, registry lifecycle,
//! upstream coverage, and the WebSocket and event-stream framings.

use webdis::pubsub::{PubSubCommand, PubSubManager, RecvOutcome, Upstream};
use webdis::pubsub::{sse_event, sse_keepalive, sse_lagged};
use webdis::reply::Reply;
use webdis::websocket::{classify_ws_frame, ws_pubsub_frame, ws_reply_frame, WsAction};

#[test]
fn test_delivery_in_order() {
    let mut m = PubSubManager::new();
    let (idx, mut a) = m.subscribe(b"ch", 100);
    let (idx2, mut b) = m.subscribe(b"ch", 100);
    assert_eq!(idx, idx2);
    assert!(m.on_message(b"ch", b"one".to_vec()));
    assert!(m.on_message(b"ch", b"two".to_vec()));
    assert!(m.on_message(b"ch", b"three".to_vec()));
    assert!(!m.on_message(b"other", b"lost".to_vec()));

    let ep = &m.channels[idx].endpoint;
    for expected in [b"one".as_slice(), b"two", b"three"] {
        match ep.recv(&mut a) {
            RecvOutcome::Msg(p) => assert_eq!(p, expected),
            _ => panic!("expected a payload"),
        }
    }
    assert!(matches!(ep.recv(&mut a), RecvOutcome::Empty));
    // the second subscriber sees the same payloads, untouched by the first
    match ep.recv(&mut b) {
        RecvOutcome::Msg(p) => assert_eq!(p, b"one"),
        _ => panic!("expected a payload"),
    }
}

#[test]
fn test_lagged_subscriber() {
    let mut m = PubSubManager::new();
    let (idx, mut cur) = m.subscribe(b"ch", 2);
    for payload in [b"m1".as_slice(), b"m2", b"m3", b"m4", b"m5"] {
        assert!(m.on_message(b"ch", payload.to_vec()));
    }
    let ep = &m.channels[idx].endpoint;
    // five behind a ring of two: three skipped, then the retained tail
    match ep.recv(&mut cur) {
        RecvOutcome::Lagged(skipped) => assert_eq!(skipped, 3),
        _ => panic!("expected the lag signal"),
    }
    match ep.recv(&mut cur) {
        RecvOutcome::Msg(p) => assert_eq!(p, b"m4"),
        _ => panic!("expected a payload"),
    }
    match ep.recv(&mut cur) {
        RecvOutcome::Msg(p) => assert_eq!(p, b"m5"),
        _ => panic!("expected a payload"),
    }
    assert!(matches!(ep.recv(&mut cur), RecvOutcome::Empty));
}

#[test]
fn test_subscribe_queues_upstream_command() {
    let mut m = PubSubManager::new();
    let _ = m.subscribe(b"news", 100);
    assert_eq!(m.pending.len(), 1);
    assert!(matches!(&m.pending[0], PubSubCommand::Subscribe(c) if c == b"news"));
    // a second local subscriber reuses the entry and queues nothing
    let _ = m.subscribe(b"news", 100);
    assert_eq!(m.pending.len(), 1);
    assert_eq!(m.channels.len(), 1);
    assert_eq!(m.channels[0].subscribers, 2);
}

#[test]
fn test_release_removes_last_subscriber() {
    let mut m = PubSubManager::new();
    let _ = m.subscribe(b"a", 100);
    let _ = m.subscribe(b"a", 100);
    m.release(b"a");
    assert_eq!(m.channels.len(), 1);
    m.release(b"a");
    assert_eq!(m.channels.len(), 0);
    assert!(matches!(&m.pending[1], PubSubCommand::Unsubscribe(c) if c == b"a"));
}

#[test]
fn test_upstream_coverage_lifecycle() {
    let mut m = PubSubManager::new();
    let _ = m.subscribe(b"a", 100);
    let _ = m.subscribe(b"b", 100);
    assert!(matches!(m.upstream, Upstream::Disconnected));
    m.begin_connect();
    assert!(matches!(m.upstream, Upstream::Connecting));
    m.connect_failed();
    assert!(matches!(m.upstream, Upstream::Disconnected));
    m.begin_connect();
    let to_subscribe = m.connect_ok();
    // on connection every held channel is subscribed upstream
    assert_eq!(to_subscribe.len(), 2);
    assert_eq!(to_subscribe[0], b"a");
    assert_eq!(to_subscribe[1], b"b");
    match &m.upstream {
        Upstream::Subscribed(set) => assert_eq!(set.len(), 2),
        _ => panic!("expected the subscribed state"),
    }
    // a new local channel while subscribed queues its command, and the
    // drain folds it into the upstream set
    let _ = m.subscribe(b"c", 100);
    assert_eq!(m.pending.len(), 1);
    let drained = m.drain_pending();
    assert_eq!(drained.len(), 1);
    assert_eq!(m.pending.len(), 0);
    match &m.upstream {
        Upstream::Subscribed(set) => {
            assert_eq!(set.len(), 3);
            assert!(set.iter().any(|n| n == b"c"));
        }
        _ => panic!("expected the subscribed state"),
    }
    // the stream ending keeps the registry for the reconnection
    m.on_stream_end();
    assert!(matches!(m.upstream, Upstream::Disconnected));
    assert_eq!(m.channels.len(), 3);
    // an orderly shutdown drains
    m.begin_drain();
    assert!(matches!(m.upstream, Upstream::Draining));
}

#[test]
fn test_websocket_commands() {
    match classify_ws_frame(b"[\"SET\",\"ws_key\",\"ws_value\"]") {
        WsAction::Execute(name, args) => {
            assert_eq!(name, b"SET");
            assert_eq!(args.len(), 2);
            assert_eq!(args[0], b"ws_key");
            assert_eq!(args[1], b"ws_value");
        }
        _ => panic!("expected a command"),
    }
    assert_eq!(ws_reply_frame(b"SET", &Reply::Okay), b"{\"SET\":\"OK\"}");

    match classify_ws_frame(b"[\"GET\",\"ws_key\"]") {
        WsAction::Execute(name, _) => assert_eq!(name, b"GET"),
        _ => panic!("expected a command"),
    }
    assert_eq!(
        ws_reply_frame(b"GET", &Reply::Bytes(b"ws_value".to_vec())),
        b"{\"GET\":\"ws_value\"}"
    );

    // malformed or empty frames are ignored, the connection goes on
    assert!(matches!(classify_ws_frame(b"not json"), WsAction::Ignore));
    assert!(matches!(classify_ws_frame(b"[]"), WsAction::Ignore));
    assert!(matches!(classify_ws_frame(b"[1,2]"), WsAction::Ignore));
}

#[test]
fn test_websocket_pubsub() {
    match classify_ws_frame(b"[\"SUBSCRIBE\",\"ws_channel\"]") {
        WsAction::Subscribe(ch) => assert_eq!(ch, b"ws_channel"),
        _ => panic!("expected a subscription"),
    }
    // case-insensitive, and a missing channel is ignored
    assert!(matches!(
        classify_ws_frame(b"[\"subscribe\",\"x\"]"),
        WsAction::Subscribe(_)
    ));
    assert!(matches!(classify_ws_frame(b"[\"SUBSCRIBE\"]"), WsAction::Ignore));

    let mut m = PubSubManager::new();
    let (idx, mut cur) = m.subscribe(b"ws_channel", 100);
    assert!(m.on_message(b"ws_channel", b"ws_message".to_vec()));
    let ep = &m.channels[idx].endpoint;
    match ep.recv(&mut cur) {
        RecvOutcome::Msg(p) => {
            assert_eq!(p, b"ws_message");
            assert_eq!(
                ws_pubsub_frame(b"SUBSCRIBE", b"ws_channel", &p),
                b"{\"SUBSCRIBE\":[\"message\",\"ws_channel\",\"ws_message\"]}"
            );
        }
        _ => panic!("expected the published payload"),
    }
}

#[test]
fn test_sse_framing() {
    assert_eq!(sse_event(b"hi"), b"data: hi\n\n");
    assert_eq!(sse_lagged(), b"event: error\ndata: lagged\n\n");
    assert_eq!(sse_keepalive(), b": keep-alive\n\n");
}
