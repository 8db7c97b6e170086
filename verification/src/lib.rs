//! Verified core of an HTTP/WebSocket gateway in front of a key-value server.
//!
//! The library holds the logic of the gateway: request parsing, access
//! control, reply encoding, the pub/sub multiplexer's state machine, and the
//! connection-pool accounting. I/O, the async runtime and the HTTP stack live
//! outside the library and call into it with plain values.

pub mod acl;
pub mod config;
pub mod dispatch;
pub mod format;
pub mod jparse;
pub mod json;
pub mod msgpack;
pub mod pool;
pub mod pubsub;
pub mod reply;
pub mod request;
pub mod seqs;
pub mod websocket;
