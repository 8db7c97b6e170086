//! The command dispatcher's decisions: parse, authorize, render, and the
//! mapping of every error kind to its status code and body. The pieces that
//! wait — leasing a connection, running the command — live outside; the
//! functions here decide what to do before and after the wait.

use vstd::prelude::*;

use crate::acl::{acl_eval, opt_bytes, Acl, PeerAddr};
use crate::format::{ContentType, HttpResponse};
use crate::json::{jtext, JsonPair, JVal, Json};
use crate::reply::Reply;
use crate::request::{opt_view, parse_http_request, parsed_request, CommandRequest};

verus! {

/// The kinds of failure a request can meet.
pub enum ErrorKind {
    Parse,
    Forbidden,
    LimitExceeded,
    BackendUnavailable,
    BackendCommand,
    InternalEncode,
}

/// The status code each kind answers with.
pub open spec fn status_of(k: ErrorKind) -> u16 {
    match k {
        ErrorKind::Parse => 400,
        ErrorKind::Forbidden => 403,
        ErrorKind::LimitExceeded => 413,
        ErrorKind::BackendUnavailable => 503,
        ErrorKind::BackendCommand => 500,
        ErrorKind::InternalEncode => 500,
    }
}

/// The JSON error body `{"error":"<message>"}`.
pub open spec fn error_body(msg: Seq<u8>) -> Seq<u8> {
    jtext(JVal::Obj(seq![(seq![101u8, 114u8, 114u8, 111u8, 114u8], JVal::Str(msg))]))
}

/// An error response: the kind's status, a JSON error body, the open
/// cross-origin header.
pub fn error_response(kind: ErrorKind, message: &[u8]) -> (r: HttpResponse)
    ensures
        r.status == status_of(kind),
        r.content_type == ContentType::Json,
        r.body@ == error_body(message@),
        r.cors,
        !r.preflight,
{
    let status: u16 = match kind {
        ErrorKind::Parse => 400,
        ErrorKind::Forbidden => 403,
        ErrorKind::LimitExceeded => 413,
        ErrorKind::BackendUnavailable => 503,
        ErrorKind::BackendCommand => 500,
        ErrorKind::InternalEncode => 500,
    };
    let mut key: Vec<u8> = Vec::new();
    key.push(101);
    key.push(114);
    key.push(114);
    key.push(111);
    key.push(114);
    assert(key@ =~= seq![101u8, 114u8, 114u8, 111u8, 114u8]);
    let obj = Json::Obj(vec![
        JsonPair { key, val: Json::Str(crate::seqs::copy_bytes(message)) },
    ]);
    proof {
        let ps = (match obj {
            Json::Obj(ref v) => v@,
            _ => Seq::empty(),
        });
        crate::json::lemma_pair_views_index(ps, 0);
        assert(crate::json::pair_views(ps) =~= seq![
            (seq![101u8, 114u8, 114u8, 111u8, 114u8], JVal::Str(message@)),
        ]);
    }
    let body = crate::json::json_to_bytes(&obj);
    HttpResponse { status, content_type: ContentType::Json, body, cors: true, preflight: false }
}

/// The preflight answer: status 200, the cross-origin header, the allowed
/// methods and headers, no body.
pub fn handle_options() -> (r: HttpResponse)
    ensures
        r.status == 200,
        r.cors,
        r.preflight,
        r.body@.len() == 0,
        r.content_type == ContentType::Unset,
{
    HttpResponse {
        status: 200,
        content_type: ContentType::Unset,
        body: Vec::new(),
        cors: true,
        preflight: true,
    }
}

/// Whether a request body of `len` bytes is within the configured cap.
pub fn body_within_limit(len: usize, max: usize) -> (r: bool)
    ensures
        r == (len <= max),
{
    len <= max
}

/// Parses and authorizes a request: the command to run, or the immediate
/// answer — 400 for an empty command, 403 when the access rules deny it.
pub fn prepare_request(
    acl: &Acl,
    peer: &PeerAddr,
    auth: Option<&Vec<u8>>,
    path: &[u8],
    query: Option<&Vec<u8>>,
    body: Option<&Vec<u8>>,
) -> (r: Result<CommandRequest, HttpResponse>)
    ensures
        (match parsed_request(path@, opt_view(query), opt_view(body)) {
            None => (match r {
                Err(resp) => resp.status == 400 && resp.body@ == error_body(
                    seq![69u8, 109u8, 112u8, 116u8, 121u8, 32u8, 99u8, 111u8, 109u8, 109u8, 97u8, 110u8, 100u8],
                ) && resp.cors,
                Ok(_) => false,
            }),
            Some(g) => if !acl_eval(acl.rules@, *peer, opt_bytes(auth), g.0) {
                (match r {
                    Err(resp) => resp.status == 403 && resp.body@ == error_body(
                        seq![70u8, 111u8, 114u8, 98u8, 105u8, 100u8, 100u8, 101u8, 110u8],
                    ) && resp.cors,
                    Ok(_) => false,
                })
            } else {
                (match r {
                    Ok(req) => req.name@ == g.0 && req.args@.len() == g.1.len() && (forall|i: int|
                        0 <= i < g.1.len() ==> req.args@[i]@ == g.1[i]) && req.format == g.2 && (
                    match (req.callback, g.3) {
                        (Some(c), Some(gc)) => c@ == gc,
                        (None, None) => true,
                        _ => false,
                    }),
                    Err(_) => false,
                })
            },
        }),
{
    match parse_http_request(path, query, body) {
        None => {
            let mut msg: Vec<u8> = Vec::new();
            msg.push(69);
            msg.push(109);
            msg.push(112);
            msg.push(116);
            msg.push(121);
            msg.push(32);
            msg.push(99);
            msg.push(111);
            msg.push(109);
            msg.push(109);
            msg.push(97);
            msg.push(110);
            msg.push(100);
            assert(msg@ =~= seq![
                69u8, 109u8, 112u8, 116u8, 121u8, 32u8, 99u8, 111u8, 109u8, 109u8, 97u8, 110u8,
                100u8,
            ]);
            Err(error_response(ErrorKind::Parse, msg.as_slice()))
        },
        Some(req) => {
            if acl.check(peer, auth, req.name.as_slice()) {
                Ok(req)
            } else {
                let mut msg: Vec<u8> = Vec::new();
                msg.push(70);
                msg.push(111);
                msg.push(114);
                msg.push(98);
                msg.push(105);
                msg.push(100);
                msg.push(100);
                msg.push(101);
                msg.push(110);
                assert(msg@ =~= seq![70u8, 111u8, 114u8, 98u8, 105u8, 100u8, 100u8, 101u8, 110u8]);
                Err(error_response(ErrorKind::Forbidden, msg.as_slice()))
            }
        },
    }
}

/// Renders the outcome of a command: the formatted reply on success, a 500
/// with the backend's message on failure.
pub fn finish_request(req: &CommandRequest, result: Result<&Reply, &Vec<u8>>) -> (r: HttpResponse)
    requires
        (match result {
            Ok(rep) => req.format is Msgpack ==> req.name@.len() < 0x100000000
                && crate::msgpack::msg_encodable(*rep),
            Err(_) => true,
        }),
    ensures
        (match result {
            Ok(rep) => r.status == 200 && r.cors && (match req.format {
                crate::format::OutputFormat::Json => (match req.callback {
                    Some(cb) => r.body@ == crate::format::jsonp_body(cb@, req.name@, *rep),
                    None => r.body@ == crate::format::json_body(req.name@, *rep),
                }),
                crate::format::OutputFormat::Raw => r.body@ == crate::format::raw_text(
                    crate::reply::reply_jval(*rep),
                ),
                crate::format::OutputFormat::Msgpack => r.body@ == crate::msgpack::msg_body(
                    req.name@,
                    *rep,
                ),
            }),
            Err(msg) => r.status == 500 && r.body@ == error_body(msg@) && r.cors,
        }),
{
    match result {
        Ok(rep) => req.format.format_response(
            req.name.as_slice(),
            rep,
            (match &req.callback {
                Some(cb) => Some(cb),
                None => None,
            }),
        ),
        Err(msg) => error_response(ErrorKind::BackendCommand, msg.as_slice()),
    }
}

} // verus!
