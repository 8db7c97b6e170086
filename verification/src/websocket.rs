//! WebSocket frame handling: a text frame is a JSON array of strings — the
//! command and its arguments. A malformed or empty frame is ignored and the
//! connection continues; a subscribe frame binds the socket to a channel;
//! anything else runs as a command. Outbound frames carry the same JSON
//! bodies as HTTP responses, and channel messages arrive as
//! `{"<command>":["message","<channel>","<payload>"]}`.

use vstd::prelude::*;

use crate::jparse::parse_str_array;
use crate::json::{jtext, JsonPair, JVal, Json};
use crate::reply::{reply_jval, Reply};
use crate::seqs::{copy_bytes, eq_ignore_case};

verus! {

/// What a text frame asks the socket to do.
pub enum WsAction {
    Ignore,
    Subscribe(Vec<u8>),
    Execute(Vec<u8>, Vec<Vec<u8>>),
}

/// The ghost image of a frame's meaning.
pub enum WsActionView {
    Ignore,
    Subscribe(Seq<u8>),
    Execute(Seq<u8>, Seq<Seq<u8>>),
}

/// The bytes of the word `SUBSCRIBE`.
pub open spec fn subscribe_word() -> Seq<u8> {
    seq![83u8, 85u8, 66u8, 83u8, 67u8, 82u8, 73u8, 66u8, 69u8]
}

/// What a frame means: nothing when it is not a JSON array of strings or is
/// empty; a channel binding when its command is `SUBSCRIBE`, case aside,
/// with at least one argument; otherwise a command to run.
pub open spec fn ws_frame_meaning(frame: Seq<u8>) -> WsActionView {
    match parse_str_array(frame) {
        None => WsActionView::Ignore,
        Some(items) => if items.len() == 0 {
            WsActionView::Ignore
        } else if eq_ignore_case(items[0], subscribe_word()) {
            if items.len() < 2 {
                WsActionView::Ignore
            } else {
                WsActionView::Subscribe(items[1])
            }
        } else {
            WsActionView::Execute(items[0], items.skip(1))
        },
    }
}

/// Classifies one inbound text frame.
pub fn classify_ws_frame(frame: &[u8]) -> (r: WsAction)
    ensures
        (match (r, ws_frame_meaning(frame@)) {
            (WsAction::Ignore, WsActionView::Ignore) => true,
            (WsAction::Subscribe(c), WsActionView::Subscribe(gc)) => c@ == gc,
            (WsAction::Execute(name, args), WsActionView::Execute(gn, ga)) => name@ == gn
                && args@.len() == ga.len() && (forall|i: int|
                0 <= i < ga.len() ==> args@[i]@ == ga[i]),
            _ => false,
        }),
{
    match crate::jparse::json_parse_string_array(frame) {
        None => WsAction::Ignore,
        Some(mut items) => {
            if items.len() == 0 {
                return WsAction::Ignore;
            }
            let mut word: Vec<u8> = Vec::new();
            word.push(83);
            word.push(85);
            word.push(66);
            word.push(83);
            word.push(67);
            word.push(82);
            word.push(73);
            word.push(66);
            word.push(69);
            assert(word@ =~= subscribe_word());
            if crate::seqs::bytes_eq_ignore_case(items[0].as_slice(), word.as_slice()) {
                if items.len() < 2 {
                    WsAction::Ignore
                } else {
                    WsAction::Subscribe(copy_bytes(items[1].as_slice()))
                }
            } else {
                let n = items.len();
                let name = copy_bytes(items[0].as_slice());
                let mut args: Vec<Vec<u8>> = Vec::new();
                let mut i: usize = 1;
                let ghost gitems = (match parse_str_array(frame@) {
                    Some(g) => g,
                    None => Seq::empty(),
                });
                while i < n
                    invariant
                        n == items@.len(),
                        1 <= i <= n,
                        args@.len() == i - 1,
                        gitems.len() == n,
                        forall|q: int| 0 <= q < n ==> items@[q]@ == gitems[q],
                        forall|q: int| 0 <= q < i - 1 ==> args@[q]@ == gitems[q + 1],
                    decreases n - i,
                {
                    args.push(copy_bytes(items[i].as_slice()));
                    i += 1;
                }
                proof {
                    assert forall|q: int| 0 <= q < gitems.skip(1).len() implies args@[q]@
                        == gitems.skip(1)[q] by {
                        assert(gitems.skip(1)[q] == gitems[q + 1]);
                    }
                }
                WsAction::Execute(name, args)
            }
        },
    }
}

/// The JSON frame a command's reply travels back in: the same body as the
/// HTTP JSON format.
pub fn ws_reply_frame(cmd: &[u8], reply: &Reply) -> (r: Vec<u8>)
    ensures
        r@ == crate::format::json_body(cmd@, *reply),
{
    let value = crate::reply::redis_value_to_json(reply);
    let key = copy_bytes(cmd);
    let obj = Json::Obj(vec![JsonPair { key, val: value }]);
    proof {
        let ps = (match obj {
            Json::Obj(ref v) => v@,
            _ => Seq::empty(),
        });
        crate::json::lemma_pair_views_index(ps, 0);
        assert(crate::json::pair_views(ps) =~= seq![(cmd@, reply_jval(*reply))]);
    }
    crate::json::json_to_bytes(&obj)
}

/// The bytes of the word `message`.
pub open spec fn message_word() -> Seq<u8> {
    seq![109u8, 101u8, 115u8, 115u8, 97u8, 103u8, 101u8]
}

/// The text of a channel message delivered to a subscribed socket:
/// `{"<command>":["message","<channel>","<payload>"]}`.
pub open spec fn ws_pubsub_text(cmd: Seq<u8>, channel: Seq<u8>, payload: Seq<u8>) -> Seq<u8> {
    jtext(
        JVal::Obj(
            seq![
                (
                    cmd,
                    JVal::Arr(
                        seq![JVal::Str(message_word()), JVal::Str(channel), JVal::Str(payload)],
                    ),
                ),
            ],
        ),
    )
}

/// Renders a channel message for a subscribed socket.
pub fn ws_pubsub_frame(cmd: &[u8], channel: &[u8], payload: &[u8]) -> (r: Vec<u8>)
    ensures
        r@ == ws_pubsub_text(cmd@, channel@, payload@),
{
    let mut word: Vec<u8> = Vec::new();
    word.push(109);
    word.push(101);
    word.push(115);
    word.push(115);
    word.push(97);
    word.push(103);
    word.push(101);
    assert(word@ =~= message_word());
    let arr = Json::Arr(
        vec![
            Json::Str(word),
            Json::Str(copy_bytes(channel)),
            Json::Str(copy_bytes(payload)),
        ],
    );
    proof {
        let es = (match arr {
            Json::Arr(ref v) => v@,
            _ => Seq::empty(),
        });
        crate::json::lemma_json_views_index(es, 0);
        crate::json::lemma_json_views_index(es, 1);
        crate::json::lemma_json_views_index(es, 2);
        assert(crate::json::json_views(es) =~= seq![
            JVal::Str(message_word()),
            JVal::Str(channel@),
            JVal::Str(payload@),
        ]);
    }
    let obj = Json::Obj(vec![JsonPair { key: copy_bytes(cmd), val: arr }]);
    proof {
        let ps = (match obj {
            Json::Obj(ref v) => v@,
            _ => Seq::empty(),
        });
        crate::json::lemma_pair_views_index(ps, 0);
        assert(crate::json::pair_views(ps) =~= seq![
            (
                cmd@,
                JVal::Arr(
                    seq![JVal::Str(message_word()), JVal::Str(channel@), JVal::Str(payload@)],
                ),
            ),
        ]);
    }
    crate::json::json_to_bytes(&obj)
}

/// The error frame a failed socket command answers with: the same JSON
/// error body as HTTP.
pub fn ws_error_frame(message: &[u8]) -> (r: Vec<u8>)
    ensures
        r@ == crate::dispatch::error_body(message@),
{
    let resp = crate::dispatch::error_response(
        crate::dispatch::ErrorKind::BackendCommand,
        message,
    );
    resp.body
}

} // verus!
