//! Output formatting: the selected format, the rendered response body, the
//! content type, and the mapping of errors to status codes. Every response
//! carries the open cross-origin header.

use vstd::prelude::*;

use crate::json::{jtext, JsonPair, JVal, Json};
use crate::reply::{redis_value_to_json, reply_jval, Reply};
use crate::seqs::{dec_int, push_all, push_dec_i64};

verus! {

/// The client-selected output format.
#[derive(PartialEq, Eq, Structural, Clone, Copy)]
pub enum OutputFormat {
    Json,
    Raw,
    Msgpack,
}

/// What a format extension selects: `raw`, `msg` and `msgpack` choose their
/// formats, anything else falls back to JSON.
pub open spec fn format_of_extension(e: Seq<char>) -> OutputFormat {
    if e =~= ("raw")@ {
        OutputFormat::Raw
    } else if e =~= ("msg")@ || e =~= ("msgpack")@ {
        OutputFormat::Msgpack
    } else {
        OutputFormat::Json
    }
}

impl OutputFormat {
    pub fn from_extension(ext: &str) -> (r: Self)
        ensures
            r == format_of_extension(ext@),
    {
        proof {
            reveal_strlit("raw");
            reveal_strlit("msg");
            reveal_strlit("msgpack");
        }
        let n = ext.unicode_len();
        if n == 3 && ext.get_char(0) == 'r' && ext.get_char(1) == 'a' && ext.get_char(2) == 'w' {
            assert(ext@ =~= ("raw")@);
            OutputFormat::Raw
        } else if n == 3 && ext.get_char(0) == 'm' && ext.get_char(1) == 's' && ext.get_char(2)
            == 'g' {
            assert(ext@ =~= ("msg")@);
            OutputFormat::Msgpack
        } else if n == 7 && ext.get_char(0) == 'm' && ext.get_char(1) == 's' && ext.get_char(2)
            == 'g' && ext.get_char(3) == 'p' && ext.get_char(4) == 'a' && ext.get_char(5) == 'c'
            && ext.get_char(6) == 'k' {
            assert(ext@ =~= ("msgpack")@);
            OutputFormat::Msgpack
        } else {
            proof {
                if ext@ =~= ("raw")@ {
                    assert(false);
                }
                if ext@ =~= ("msg")@ {
                    assert(false);
                }
                if ext@ =~= ("msgpack")@ {
                    assert(false);
                }
            }
            OutputFormat::Json
        }
    }
}

/// The content type a response is served under.
#[derive(PartialEq, Eq, Structural, Clone, Copy)]
pub enum ContentType {
    Unset,
    Json,
    JavaScript,
    Plain,
    Msgpack,
    EventStream,
}

/// A response as the library shapes it: status, content type, body, and the
/// cross-origin and preflight headers. `cors` set means the response carries
/// `Access-Control-Allow-Origin: *`; `preflight` adds the allowed methods
/// and headers.
pub struct HttpResponse {
    pub status: u16,
    pub content_type: ContentType,
    pub body: Vec<u8>,
    pub cors: bool,
    pub preflight: bool,
}

/// The lexical form of one scalar under the raw format; deeper structure
/// falls back to JSON text.
pub open spec fn raw_scalar(v: JVal) -> Seq<u8> {
    match v {
        JVal::Null => Seq::empty(),
        JVal::Bool(b) => if b {
            seq![116u8, 114u8, 117u8, 101u8]
        } else {
            seq![102u8, 97u8, 108u8, 115u8, 101u8]
        },
        JVal::Int(n) => dec_int(n),
        JVal::Str(s) => s,
        JVal::Arr(_) => jtext(v),
        JVal::Obj(_) => jtext(v),
    }
}

/// One item of a raw array: a nested array collapses one level, joined with
/// newlines.
pub open spec fn raw_item(v: JVal) -> Seq<u8> {
    match v {
        JVal::Arr(es) => raw_scalars(es),
        _ => raw_scalar(v),
    }
}

pub open spec fn raw_scalars(es: Seq<JVal>) -> Seq<u8>
    decreases es,
{
    if es.len() == 0 {
        Seq::empty()
    } else if es.len() == 1 {
        raw_scalar(es[0])
    } else {
        raw_scalar(es[0]) + seq![10u8] + raw_scalars(es.subrange(1, es.len() as int))
    }
}

pub open spec fn raw_items(es: Seq<JVal>) -> Seq<u8>
    decreases es,
{
    if es.len() == 0 {
        Seq::empty()
    } else if es.len() == 1 {
        raw_item(es[0])
    } else {
        raw_item(es[0]) + seq![10u8] + raw_items(es.subrange(1, es.len() as int))
    }
}

/// The whole raw body: a scalar's lexical form, or the items of an array
/// joined with newlines.
pub open spec fn raw_text(v: JVal) -> Seq<u8> {
    match v {
        JVal::Arr(es) => raw_items(es),
        _ => raw_scalar(v),
    }
}

proof fn lemma_raw_scalars_snoc(es: Seq<JVal>, i: int)
    requires
        1 <= i < es.len(),
    ensures
        raw_scalars(es.take(i + 1)) == raw_scalars(es.take(i)) + seq![10u8] + raw_scalar(es[i]),
    decreases i,
{
    let t1 = es.take(i + 1);
    let t0 = es.take(i);
    if i == 1 {
        let s1 = seq![es[1]];
        assert(t1.subrange(1, t1.len() as int) =~= s1);
        assert(raw_scalars(s1) == raw_scalar(s1[0]));
        assert(t0 =~= seq![es[0]]);
        assert(raw_scalars(t1) =~= raw_scalars(t0) + seq![10u8] + raw_scalar(es[1]));
    } else {
        let d = es.subrange(1, es.len() as int);
        lemma_raw_scalars_snoc(d, i - 1);
        assert(t1.subrange(1, t1.len() as int) =~= d.take(i));
        assert(t0.subrange(1, t0.len() as int) =~= d.take(i - 1));
        assert(d[i - 1] == es[i]);
        assert(raw_scalars(t1) =~= raw_scalar(es[0]) + seq![10u8] + raw_scalars(d.take(i)));
        assert(raw_scalars(t0) =~= raw_scalar(es[0]) + seq![10u8] + raw_scalars(d.take(i - 1)));
        assert(raw_scalars(t1) =~= raw_scalars(t0) + seq![10u8] + raw_scalar(es[i]));
    }
}

proof fn lemma_raw_items_snoc(es: Seq<JVal>, i: int)
    requires
        1 <= i < es.len(),
    ensures
        raw_items(es.take(i + 1)) == raw_items(es.take(i)) + seq![10u8] + raw_item(es[i]),
    decreases i,
{
    let t1 = es.take(i + 1);
    let t0 = es.take(i);
    if i == 1 {
        let s1 = seq![es[1]];
        assert(t1.subrange(1, t1.len() as int) =~= s1);
        assert(raw_items(s1) == raw_item(s1[0]));
        assert(t0 =~= seq![es[0]]);
        assert(raw_items(t1) =~= raw_items(t0) + seq![10u8] + raw_item(es[1]));
    } else {
        let d = es.subrange(1, es.len() as int);
        lemma_raw_items_snoc(d, i - 1);
        assert(t1.subrange(1, t1.len() as int) =~= d.take(i));
        assert(t0.subrange(1, t0.len() as int) =~= d.take(i - 1));
        assert(d[i - 1] == es[i]);
        assert(raw_items(t1) =~= raw_item(es[0]) + seq![10u8] + raw_items(d.take(i)));
        assert(raw_items(t0) =~= raw_item(es[0]) + seq![10u8] + raw_items(d.take(i - 1)));
        assert(raw_items(t1) =~= raw_items(t0) + seq![10u8] + raw_item(es[i]));
    }
}

/// Appends a scalar's lexical form; deeper structure as JSON text.
fn write_raw_scalar(v: &Json, out: &mut Vec<u8>)
    ensures
        final(out)@ == old(out)@ + raw_scalar(v@),
{
    match v {
        Json::Null => {
            assert(out@ =~= old(out)@ + raw_scalar(v@));
        },
        Json::Bool(b) => {
            if *b {
                out.push(116);
                out.push(114);
                out.push(117);
                out.push(101);
            } else {
                out.push(102);
                out.push(97);
                out.push(108);
                out.push(115);
                out.push(101);
            }
            assert(out@ =~= old(out)@ + raw_scalar(v@));
        },
        Json::Int(n) => {
            push_dec_i64(out, *n);
        },
        Json::Str(s) => {
            push_all(out, s.as_slice());
        },
        Json::Arr(_) => {
            crate::json::json_write(v, out);
        },
        Json::Obj(_) => {
            crate::json::json_write(v, out);
        },
    }
}

/// Appends the newline-joined scalar forms of the elements.
fn write_raw_scalars(es: &Vec<Json>, out: &mut Vec<u8>)
    ensures
        final(out)@ == old(out)@ + raw_scalars(crate::json::json_views(es@)),
{
    let ghost ves = crate::json::json_views(es@);
    proof {
        crate::json::lemma_json_views_len(es@);
        assert forall|k: int| 0 <= k < es@.len() implies crate::json::json_views(es@)[k]
            == crate::json::json_view(es@[k]) by {
            crate::json::lemma_json_views_index(es@, k);
        }
    }
    let n = es.len();
    let mut i: usize = 0;
    while i < n
        invariant
            n == es@.len(),
            0 <= i <= n,
            ves == crate::json::json_views(es@),
            ves.len() == n,
            forall|k: int| 0 <= k < n ==> ves[k] == crate::json::json_view(es@[k]),
            out@ == old(out)@ + raw_scalars(ves.take(i as int)),
        decreases n - i,
    {
        if i > 0 {
            out.push(10);
            write_raw_scalar(&es[i], out);
            proof {
                lemma_raw_scalars_snoc(ves, i as int);
                assert(out@ =~= old(out)@ + raw_scalars(ves.take(i as int + 1)));
            }
        } else {
            write_raw_scalar(&es[i], out);
            proof {
                assert(ves.take(1) =~= seq![ves[0]]);
                assert(out@ =~= old(out)@ + raw_scalars(ves.take(1)));
            }
        }
        i += 1;
    }
    proof {
        assert(ves.take(n as int) =~= ves);
    }
}

/// Appends one raw item: a nested array collapses one level.
fn write_raw_item(v: &Json, out: &mut Vec<u8>)
    ensures
        final(out)@ == old(out)@ + raw_item(v@),
{
    match v {
        Json::Arr(es) => {
            write_raw_scalars(es, out);
        },
        _ => {
            write_raw_scalar(v, out);
        },
    }
}

/// The raw body of a value.
pub fn write_raw(v: &Json, out: &mut Vec<u8>)
    ensures
        final(out)@ == old(out)@ + raw_text(v@),
{
    match v {
        Json::Arr(es) => {
            let ghost ves = crate::json::json_views(es@);
            proof {
                crate::json::lemma_json_views_len(es@);
                assert forall|k: int| 0 <= k < es@.len() implies crate::json::json_views(es@)[k]
                    == crate::json::json_view(es@[k]) by {
                    crate::json::lemma_json_views_index(es@, k);
                }
            }
            let n = es.len();
            let mut i: usize = 0;
            while i < n
                invariant
                    n == es@.len(),
                    0 <= i <= n,
                    ves == crate::json::json_views(es@),
                    ves.len() == n,
                    forall|k: int| 0 <= k < n ==> ves[k] == crate::json::json_view(es@[k]),
                    out@ == old(out)@ + raw_items(ves.take(i as int)),
                decreases n - i,
            {
                if i > 0 {
                    out.push(10);
                    write_raw_item(&es[i], out);
                    proof {
                        lemma_raw_items_snoc(ves, i as int);
                        assert(out@ =~= old(out)@ + raw_items(ves.take(i as int + 1)));
                    }
                } else {
                    write_raw_item(&es[i], out);
                    proof {
                        assert(ves.take(1) =~= seq![ves[0]]);
                        assert(out@ =~= old(out)@ + raw_items(ves.take(1)));
                    }
                }
                i += 1;
            }
            proof {
                assert(ves.take(n as int) =~= ves);
            }
        },
        _ => {
            write_raw_scalar(v, out);
        },
    }
}

/// The JSON body of a reply under its command name: `{"<name>":<value>}`.
pub open spec fn json_body(name: Seq<u8>, r: Reply) -> Seq<u8> {
    jtext(JVal::Obj(seq![(name, reply_jval(r))]))
}

/// A JSONP body: the callback around the JSON body.
pub open spec fn jsonp_body(cb: Seq<u8>, name: Seq<u8>, r: Reply) -> Seq<u8> {
    cb + seq![40u8] + json_body(name, r) + seq![41u8]
}

impl OutputFormat {
    /// Renders a reply under the selected format: JSON (wrapped by the
    /// callback when one is set), raw text, or MessagePack; always status
    /// 200 and the open cross-origin header.
    pub fn format_response(&self, command: &[u8], reply: &Reply, callback: Option<&Vec<u8>>) -> (r:
        HttpResponse)
        requires
            *self is Msgpack ==> command@.len() < 0x100000000 && crate::msgpack::msg_encodable(
                *reply,
            ),
        ensures
            r.status == 200,
            r.cors,
            !r.preflight,
            (match *self {
                OutputFormat::Json => (match callback {
                    Some(cb) => r.body@ == jsonp_body(cb@, command@, *reply) && r.content_type
                        == ContentType::JavaScript,
                    None => r.body@ == json_body(command@, *reply) && r.content_type
                        == ContentType::Json,
                }),
                OutputFormat::Raw => r.body@ == raw_text(reply_jval(*reply)) && r.content_type
                    == ContentType::Plain,
                OutputFormat::Msgpack => r.body@ == crate::msgpack::msg_body(command@, *reply)
                    && r.content_type == ContentType::Msgpack,
            }),
    {
        match self {
            OutputFormat::Json => {
                let value = redis_value_to_json(reply);
                let key = crate::seqs::copy_bytes(command);
                let obj = Json::Obj(vec![JsonPair { key, val: value }]);
                proof {
                    let ps = (match obj {
                        Json::Obj(ref v) => v@,
                        _ => Seq::empty(),
                    });
                    crate::json::lemma_pair_views_index(ps, 0);
                    assert(crate::json::pair_views(ps) =~= seq![(command@, reply_jval(*reply))]);
                }
                match callback {
                    Some(cb) => {
                        let mut body: Vec<u8> = Vec::new();
                        push_all(&mut body, cb.as_slice());
                        body.push(40);
                        crate::json::json_write(&obj, &mut body);
                        body.push(41);
                        proof {
                            assert(body@ =~= jsonp_body(cb@, command@, *reply));
                        }
                        HttpResponse {
                            status: 200,
                            content_type: ContentType::JavaScript,
                            body,
                            cors: true,
                            preflight: false,
                        }
                    },
                    None => {
                        let body = crate::json::json_to_bytes(&obj);
                        HttpResponse {
                            status: 200,
                            content_type: ContentType::Json,
                            body,
                            cors: true,
                            preflight: false,
                        }
                    },
                }
            },
            OutputFormat::Raw => {
                let value = redis_value_to_json(reply);
                let mut body: Vec<u8> = Vec::new();
                write_raw(&value, &mut body);
                proof {
                    assert(body@ =~= raw_text(reply_jval(*reply)));
                }
                HttpResponse {
                    status: 200,
                    content_type: ContentType::Plain,
                    body,
                    cors: true,
                    preflight: false,
                }
            },
            OutputFormat::Msgpack => {
                let body = crate::msgpack::msgpack_body(command, reply);
                HttpResponse {
                    status: 200,
                    content_type: ContentType::Msgpack,
                    body,
                    cors: true,
                    preflight: false,
                }
            },
        }
    }
}

} // verus!
