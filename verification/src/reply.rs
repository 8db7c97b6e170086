//! Typed backend replies and their conversion to JSON values.
//!
//! A reply is a finite tree: nil, an integer, a byte string, a status line,
//! the plain acknowledgement, or an array of replies. Conversion follows the
//! gateway's rules: byte strings become text under lossy UTF-8 decoding, the
//! acknowledgement becomes the string `OK`, arrays convert element-wise.

use vstd::prelude::*;

use vstd::slice::slice_to_vec;
use vstd::utf8::valid_utf8;

use crate::jparse::parse_scalar_obj;
use crate::json::{json_views, jtext, JVal, Json};

verus! {

/// Typed reply from the backend, as the gateway models it.
pub enum Reply {
    Nil,
    Integer(i64),
    Bytes(Vec<u8>),
    Status(Vec<u8>),
    Okay,
    Array(Vec<Reply>),
}

impl Reply {
    /// A scalar reply is any leaf: everything but an array.
    pub open spec fn is_scalar(self) -> bool {
        !(self is Array)
    }
}

/// The bytes of the text that lossy UTF-8 decoding makes of `b`: named, not
/// defined — which replacements std makes is its own affair.
pub uninterp spec fn lossy_utf8(b: Seq<u8>) -> Seq<u8>;

/// Relies on `String::from_utf8_lossy`: valid UTF-8 passes through
/// unchanged, anything else has its invalid sequences replaced, so the
/// result is always valid UTF-8.
#[verifier::external_body]
fn utf8_lossy(b: &[u8]) -> (r: Vec<u8>)
    ensures
        r@ == lossy_utf8(b@),
        valid_utf8(b@) ==> r@ == b@,
        valid_utf8(r@),
{
    String::from_utf8_lossy(b).into_owned().into_bytes()
}

/// The two bytes of the string `OK`.
pub open spec fn okay_text() -> Seq<u8> {
    seq![79u8, 75u8]
}

/// The JSON value a reply converts to.
pub open spec fn reply_jval(r: Reply) -> JVal
    decreases r,
{
    match r {
        Reply::Nil => JVal::Null,
        Reply::Integer(n) => JVal::Int(n as int),
        Reply::Bytes(b) => JVal::Str(lossy_utf8(b@)),
        Reply::Status(s) => JVal::Str(s@),
        Reply::Okay => JVal::Str(okay_text()),
        Reply::Array(rs) => JVal::Arr(reply_jvals(rs@)),
    }
}

pub open spec fn reply_jvals(rs: Seq<Reply>) -> Seq<JVal>
    decreases rs,
{
    if rs.len() == 0 {
        Seq::empty()
    } else {
        seq![reply_jval(rs[0])] + reply_jvals(rs.subrange(1, rs.len() as int))
    }
}

proof fn lemma_reply_jvals_push(rs: Seq<Reply>, x: Reply)
    ensures
        reply_jvals(rs.push(x)) == reply_jvals(rs).push(reply_jval(x)),
    decreases rs.len(),
{
    let p = rs.push(x);
    if rs.len() == 0 {
        assert(p[0] == x);
        assert(p.subrange(1, p.len() as int) =~= Seq::<Reply>::empty());
        assert(reply_jvals(Seq::<Reply>::empty()) == Seq::<JVal>::empty());
        assert(reply_jvals(p) == seq![reply_jval(x)] + Seq::<JVal>::empty());
        assert(reply_jvals(p) =~= reply_jvals(rs).push(reply_jval(x)));
    } else {
        let tail = rs.subrange(1, rs.len() as int);
        assert(p.subrange(1, p.len() as int) =~= tail.push(x));
        assert(p[0] == rs[0]);
        lemma_reply_jvals_push(tail, x);
        assert(reply_jvals(p) == seq![reply_jval(rs[0])] + reply_jvals(tail).push(
            reply_jval(x),
        ));
        assert(reply_jvals(rs) == seq![reply_jval(rs[0])] + reply_jvals(tail));
        assert(reply_jvals(p) =~= reply_jvals(rs).push(reply_jval(x)));
    }
}

proof fn lemma_json_views_push(es: Seq<Json>, x: Json)
    ensures
        json_views(es.push(x)) == json_views(es).push(crate::json::json_view(x)),
    decreases es.len(),
{
    let p = es.push(x);
    if es.len() == 0 {
        assert(p[0] == x);
        assert(p.subrange(1, p.len() as int) =~= Seq::<Json>::empty());
        assert(json_views(Seq::<Json>::empty()) == Seq::<JVal>::empty());
        assert(json_views(p) == seq![crate::json::json_view(x)] + Seq::<JVal>::empty());
        assert(json_views(p) =~= json_views(es).push(crate::json::json_view(x)));
    } else {
        let tail = es.subrange(1, es.len() as int);
        assert(p.subrange(1, p.len() as int) =~= tail.push(x));
        assert(p[0] == es[0]);
        lemma_json_views_push(tail, x);
        assert(json_views(p) == seq![crate::json::json_view(es[0])] + json_views(tail).push(
            crate::json::json_view(x),
        ));
        assert(json_views(es) == seq![crate::json::json_view(es[0])] + json_views(tail));
        assert(json_views(p) =~= json_views(es).push(crate::json::json_view(x)));
    }
}

/// Converts a typed reply to a JSON value, per the gateway's rules.
pub fn redis_value_to_json(v: &Reply) -> (r: Json)
    ensures
        r@ == reply_jval(*v),
    decreases *v, 0int,
{
    match v {
        Reply::Nil => Json::Null,
        Reply::Integer(n) => Json::Int(*n),
        Reply::Bytes(b) => Json::Str(utf8_lossy(b.as_slice())),
        Reply::Status(s) => Json::Str(slice_to_vec(s.as_slice())),
        Reply::Okay => {
            let mut ok: Vec<u8> = Vec::new();
            ok.push(79);
            ok.push(75);
            assert(ok@ =~= okay_text());
            Json::Str(ok)
        },
        Reply::Array(rs) => Json::Arr(replies_to_json(rs)),
    }
}

/// Converts the elements of an array reply.
fn replies_to_json(rs: &Vec<Reply>) -> (r: Vec<Json>)
    ensures
        json_views(r@) == reply_jvals(rs@),
    decreases *rs, 1int,
{
    let mut out: Vec<Json> = Vec::new();
    let n = rs.len();
    let mut i: usize = 0;
    proof {
        assert(rs@.take(0) =~= Seq::<Reply>::empty());
    }
    while i < n
        invariant
            n == rs@.len(),
            0 <= i <= n,
            json_views(out@) == reply_jvals(rs@.take(i as int)),
        decreases n - i,
    {
        proof {
            assert(decreases_to!(*rs => rs@));
            assert(decreases_to!(rs@ => rs@[i as int]));
        }
        let j = redis_value_to_json(&rs[i]);
        let ghost out0 = out@;
        out.push(j);
        proof {
            lemma_json_views_push(out0, j);
            lemma_reply_jvals_push(rs@.take(i as int), rs@[i as int]);
            assert(rs@.take(i as int + 1) =~= rs@.take(i as int).push(rs@[i as int]));
            assert(out@ =~= out0.push(j));
        }
        i += 1;
    }
    proof {
        assert(rs@.take(n as int) =~= rs@);
    }
    out
}

/// Format round-trip law: the JSON text of a scalar reply encoded under its
/// command name parses back to exactly that name and the reply's converted
/// value — for a byte-string reply, its lossy UTF-8 text form.
pub proof fn lemma_format_round_trip(cmd: Seq<u8>, r: Reply)
    requires
        r.is_scalar(),
    ensures
        parse_scalar_obj(jtext(JVal::Obj(seq![(cmd, reply_jval(r))]))) == Some(
            (cmd, reply_jval(r)),
        ),
{
    crate::jparse::lemma_scalar_object_round_trip(cmd, reply_jval(r));
}

} // verus!
