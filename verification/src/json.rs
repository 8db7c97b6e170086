//! JSON values and the gateway's wire encoding of them.
//!
//! Replies, error bodies and WebSocket frames all travel as JSON text whose
//! shape this module pins down byte for byte: `jtext` is the mathematical
//! encoding, `json_write` the executable one, proved equal. Strings are byte
//! strings: the gateway's arguments and payloads are binary, and the encoder
//! passes bytes above the escape range through unchanged.

use vstd::prelude::*;

use crate::seqs::{
    concat_map, dec_int, hex_byte, lemma_concat_map_take_snoc, push_dec_i64,
};

verus! {

/// Mathematical JSON value: the model that contracts speak of.
pub enum JVal {
    Null,
    Bool(bool),
    Int(int),
    Str(Seq<u8>),
    Arr(Seq<JVal>),
    Obj(Seq<(Seq<u8>, JVal)>),
}

impl JVal {
    /// A scalar is a leaf: no array, no object.
    pub open spec fn is_scalar(self) -> bool {
        match self {
            JVal::Null => true,
            JVal::Bool(_) => true,
            JVal::Int(_) => true,
            JVal::Str(_) => true,
            JVal::Arr(_) => false,
            JVal::Obj(_) => false,
        }
    }

    pub open spec fn arr_elems(self) -> Seq<JVal> {
        match self {
            JVal::Arr(es) => es,
            _ => Seq::empty(),
        }
    }

    pub open spec fn obj_entries(self) -> Seq<(Seq<u8>, JVal)> {
        match self {
            JVal::Obj(ps) => ps,
            _ => Seq::empty(),
        }
    }
}

/// One member of a JSON object.
pub struct JsonPair {
    pub key: Vec<u8>,
    pub val: Json,
}

/// Executable JSON value.
pub enum Json {
    Null,
    Bool(bool),
    Int(i64),
    Str(Vec<u8>),
    Arr(Vec<Json>),
    Obj(Vec<JsonPair>),
}

pub open spec fn json_view(j: Json) -> JVal
    decreases j,
{
    match j {
        Json::Null => JVal::Null,
        Json::Bool(b) => JVal::Bool(b),
        Json::Int(n) => JVal::Int(n as int),
        Json::Str(s) => JVal::Str(s@),
        Json::Arr(es) => JVal::Arr(json_views(es@)),
        Json::Obj(ps) => JVal::Obj(pair_views(ps@)),
    }
}

pub open spec fn json_views(es: Seq<Json>) -> Seq<JVal>
    decreases es,
{
    if es.len() == 0 {
        Seq::empty()
    } else {
        seq![json_view(es[0])] + json_views(es.subrange(1, es.len() as int))
    }
}

pub open spec fn pair_views(ps: Seq<JsonPair>) -> Seq<(Seq<u8>, JVal)>
    decreases ps,
{
    if ps.len() == 0 {
        Seq::empty()
    } else {
        seq![(ps[0].key@, json_view(ps[0].val))] + pair_views(ps.subrange(1, ps.len() as int))
    }
}

pub proof fn lemma_json_views_index(es: Seq<Json>, i: int)
    requires
        0 <= i < es.len(),
    ensures
        json_views(es).len() == es.len(),
        json_views(es)[i] == json_view(es[i]),
    decreases es.len(),
{
    lemma_json_views_len(es);
    if i > 0 {
        lemma_json_views_index(es.subrange(1, es.len() as int), i - 1);
    }
}

pub proof fn lemma_json_views_len(es: Seq<Json>)
    ensures
        json_views(es).len() == es.len(),
    decreases es.len(),
{
    if es.len() > 0 {
        lemma_json_views_len(es.subrange(1, es.len() as int));
    }
}

pub proof fn lemma_pair_views_index(ps: Seq<JsonPair>, i: int)
    requires
        0 <= i < ps.len(),
    ensures
        pair_views(ps).len() == ps.len(),
        pair_views(ps)[i] == (ps[i].key@, json_view(ps[i].val)),
    decreases ps.len(),
{
    lemma_pair_views_len(ps);
    if i > 0 {
        lemma_pair_views_index(ps.subrange(1, ps.len() as int), i - 1);
    }
}

pub proof fn lemma_pair_views_len(ps: Seq<JsonPair>)
    ensures
        pair_views(ps).len() == ps.len(),
    decreases ps.len(),
{
    if ps.len() > 0 {
        lemma_pair_views_len(ps.subrange(1, ps.len() as int));
    }
}

impl View for Json {
    type V = JVal;

    open spec fn view(&self) -> JVal {
        json_view(*self)
    }
}

/// The encoding of one byte inside a JSON string literal.
pub open spec fn escape_byte(b: u8) -> Seq<u8> {
    if b == 34 {
        seq![92u8, 34u8]
    } else if b == 92 {
        seq![92u8, 92u8]
    } else if b == 8 {
        seq![92u8, 98u8]
    } else if b == 9 {
        seq![92u8, 116u8]
    } else if b == 10 {
        seq![92u8, 110u8]
    } else if b == 12 {
        seq![92u8, 102u8]
    } else if b == 13 {
        seq![92u8, 114u8]
    } else if b < 32 {
        seq![92u8, 117u8, 48u8, 48u8, hex_byte((b / 16) as nat), hex_byte(b as nat)]
    } else {
        seq![b]
    }
}

/// The body of a JSON string literal: every byte escaped as needed.
pub open spec fn escape_bytes(s: Seq<u8>) -> Seq<u8> {
    concat_map(s, |b: u8| escape_byte(b))
}

/// JSON text of a value, byte for byte, with no whitespace.
pub open spec fn jtext(v: JVal) -> Seq<u8>
    decreases v,
{
    match v {
        JVal::Null => seq![110u8, 117u8, 108u8, 108u8],
        JVal::Bool(b) => if b {
            seq![116u8, 114u8, 117u8, 101u8]
        } else {
            seq![102u8, 97u8, 108u8, 115u8, 101u8]
        },
        JVal::Int(n) => dec_int(n),
        JVal::Str(s) => seq![34u8] + escape_bytes(s) + seq![34u8],
        JVal::Arr(es) => seq![91u8] + jtext_items(es) + seq![93u8],
        JVal::Obj(ps) => seq![123u8] + jtext_entries(ps) + seq![125u8],
    }
}

/// Array elements joined with commas.
pub open spec fn jtext_items(es: Seq<JVal>) -> Seq<u8>
    decreases es,
{
    if es.len() == 0 {
        Seq::empty()
    } else if es.len() == 1 {
        jtext(es[0])
    } else {
        jtext(es[0]) + seq![44u8] + jtext_items(es.subrange(1, es.len() as int))
    }
}

/// Object members joined with commas, each rendered `"key":value`.
pub open spec fn jtext_entries(ps: Seq<(Seq<u8>, JVal)>) -> Seq<u8>
    decreases ps,
{
    if ps.len() == 0 {
        Seq::empty()
    } else if ps.len() == 1 {
        seq![34u8] + escape_bytes(ps[0].0) + seq![34u8, 58u8] + jtext(ps[0].1)
    } else {
        seq![34u8] + escape_bytes(ps[0].0) + seq![34u8, 58u8] + jtext(ps[0].1) + seq![44u8]
            + jtext_entries(ps.subrange(1, ps.len() as int))
    }
}

/// The text of one object member.
pub open spec fn jtext_entry(p: (Seq<u8>, JVal)) -> Seq<u8> {
    seq![34u8] + escape_bytes(p.0) + seq![34u8, 58u8] + jtext(p.1)
}

proof fn lemma_jtext_items_snoc(es: Seq<JVal>, i: int)
    requires
        1 <= i < es.len(),
    ensures
        jtext_items(es.take(i + 1)) == jtext_items(es.take(i)) + seq![44u8] + jtext(es[i]),
    decreases i,
{
    let t1 = es.take(i + 1);
    let t0 = es.take(i);
    if i == 1 {
        let s1 = seq![es[1]];
        assert(t1.subrange(1, t1.len() as int) =~= s1);
        assert(jtext_items(s1) == jtext(s1[0]));
        assert(t0 =~= seq![es[0]]);
        assert(jtext_items(t1) =~= jtext_items(t0) + seq![44u8] + jtext(es[1]));
    } else {
        let d = es.subrange(1, es.len() as int);
        lemma_jtext_items_snoc(d, i - 1);
        assert(t1.subrange(1, t1.len() as int) =~= d.take(i));
        assert(t0.subrange(1, t0.len() as int) =~= d.take(i - 1));
        assert(d[i - 1] == es[i]);
        assert(jtext_items(t1) =~= jtext(es[0]) + seq![44u8] + jtext_items(d.take(i)));
        assert(jtext_items(t0) =~= jtext(es[0]) + seq![44u8] + jtext_items(d.take(i - 1)));
        assert(jtext_items(t1) =~= jtext_items(t0) + seq![44u8] + jtext(es[i]));
    }
}

proof fn lemma_jtext_entries_snoc(ps: Seq<(Seq<u8>, JVal)>, i: int)
    requires
        1 <= i < ps.len(),
    ensures
        jtext_entries(ps.take(i + 1)) == jtext_entries(ps.take(i)) + seq![44u8] + jtext_entry(
            ps[i],
        ),
    decreases i,
{
    let t1 = ps.take(i + 1);
    let t0 = ps.take(i);
    if i == 1 {
        let s1 = seq![ps[1]];
        assert(t1.subrange(1, t1.len() as int) =~= s1);
        assert(jtext_entries(s1) == seq![34u8] + escape_bytes(s1[0].0) + seq![34u8, 58u8] + jtext(
            s1[0].1,
        ));
        assert(t0 =~= seq![ps[0]]);
        assert(jtext_entries(t1) =~= jtext_entries(t0) + seq![44u8] + jtext_entry(ps[1]));
    } else {
        let d = ps.subrange(1, ps.len() as int);
        lemma_jtext_entries_snoc(d, i - 1);
        assert(t1.subrange(1, t1.len() as int) =~= d.take(i));
        assert(t0.subrange(1, t0.len() as int) =~= d.take(i - 1));
        assert(d[i - 1] == ps[i]);
        assert(jtext_entries(t1) =~= jtext_entry(ps[0]) + seq![44u8] + jtext_entries(d.take(i)));
        assert(jtext_entries(t0) =~= jtext_entry(ps[0]) + seq![44u8] + jtext_entries(
            d.take(i - 1),
        ));
        assert(jtext_entries(t1) =~= jtext_entries(t0) + seq![44u8] + jtext_entry(ps[i]));
    }
}

/// Appends the escaped body of a string literal, without the quotes.
pub fn write_escaped(out: &mut Vec<u8>, s: &[u8])
    ensures
        final(out)@ == old(out)@ + escape_bytes(s@),
{
    let n = s.len();
    let mut i: usize = 0;
    while i < n
        invariant
            n == s@.len(),
            0 <= i <= n,
            out@ == old(out)@ + escape_bytes(s@.take(i as int)),
        decreases n - i,
    {
        let b = s[i];
        if b == 34 {
            out.push(92);
            out.push(34);
        } else if b == 92 {
            out.push(92);
            out.push(92);
        } else if b == 8 {
            out.push(92);
            out.push(98);
        } else if b == 9 {
            out.push(92);
            out.push(116);
        } else if b == 10 {
            out.push(92);
            out.push(110);
        } else if b == 12 {
            out.push(92);
            out.push(102);
        } else if b == 13 {
            out.push(92);
            out.push(114);
        } else if b < 32 {
            out.push(92);
            out.push(117);
            out.push(48);
            out.push(48);
            out.push(crate::seqs::hex_digit(b / 16));
            out.push(crate::seqs::hex_digit(b % 16));
        } else {
            out.push(b);
        }
        proof {
            lemma_concat_map_take_snoc(s@, |x: u8| escape_byte(x), i as int);
            assert(out@ =~= old(out)@ + escape_bytes(s@.take(i as int + 1)));
        }
        i += 1;
    }
    assert(s@.take(n as int) =~= s@);
}

/// Appends the JSON text of `v`.
pub fn json_write(v: &Json, out: &mut Vec<u8>)
    ensures
        final(out)@ == old(out)@ + jtext(v@),
    decreases *v, 0int,
{
    match v {
        Json::Null => {
            out.push(110);
            out.push(117);
            out.push(108);
            out.push(108);
            assert(out@ =~= old(out)@ + jtext(v@));
        },
        Json::Bool(b) => {
            if *b {
                out.push(116);
                out.push(114);
                out.push(117);
                out.push(101);
            } else {
                out.push(102);
                out.push(97);
                out.push(108);
                out.push(115);
                out.push(101);
            }
            assert(out@ =~= old(out)@ + jtext(v@));
        },
        Json::Int(n) => {
            push_dec_i64(out, *n);
        },
        Json::Str(s) => {
            out.push(34);
            write_escaped(out, s.as_slice());
            out.push(34);
            assert(out@ =~= old(out)@ + jtext(v@));
        },
        Json::Arr(es) => {
            out.push(91);
            json_write_items(es, out);
            out.push(93);
            assert(out@ =~= old(out)@ + jtext(v@));
        },
        Json::Obj(ps) => {
            out.push(123);
            json_write_entries(ps, out);
            out.push(125);
            assert(out@ =~= old(out)@ + jtext(v@));
        },
    }
}

/// Appends the comma-joined texts of the elements, without the brackets.
fn json_write_items(es: &Vec<Json>, out: &mut Vec<u8>)
    ensures
        final(out)@ == old(out)@ + jtext_items(json_views(es@)),
    decreases *es, 1int,
{
    let ghost ves = json_views(es@);
    proof {
        lemma_json_views_len(es@);
        assert forall|k: int| 0 <= k < es@.len() implies json_views(es@)[k] == json_view(
            es@[k],
        ) by {
            lemma_json_views_index(es@, k);
        }
    }
    let n = es.len();
    let mut i: usize = 0;
    while i < n
        invariant
            n == es@.len(),
            0 <= i <= n,
            ves == json_views(es@),
            ves.len() == n,
            forall|k: int| 0 <= k < n ==> ves[k] == json_view(es@[k]),
            out@ == old(out)@ + jtext_items(ves.take(i as int)),
        decreases n - i,
    {
        proof {
            assert(decreases_to!(*es => es@));
            assert(decreases_to!(es@ => es@[i as int]));
        }
        if i > 0 {
            out.push(44);
            json_write(&es[i], out);
            proof {
                lemma_jtext_items_snoc(ves, i as int);
                assert(out@ =~= old(out)@ + jtext_items(ves.take(i as int + 1)));
            }
        } else {
            json_write(&es[i], out);
            proof {
                assert(ves.take(1) =~= seq![ves[0]]);
                assert(out@ =~= old(out)@ + jtext_items(ves.take(1)));
            }
        }
        i += 1;
    }
    proof {
        assert(ves.take(n as int) =~= ves);
    }
}

/// Appends the comma-joined texts of the members, without the braces.
fn json_write_entries(ps: &Vec<JsonPair>, out: &mut Vec<u8>)
    ensures
        final(out)@ == old(out)@ + jtext_entries(pair_views(ps@)),
    decreases *ps, 1int,
{
    let ghost vps = pair_views(ps@);
    proof {
        lemma_pair_views_len(ps@);
        assert forall|k: int| 0 <= k < ps@.len() implies pair_views(ps@)[k] == (
            ps@[k].key@,
            json_view(ps@[k].val),
        ) by {
            lemma_pair_views_index(ps@, k);
        }
    }
    let n = ps.len();
    let mut i: usize = 0;
    while i < n
        invariant
            n == ps@.len(),
            0 <= i <= n,
            vps == pair_views(ps@),
            vps.len() == n,
            forall|k: int| 0 <= k < n ==> vps[k] == (ps@[k].key@, json_view(ps@[k].val)),
            out@ == old(out)@ + jtext_entries(vps.take(i as int)),
        decreases n - i,
    {
        proof {
            assert(decreases_to!(*ps => ps@));
            assert(decreases_to!(ps@ => ps@[i as int]));
            assert(decreases_to!(ps@[i as int] => ps@[i as int].val));
        }
        if i > 0 {
            out.push(44);
        }
        out.push(34);
        write_escaped(out, ps[i].key.as_slice());
        out.push(34);
        out.push(58);
        json_write(&ps[i].val, out);
        proof {
            if i > 0 {
                lemma_jtext_entries_snoc(vps, i as int);
            } else {
                assert(vps.take(1) =~= seq![vps[0]]);
            }
            assert(out@ =~= old(out)@ + jtext_entries(vps.take(i as int + 1)));
        }
        i += 1;
    }
    proof {
        assert(vps.take(n as int) =~= vps);
    }
}

/// The JSON text of `v` as a fresh byte string.
pub fn json_to_bytes(v: &Json) -> (r: Vec<u8>)
    ensures
        r@ == jtext(v@),
{
    let mut out: Vec<u8> = Vec::new();
    json_write(v, &mut out);
    out
}

} // verus!
