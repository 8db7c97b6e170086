//! MessagePack encoding of replies: the binary sibling of the JSON encoder.
//! Byte-string replies stay binary here instead of passing through text
//! decoding. The format cannot carry a length of four gigabytes or more, so
//! encodability is that bound, through the whole reply tree.

use vstd::prelude::*;

use crate::reply::{okay_text, Reply};
use crate::seqs::push_all;

verus! {

/// `k` bytes of `v`, big endian.
pub open spec fn be_bytes(v: nat, k: nat) -> Seq<u8>
    decreases k,
{
    if k == 0 {
        Seq::empty()
    } else {
        be_bytes(v / 256, (k - 1) as nat).push((v % 256) as u8)
    }
}

/// A string header and its bytes: fixstr, str 8, str 16 or str 32 by length.
pub open spec fn msg_str(s: Seq<u8>) -> Seq<u8> {
    if s.len() < 32 {
        seq![(160 + s.len()) as u8] + s
    } else if s.len() < 256 {
        seq![217u8, s.len() as u8] + s
    } else if s.len() < 65536 {
        seq![218u8] + be_bytes(s.len() as nat, 2) + s
    } else {
        seq![219u8] + be_bytes(s.len() as nat, 4) + s
    }
}

/// A binary header and its bytes: bin 8, bin 16 or bin 32 by length.
pub open spec fn msg_bin(b: Seq<u8>) -> Seq<u8> {
    if b.len() < 256 {
        seq![196u8, b.len() as u8] + b
    } else if b.len() < 65536 {
        seq![197u8] + be_bytes(b.len() as nat, 2) + b
    } else {
        seq![198u8] + be_bytes(b.len() as nat, 4) + b
    }
}

/// The two's-complement image of an integer in 64 bits.
pub open spec fn u64_image(n: int) -> nat {
    if n >= 0 {
        n as nat
    } else {
        (n + 0x10000000000000000) as nat
    }
}

/// An integer: a positive or negative fixint where it fits, int 64 else.
pub open spec fn msg_int(n: int) -> Seq<u8> {
    if 0 <= n <= 127 {
        seq![n as u8]
    } else if -32 <= n < 0 {
        seq![(n + 256) as u8]
    } else {
        seq![211u8] + be_bytes(u64_image(n), 8)
    }
}

/// An array header: fixarray, array 16 or array 32 by length.
pub open spec fn msg_arr_header(len: nat) -> Seq<u8> {
    if len < 16 {
        seq![(144 + len) as u8]
    } else if len < 65536 {
        seq![220u8] + be_bytes(len, 2)
    } else {
        seq![221u8] + be_bytes(len, 4)
    }
}

/// The encoding of one reply.
pub open spec fn msg_reply(r: Reply) -> Seq<u8>
    decreases r,
{
    match r {
        Reply::Nil => seq![192u8],
        Reply::Integer(n) => msg_int(n as int),
        Reply::Bytes(b) => msg_bin(b@),
        Reply::Status(s) => msg_str(s@),
        Reply::Okay => msg_str(okay_text()),
        Reply::Array(rs) => msg_arr_header(rs@.len() as nat) + msg_replies(rs@),
    }
}

pub open spec fn msg_replies(rs: Seq<Reply>) -> Seq<u8>
    decreases rs,
{
    if rs.len() == 0 {
        Seq::empty()
    } else {
        msg_reply(rs[0]) + msg_replies(rs.subrange(1, rs.len() as int))
    }
}

/// Every length in the reply tree fits the format's 32-bit bound.
pub open spec fn msg_encodable(r: Reply) -> bool
    decreases r,
{
    match r {
        Reply::Bytes(b) => b@.len() < 0x100000000,
        Reply::Status(s) => s@.len() < 0x100000000,
        Reply::Array(rs) => rs@.len() < 0x100000000 && msg_encodable_list(rs@),
        _ => true,
    }
}

pub open spec fn msg_encodable_list(rs: Seq<Reply>) -> bool
    decreases rs,
{
    if rs.len() == 0 {
        true
    } else {
        msg_encodable(rs[0]) && msg_encodable_list(rs.subrange(1, rs.len() as int))
    }
}

/// The whole body: a map of one member, the command name to the reply.
pub open spec fn msg_body(cmd: Seq<u8>, r: Reply) -> Seq<u8> {
    seq![129u8] + msg_str(cmd) + msg_reply(r)
}

fn push_be(out: &mut Vec<u8>, v: u64, k: usize)
    ensures
        final(out)@ == old(out)@ + be_bytes(v as nat, k as nat),
    decreases k,
{
    if k == 0 {
        assert(out@ =~= old(out)@ + be_bytes(v as nat, 0));
    } else {
        push_be(out, v / 256, k - 1);
        out.push((v % 256) as u8);
        assert(out@ =~= old(out)@ + be_bytes(v as nat, k as nat));
    }
}

fn push_msg_str(out: &mut Vec<u8>, s: &[u8])
    requires
        s@.len() < 0x100000000,
    ensures
        final(out)@ == old(out)@ + msg_str(s@),
{
    let n = s.len();
    if n < 32 {
        out.push(160 + (n as u8));
    } else if n < 256 {
        out.push(217);
        out.push(n as u8);
    } else if n < 65536 {
        out.push(218);
        push_be(out, n as u64, 2);
    } else {
        out.push(219);
        push_be(out, n as u64, 4);
    }
    push_all(out, s);
    assert(out@ =~= old(out)@ + msg_str(s@));
}

fn push_msg_bin(out: &mut Vec<u8>, b: &[u8])
    requires
        b@.len() < 0x100000000,
    ensures
        final(out)@ == old(out)@ + msg_bin(b@),
{
    let n = b.len();
    if n < 256 {
        out.push(196);
        out.push(n as u8);
    } else if n < 65536 {
        out.push(197);
        push_be(out, n as u64, 2);
    } else {
        out.push(198);
        push_be(out, n as u64, 4);
    }
    push_all(out, b);
    assert(out@ =~= old(out)@ + msg_bin(b@));
}

fn push_msg_int(out: &mut Vec<u8>, n: i64)
    ensures
        final(out)@ == old(out)@ + msg_int(n as int),
{
    if n >= 0 && n <= 127 {
        out.push(n as u8);
        assert(out@ =~= old(out)@ + msg_int(n as int));
    } else if n >= -32 && n < 0 {
        let b = #[verifier::truncate] (n as u8);
        proof {
            assert(b as int == n + 256) by (bit_vector)
                requires
                    b == (n as u8),
                    -32 <= n < 0,
            ;
        }
        out.push(b);
        assert(out@ =~= old(out)@ + msg_int(n as int));
    } else {
        out.push(211);
        let u = #[verifier::truncate] (n as u64);
        proof {
            assert((n >= 0 ==> u as int == n as int) && (n < 0 ==> u as int == n as int
                + 0x10000000000000000)) by (bit_vector)
                requires
                    u == (n as u64),
            ;
            assert(u as nat == u64_image(n as int));
        }
        push_be(out, u, 8);
        assert(out@ =~= old(out)@ + msg_int(n as int));
    }
}

proof fn lemma_msg_replies_snoc(rs: Seq<Reply>, i: int)
    requires
        0 <= i < rs.len(),
    ensures
        msg_replies(rs.take(i + 1)) == msg_replies(rs.take(i)) + msg_reply(rs[i]),
    decreases i,
{
    let t1 = rs.take(i + 1);
    let t0 = rs.take(i);
    if i == 0 {
        assert(t1 =~= seq![rs[0]]);
        assert(t1.subrange(1, t1.len() as int) =~= Seq::<Reply>::empty());
        assert(msg_replies(Seq::<Reply>::empty()) == Seq::<u8>::empty());
        assert(t0 =~= Seq::<Reply>::empty());
        assert(msg_replies(t1) =~= msg_replies(t0) + msg_reply(rs[0]));
    } else {
        let d = rs.subrange(1, rs.len() as int);
        lemma_msg_replies_snoc(d, i - 1);
        assert(t1.subrange(1, t1.len() as int) =~= d.take(i));
        assert(t0.subrange(1, t0.len() as int) =~= d.take(i - 1));
        assert(d[i - 1] == rs[i]);
        assert(msg_replies(t1) =~= msg_reply(rs[0]) + msg_replies(d.take(i)));
        assert(msg_replies(t0) =~= msg_reply(rs[0]) + msg_replies(d.take(i - 1)));
        assert(msg_replies(t1) =~= msg_replies(t0) + msg_reply(rs[i]));
    }
}

proof fn lemma_msg_encodable_list_index(rs: Seq<Reply>, i: int)
    requires
        0 <= i < rs.len(),
        msg_encodable_list(rs),
    ensures
        msg_encodable(rs[i]),
    decreases i,
{
    if i > 0 {
        lemma_msg_encodable_list_index(rs.subrange(1, rs.len() as int), i - 1);
    }
}

/// Appends the encoding of one reply.
fn push_msg_reply(r: &Reply, out: &mut Vec<u8>)
    requires
        msg_encodable(*r),
    ensures
        final(out)@ == old(out)@ + msg_reply(*r),
    decreases *r, 0int,
{
    match r {
        Reply::Nil => {
            out.push(192);
            assert(out@ =~= old(out)@ + msg_reply(*r));
        },
        Reply::Integer(n) => {
            push_msg_int(out, *n);
        },
        Reply::Bytes(b) => {
            push_msg_bin(out, b.as_slice());
        },
        Reply::Status(s) => {
            push_msg_str(out, s.as_slice());
        },
        Reply::Okay => {
            let mut ok: Vec<u8> = Vec::new();
            ok.push(79);
            ok.push(75);
            assert(ok@ =~= okay_text());
            push_msg_str(out, ok.as_slice());
        },
        Reply::Array(rs) => {
            let n = rs.len();
            if n < 16 {
                out.push(144 + (n as u8));
            } else if n < 65536 {
                out.push(220);
                push_be(out, n as u64, 2);
            } else {
                out.push(221);
                push_be(out, n as u64, 4);
            }
            assert(out@ =~= old(out)@ + msg_arr_header(rs@.len() as nat));
            let ghost mid = out@;
            push_msg_replies(rs, out);
            proof {
                assert(out@ =~= old(out)@ + msg_reply(*r));
            }
        },
    }
}

/// Appends the encodings of the elements, in order.
fn push_msg_replies(rs: &Vec<Reply>, out: &mut Vec<u8>)
    requires
        msg_encodable_list(rs@),
    ensures
        final(out)@ == old(out)@ + msg_replies(rs@),
    decreases *rs, 1int,
{
    let n = rs.len();
    let mut i: usize = 0;
    proof {
        assert(rs@.take(0) =~= Seq::<Reply>::empty());
        assert(out@ =~= old(out)@ + msg_replies(rs@.take(0)));
    }
    while i < n
        invariant
            n == rs@.len(),
            0 <= i <= n,
            msg_encodable_list(rs@),
            out@ == old(out)@ + msg_replies(rs@.take(i as int)),
        decreases n - i,
    {
        proof {
            assert(decreases_to!(*rs => rs@));
            assert(decreases_to!(rs@ => rs@[i as int]));
            lemma_msg_encodable_list_index(rs@, i as int);
        }
        push_msg_reply(&rs[i], out);
        proof {
            lemma_msg_replies_snoc(rs@, i as int);
            assert(out@ =~= old(out)@ + msg_replies(rs@.take(i as int + 1)));
        }
        i += 1;
    }
    proof {
        assert(rs@.take(n as int) =~= rs@);
    }
}

/// The MessagePack body of a reply under its command name.
pub fn msgpack_body(cmd: &[u8], r: &Reply) -> (out: Vec<u8>)
    requires
        cmd@.len() < 0x100000000,
        msg_encodable(*r),
    ensures
        out@ == msg_body(cmd@, *r),
{
    let mut out: Vec<u8> = Vec::new();
    out.push(129);
    push_msg_str(&mut out, cmd);
    push_msg_reply(r, &mut out);
    proof {
        assert(out@ =~= msg_body(cmd@, *r));
    }
    out
}

} // verus!
