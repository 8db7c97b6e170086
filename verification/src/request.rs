//! The request parser: a command path into name, arguments, output format
//! and callback. Segments split on `/` are percent-decoded independently,
//! so an escaped slash lands inside an argument without splitting it; `+`
//! is left alone. A format extension is read off the command name, or off
//! the final argument when the name carries none; `type` in the query
//! overrides either, and `cb`/`callback` names a JSONP wrapper, ignored
//! unless it is a plain identifier. A request body is appended verbatim as
//! the final argument.

use vstd::prelude::*;

use crate::format::OutputFormat;
use crate::seqs::bytes_eq;
use crate::seqs::{hex_val, hex_value};

verus! {

/// Percent-decoding: `%xy` with two hex digits becomes one byte, everything
/// else passes through.
pub open spec fn pct_decode(s: Seq<u8>) -> Seq<u8>
    decreases s.len(),
{
    if s.len() == 0 {
        Seq::empty()
    } else if s[0] == 37 && s.len() >= 3 && hex_val(s[1]) is Some && hex_val(s[2]) is Some {
        seq![((16 * hex_val(s[1]).unwrap() + hex_val(s[2]).unwrap()) as u8)] + pct_decode(
            s.skip(3),
        )
    } else {
        seq![s[0]] + pct_decode(s.drop_first())
    }
}

pub fn percent_decode(s: &[u8]) -> (r: Vec<u8>)
    ensures
        r@ == pct_decode(s@),
{
    let n = s.len();
    let mut out: Vec<u8> = Vec::new();
    let mut i: usize = 0;
    proof {
        assert(s@.skip(0) =~= s@);
        assert(out@ + pct_decode(s@.skip(0)) =~= pct_decode(s@));
    }
    while i < n
        invariant
            n == s@.len(),
            0 <= i <= n,
            pct_decode(s@) == out@ + pct_decode(s@.skip(i as int)),
        decreases n - i,
    {
        let ghost t = s@.skip(i as int);
        let b = s[i];
        assert(t[0] == b);
        if b == 37 && n - i >= 3 {
            assert(t[1] == s@[i as int + 1] && t[2] == s@[i as int + 2]);
            let h = hex_value(s[i + 1]);
            let l = hex_value(s[i + 2]);
            match (h, l) {
                (Some(hv), Some(lv)) => {
                    out.push(16 * hv + lv);
                    proof {
                        assert(t.skip(3) =~= s@.skip(i as int + 3));
                        assert(pct_decode(s@) =~= out@ + pct_decode(s@.skip(i as int + 3)));
                    }
                    i += 3;
                },
                _ => {
                    out.push(b);
                    proof {
                        assert(t.drop_first() =~= s@.skip(i as int + 1));
                        assert(pct_decode(s@) =~= out@ + pct_decode(s@.skip(i as int + 1)));
                    }
                    i += 1;
                },
            }
        } else {
            out.push(b);
            proof {
                assert(t.drop_first() =~= s@.skip(i as int + 1));
                if t[0] == 37 && t.len() >= 3 && hex_val(t[1]) is Some && hex_val(t[2]) is Some {
                    assert(false);
                }
                assert(pct_decode(s@) =~= out@ + pct_decode(s@.skip(i as int + 1)));
            }
            i += 1;
        }
    }
    proof {
        assert(s@.skip(n as int).len() == 0);
        assert(pct_decode(s@.skip(n as int)) =~= Seq::<u8>::empty());
        assert(out@ =~= pct_decode(s@));
    }
    out
}

/// Length of the prefix before the first separator, or the whole length.
pub open spec fn seg_end(s: Seq<u8>, sep: u8) -> int
    decreases s.len(),
{
    if s.len() > 0 && s[0] != sep {
        1 + seg_end(s.drop_first(), sep)
    } else {
        0
    }
}

pub proof fn lemma_seg_end_bounds(s: Seq<u8>, sep: u8)
    ensures
        0 <= seg_end(s, sep) <= s.len(),
        forall|j: int| 0 <= j < seg_end(s, sep) ==> s[j] != sep,
        seg_end(s, sep) < s.len() ==> s[seg_end(s, sep)] == sep,
    decreases s.len(),
{
    if s.len() > 0 && s[0] != sep {
        lemma_seg_end_bounds(s.drop_first(), sep);
        assert forall|j: int| 0 <= j < seg_end(s, sep) implies s[j] != sep by {
            if j > 0 {
                assert(s.drop_first()[j - 1] != sep);
            }
        }
    }
}

/// The segments of `s` split on `sep`; the empty text is one empty segment.
pub open spec fn split_sep(s: Seq<u8>, sep: u8) -> Seq<Seq<u8>>
    decreases s.len(),
    via split_sep_dec
{
    let k = seg_end(s, sep);
    if k == s.len() {
        seq![s]
    } else {
        seq![s.take(k)] + split_sep(s.skip(k + 1), sep)
    }
}

#[via_fn]
proof fn split_sep_dec(s: Seq<u8>, sep: u8) {
    lemma_seg_end_bounds(s, sep);
}

/// A copy of `s[from..to]`.
fn copy_range(s: &[u8], from: usize, to: usize) -> (r: Vec<u8>)
    requires
        from <= to <= s@.len(),
    ensures
        r@ == s@.subrange(from as int, to as int),
{
    let mut out: Vec<u8> = Vec::new();
    let mut i = from;
    while i < to
        invariant
            from <= i <= to <= s@.len(),
            out@ == s@.subrange(from as int, i as int),
        decreases to - i,
    {
        out.push(s[i]);
        assert(out@ =~= s@.subrange(from as int, i as int + 1));
        i += 1;
    }
    out
}

/// Splits on a separator byte.
pub fn split_bytes(s: &[u8], sep: u8) -> (r: Vec<Vec<u8>>)
    ensures
        r@.len() == split_sep(s@, sep).len(),
        forall|i: int| 0 <= i < r@.len() ==> r@[i]@ == split_sep(s@, sep)[i],
{
    let n = s.len();
    let mut out: Vec<Vec<u8>> = Vec::new();
    let ghost mut gacc: Seq<Seq<u8>> = Seq::empty();
    let mut i: usize = 0;
    proof {
        assert(s@.skip(0) =~= s@);
        assert(gacc + split_sep(s@.skip(0), sep) =~= split_sep(s@, sep));
    }
    loop
        invariant
            n == s@.len(),
            0 <= i <= n,
            gacc.len() == out@.len(),
            forall|q: int| 0 <= q < gacc.len() ==> gacc[q] == out@[q]@,
            split_sep(s@, sep) == gacc + split_sep(s@.skip(i as int), sep),
        decreases n - i,
    {
        let ghost t = s@.skip(i as int);
        proof {
            lemma_seg_end_bounds(t, sep);
        }
        // scan to the end of the current segment
        let mut j = i;
        while j < n && s[j] != sep
            invariant
                n == s@.len(),
                i <= j <= n,
                t == s@.skip(i as int),
                forall|q: int| 0 <= q < j - i ==> t[q] != sep,
            decreases n - j,
        {
            assert(t[j - i] == s@[j as int]);
            j += 1;
        }
        proof {
            if j < n {
                assert(t[j - i] == s@[j as int]);
            }
            lemma_seg_end_bounds(t, sep);
            assert(seg_end(t, sep) == j - i) by {
                lemma_seg_end_from(t, sep, j - i);
            }
        }
        let seg = copy_range(s, i, j);
        proof {
            assert(seg@ =~= t.take(j - i));
        }
        let ghost gall = gacc + seq![seg@];
        out.push(seg);
        proof {
            gacc = gall;
        }
        if j == n {
            proof {
                assert(t.take(j - i) =~= t);
                assert(split_sep(t, sep) =~= seq![t]);
                assert(split_sep(s@, sep) =~= gacc);
            }
            return out;
        }
        proof {
            assert(t.skip(j - i + 1) =~= s@.skip(j as int + 1));
            assert(split_sep(t, sep) =~= seq![t.take(j - i)] + split_sep(
                s@.skip(j as int + 1),
                sep,
            ));
            assert(split_sep(s@, sep) =~= gacc + split_sep(s@.skip(j as int + 1), sep));
        }
        i = j + 1;
    }
}

proof fn lemma_seg_end_from(t: Seq<u8>, sep: u8, m: int)
    requires
        0 <= m <= t.len(),
        forall|q: int| 0 <= q < m ==> t[q] != sep,
        m == t.len() || t[m] == sep,
    ensures
        seg_end(t, sep) == m,
    decreases t.len(),
{
    if m > 0 {
        lemma_seg_end_from(t.drop_first(), sep, m - 1);
    }
}

/// An identifier fit to wrap a JSONP response: a letter or underscore, then
/// letters, digits, underscores and dots.
pub open spec fn is_ident_start(b: u8) -> bool {
    (65 <= b <= 90) || (97 <= b <= 122) || b == 95
}

pub open spec fn is_ident_char(b: u8) -> bool {
    is_ident_start(b) || (48 <= b <= 57) || b == 46
}

pub open spec fn valid_callback(s: Seq<u8>) -> bool {
    s.len() > 0 && is_ident_start(s[0]) && (forall|i: int| 1 <= i < s.len() ==> is_ident_char(s[i]))
}

pub fn callback_valid(s: &[u8]) -> (r: bool)
    ensures
        r == valid_callback(s@),
{
    let n = s.len();
    if n == 0 {
        return false;
    }
    let b0 = s[0];
    if !((65 <= b0 && b0 <= 90) || (97 <= b0 && b0 <= 122) || b0 == 95) {
        return false;
    }
    let mut i: usize = 1;
    while i < n
        invariant
            n == s@.len(),
            1 <= i <= n,
            is_ident_start(s@[0]),
            forall|j: int| 1 <= j < i ==> is_ident_char(s@[j]),
        decreases n - i,
    {
        let b = s[i];
        if !((65 <= b && b <= 90) || (97 <= b && b <= 122) || b == 95 || (48 <= b && b <= 57) || b
            == 46) {
            return false;
        }
        i += 1;
    }
    true
}

/// The position of the last dot, if any.
pub open spec fn last_dot(s: Seq<u8>) -> Option<int>
    decreases s.len(),
{
    if s.len() == 0 {
        None
    } else if s.last() == 46 {
        Some(s.len() - 1)
    } else {
        last_dot(s.drop_last())
    }
}

pub fn find_last_dot(s: &[u8]) -> (r: Option<usize>)
    ensures
        (match r {
            Some(i) => i < s@.len() && last_dot(s@) == Some(i as int),
            None => last_dot(s@) is None,
        }),
{
    let n = s.len();
    let mut i = n;
    proof {
        assert(s@.take(n as int) =~= s@);
    }
    while i > 0
        invariant
            n == s@.len(),
            0 <= i <= n,
            last_dot(s@) == last_dot(s@.take(i as int)),
        decreases i,
    {
        if s[i - 1] == 46 {
            proof {
                assert(s@.take(i as int).last() == s@[i as int - 1]);
            }
            return Some(i - 1);
        }
        proof {
            assert(s@.take(i as int).last() == s@[i as int - 1]);
            assert(s@.take(i as int).drop_last() =~= s@.take(i as int - 1));
        }
        i -= 1;
    }
    proof {
        assert(s@.take(0).len() == 0);
    }
    None
}

/// The known format extensions, byte for byte.
pub open spec fn is_raw_ext(e: Seq<u8>) -> bool {
    e.len() == 3 && e[0] == 114 && e[1] == 97 && e[2] == 119
}

pub open spec fn is_msg_ext(e: Seq<u8>) -> bool {
    e.len() == 3 && e[0] == 109 && e[1] == 115 && e[2] == 103
}

pub open spec fn is_msgpack_ext(e: Seq<u8>) -> bool {
    e.len() == 7 && e[0] == 109 && e[1] == 115 && e[2] == 103 && e[3] == 112 && e[4] == 97 && e[5]
        == 99 && e[6] == 107
}

pub open spec fn is_json_ext(e: Seq<u8>) -> bool {
    e.len() == 4 && e[0] == 106 && e[1] == 115 && e[2] == 111 && e[3] == 110
}

/// The format a (command-name) extension selects; unknown ones fall back to
/// JSON.
pub open spec fn ext_format(e: Seq<u8>) -> OutputFormat {
    if is_raw_ext(e) {
        OutputFormat::Raw
    } else if is_msg_ext(e) || is_msgpack_ext(e) {
        OutputFormat::Msgpack
    } else {
        OutputFormat::Json
    }
}

/// Whether the extension names any format at all, JSON included.
pub open spec fn known_ext(e: Seq<u8>) -> bool {
    is_raw_ext(e) || is_msg_ext(e) || is_msgpack_ext(e) || is_json_ext(e)
}

fn ext_format_bytes(e: &[u8]) -> (r: OutputFormat)
    ensures
        r == ext_format(e@),
{
    let n = e.len();
    if n == 3 && e[0] == 114 && e[1] == 97 && e[2] == 119 {
        OutputFormat::Raw
    } else if n == 3 && e[0] == 109 && e[1] == 115 && e[2] == 103 {
        OutputFormat::Msgpack
    } else if n == 7 && e[0] == 109 && e[1] == 115 && e[2] == 103 && e[3] == 112 && e[4] == 97
        && e[5] == 99 && e[6] == 107 {
        OutputFormat::Msgpack
    } else {
        OutputFormat::Json
    }
}

fn known_ext_bytes(e: &[u8]) -> (r: bool)
    ensures
        r == known_ext(e@),
{
    let n = e.len();
    (n == 3 && e[0] == 114 && e[1] == 97 && e[2] == 119) || (n == 3 && e[0] == 109 && e[1] == 115
        && e[2] == 103) || (n == 7 && e[0] == 109 && e[1] == 115 && e[2] == 103 && e[3] == 112
        && e[4] == 97 && e[5] == 99 && e[6] == 107) || (n == 4 && e[0] == 106 && e[1] == 115 && e[2]
        == 111 && e[3] == 110)
}

/// A query part split at its first `=`: key and value.
pub open spec fn split_at_eq(p: Seq<u8>) -> (Seq<u8>, Seq<u8>) {
    let k = seg_end(p, 61);
    if k == p.len() {
        (p, Seq::empty())
    } else {
        (p.take(k), p.skip(k + 1))
    }
}

/// The value of the last query parameter under `key`.
pub open spec fn last_with_key(parts: Seq<Seq<u8>>, key: Seq<u8>) -> Option<Seq<u8>>
    decreases parts.len(),
{
    if parts.len() == 0 {
        None
    } else {
        let kv = split_at_eq(parts.last());
        if kv.0 == key {
            Some(kv.1)
        } else {
            last_with_key(parts.drop_last(), key)
        }
    }
}

pub open spec fn query_value(q: Seq<u8>, key: Seq<u8>) -> Option<Seq<u8>> {
    last_with_key(split_sep(q, 38), key)
}

/// Looks a parameter up in a query string, later occurrences winning.
pub fn query_lookup(q: &[u8], key: &[u8]) -> (r: Option<Vec<u8>>)
    ensures
        (match r {
            Some(v) => query_value(q@, key@) == Some(v@),
            None => query_value(q@, key@) is None,
        }),
{
    let parts = split_bytes(q, 38);
    let ghost gparts = split_sep(q@, 38);
    let n = parts.len();
    let mut found: Option<Vec<u8>> = None;
    let mut i: usize = 0;
    proof {
        assert(gparts.take(0).len() == 0);
    }
    while i < n
        invariant
            n == parts@.len(),
            0 <= i <= n,
            gparts.len() == n,
            forall|qi: int| 0 <= qi < n ==> parts@[qi]@ == gparts[qi],
            (match found {
                Some(v) => last_with_key(gparts.take(i as int), key@) == Some(v@),
                None => last_with_key(gparts.take(i as int), key@) is None,
            }),
        decreases n - i,
    {
        let p = &parts[i];
        let m = p.len();
        // find the first '=' in this part
        let mut j: usize = 0;
        while j < m && p[j] != 61
            invariant
                m == p@.len(),
                0 <= j <= m,
                forall|qj: int| 0 <= qj < j ==> p@[qj] != 61,
            decreases m - j,
        {
            j += 1;
        }
        proof {
            lemma_seg_end_from(p@, 61, j as int);
        }
        let k = copy_range(p.as_slice(), 0, j);
        proof {
            assert(k@ =~= p@.take(j as int));
            if j < m {
                assert(split_at_eq(p@).0 =~= k@);
            } else {
                assert(split_at_eq(p@).0 =~= k@);
            }
        }
        if bytes_eq(k.as_slice(), key) {
            let v = if j < m {
                copy_range(p.as_slice(), j + 1, m)
            } else {
                Vec::new()
            };
            proof {
                assert(split_at_eq(p@).1 =~= v@);
            }
            found = Some(v);
        }
        proof {
            assert(gparts.take(i as int + 1).last() == gparts[i as int]);
            assert(gparts.take(i as int + 1).drop_last() =~= gparts.take(i as int));
            assert(gparts[i as int] == p@);
        }
        i += 1;
    }
    proof {
        assert(gparts.take(n as int) =~= gparts);
    }
    found
}

/// A parsed command request: name, binary arguments, output format and the
/// validated JSONP callback.
pub struct CommandRequest {
    pub name: Vec<u8>,
    pub args: Vec<Vec<u8>>,
    pub format: OutputFormat,
    pub callback: Option<Vec<u8>>,
}

/// The path's segments, percent-decoded after splitting.
pub open spec fn decoded_segs(path: Seq<u8>) -> Seq<Seq<u8>> {
    Seq::new(split_sep(path, 47).len(), |i: int| pct_decode(split_sep(path, 47)[i]))
}

/// Name, arguments and format after reading an extension off the command
/// name or off the final argument.
pub open spec fn ext_step(name0: Seq<u8>, args0: Seq<Seq<u8>>) -> (Seq<u8>, Seq<Seq<u8>>, OutputFormat) {
    match last_dot(name0) {
        Some(idx) => (name0.take(idx), args0, ext_format(name0.skip(idx + 1))),
        None => if args0.len() > 0 {
            let la = args0.last();
            match last_dot(la) {
                Some(idx) => if known_ext(la.skip(idx + 1)) {
                    (
                        name0,
                        args0.update(args0.len() - 1, la.take(idx)),
                        ext_format(la.skip(idx + 1)),
                    )
                } else {
                    (name0, args0, OutputFormat::Json)
                },
                None => (name0, args0, OutputFormat::Json),
            }
        } else {
            (name0, args0, OutputFormat::Json)
        },
    }
}

/// The format after the query's `type` parameter, which overrides when it
/// names a format.
pub open spec fn format_step(fmt: OutputFormat, query: Option<Seq<u8>>) -> OutputFormat {
    match query {
        Some(q) => match query_value(q, seq![116u8, 121u8, 112u8, 101u8]) {
            Some(t) => if known_ext(t) {
                ext_format(t)
            } else {
                fmt
            },
            None => fmt,
        },
        None => fmt,
    }
}

/// The callback the query sets: `cb` first, then `callback`, and only a
/// plain identifier counts.
pub open spec fn callback_of(query: Option<Seq<u8>>) -> Option<Seq<u8>> {
    match query {
        Some(q) => {
            let c = match query_value(q, seq![99u8, 98u8]) {
                Some(c) => Some(c),
                None => query_value(
                    q,
                    seq![99u8, 97u8, 108u8, 108u8, 98u8, 97u8, 99u8, 107u8],
                ),
            };
            match c {
                Some(cv) => if valid_callback(cv) {
                    Some(cv)
                } else {
                    None
                },
                None => None,
            }
        },
        None => None,
    }
}

/// What a whole request parses to, or nothing when the command name comes
/// out empty.
pub open spec fn parsed_request(path: Seq<u8>, query: Option<Seq<u8>>, body: Option<Seq<u8>>) -> Option<(Seq<u8>, Seq<Seq<u8>>, OutputFormat, Option<Seq<u8>>)> {
    let segs = decoded_segs(path);
    let step = ext_step(segs[0], segs.skip(1));
    let fmt = format_step(step.2, query);
    let cb = callback_of(query);
    let args = (match body {
        Some(b) => if b.len() > 0 {
            step.1.push(b)
        } else {
            step.1
        },
        None => step.1,
    });
    if step.0.len() == 0 {
        None
    } else {
        Some((step.0, args, fmt, cb))
    }
}

pub open spec fn opt_view(a: Option<&Vec<u8>>) -> Option<Seq<u8>> {
    match a {
        Some(v) => Some(v@),
        None => None,
    }
}

/// Parses a command path with its query and body into a request, or nothing
/// when the command name is empty.
pub fn parse_http_request(path: &[u8], query: Option<&Vec<u8>>, body: Option<&Vec<u8>>) -> (r:
    Option<CommandRequest>)
    ensures
        (match r {
            Some(req) => (match parsed_request(path@, opt_view(query), opt_view(body)) {
                Some(g) => req.name@ == g.0 && req.args@.len() == g.1.len() && (forall|i: int|
                    0 <= i < g.1.len() ==> req.args@[i]@ == g.1[i]) && req.format == g.2 && (match (
                    req.callback,
                    g.3,
                ) {
                    (Some(c), Some(gc)) => c@ == gc,
                    (None, None) => true,
                    _ => false,
                }),
                None => false,
            }),
            None => parsed_request(path@, opt_view(query), opt_view(body)) is None,
        }),
{
    let raw_segs = split_bytes(path, 47);
    let ghost gsegs = decoded_segs(path@);
    let n = raw_segs.len();
    assert(n >= 1) by {
        assert(split_sep(path@, 47).len() >= 1);
    }
    // decode every segment
    let mut segs: Vec<Vec<u8>> = Vec::new();
    let mut i: usize = 0;
    while i < n
        invariant
            n == raw_segs@.len(),
            n == split_sep(path@, 47).len(),
            forall|q: int| 0 <= q < n ==> raw_segs@[q]@ == split_sep(path@, 47)[q],
            0 <= i <= n,
            segs@.len() == i,
            forall|q: int| 0 <= q < i ==> segs@[q]@ == gsegs[q],
            gsegs == decoded_segs(path@),
        decreases n - i,
    {
        let d = percent_decode(raw_segs[i].as_slice());
        segs.push(d);
        i += 1;
    }
    let ghost gargs0 = gsegs.skip(1);
    // extension step
    let name0 = &segs[0];
    let mut fmt: OutputFormat = OutputFormat::Json;
    let mut name: Vec<u8> = Vec::new();
    let mut args: Vec<Vec<u8>> = Vec::new();
    match find_last_dot(name0.as_slice()) {
        Some(idx) => {
            let nl = name0.len();
            assert(idx < nl);
            name = copy_range(name0.as_slice(), 0, idx);
            let ext = copy_range(name0.as_slice(), idx + 1, nl);
            proof {
                assert(ext@ =~= name0@.skip(idx + 1));
                assert(name@ =~= name0@.take(idx as int));
            }
            fmt = ext_format_bytes(ext.as_slice());
            let mut j: usize = 1;
            while j < n
                invariant
                    n == segs@.len(),
                    1 <= j <= n,
                    args@.len() == j - 1,
                    forall|q: int| 0 <= q < j - 1 ==> args@[q]@ == segs@[q + 1]@,
                    forall|q: int| 0 <= q < segs@.len() ==> segs@[q]@ == gsegs[q],
                    gsegs.len() == n,
                decreases n - j,
            {
                args.push(crate::seqs::copy_bytes(segs[j].as_slice()));
                j += 1;
            }
        },
        None => {
            name = crate::seqs::copy_bytes(segs[0].as_slice());
            let mut j: usize = 1;
            while j < n
                invariant
                    n == segs@.len(),
                    1 <= j <= n,
                    args@.len() == j - 1,
                    forall|q: int| 0 <= q < j - 1 ==> args@[q]@ == segs@[q + 1]@,
                    forall|q: int| 0 <= q < segs@.len() ==> segs@[q]@ == gsegs[q],
                    gsegs.len() == n,
                decreases n - j,
            {
                args.push(crate::seqs::copy_bytes(segs[j].as_slice()));
                j += 1;
            }
            if args.len() > 0 {
                let lidx = args.len() - 1;
                let last_arg = &args[lidx];
                match find_last_dot(last_arg.as_slice()) {
                    Some(idx) => {
                        let ll = last_arg.len();
                        assert(idx < ll);
                        let ext = copy_range(last_arg.as_slice(), idx + 1, ll);
                        proof {
                            assert(ext@ =~= args@[lidx as int]@.skip(idx + 1));
                        }
                        if known_ext_bytes(ext.as_slice()) {
                            fmt = ext_format_bytes(ext.as_slice());
                            let stripped = copy_range(last_arg.as_slice(), 0, idx);
                            proof {
                                assert(stripped@ =~= args@[lidx as int]@.take(idx as int));
                            }
                            let ghost before = args@;
                            let _ = args.pop();
                            args.push(stripped);
                            proof {
                                assert(args@.len() == before.len());
                                assert(forall|q: int|
                                    0 <= q < before.len() - 1 ==> args@[q] == before[q]);
                            }
                        }
                    },
                    None => {},
                }
            }
        },
    }
    // query: format override and callback
    match query {
        Some(q) => {
            let mut tkey: Vec<u8> = Vec::new();
            tkey.push(116);
            tkey.push(121);
            tkey.push(112);
            tkey.push(101);
            assert(tkey@ =~= seq![116u8, 121u8, 112u8, 101u8]);
            match query_lookup(q.as_slice(), tkey.as_slice()) {
                Some(t) => {
                    if known_ext_bytes(t.as_slice()) {
                        fmt = ext_format_bytes(t.as_slice());
                    }
                },
                None => {},
            }
        },
        None => {},
    }
    let callback: Option<Vec<u8>> = match query {
        Some(q) => {
            let mut ckey: Vec<u8> = Vec::new();
            ckey.push(99);
            ckey.push(98);
            assert(ckey@ =~= seq![99u8, 98u8]);
            let c0 = query_lookup(q.as_slice(), ckey.as_slice());
            let c = match c0 {
                Some(c) => Some(c),
                None => {
                    let mut lkey: Vec<u8> = Vec::new();
                    lkey.push(99);
                    lkey.push(97);
                    lkey.push(108);
                    lkey.push(108);
                    lkey.push(98);
                    lkey.push(97);
                    lkey.push(99);
                    lkey.push(107);
                    assert(lkey@ =~= seq![99u8, 97u8, 108u8, 108u8, 98u8, 97u8, 99u8, 107u8]);
                    query_lookup(q.as_slice(), lkey.as_slice())
                },
            };
            match c {
                Some(cv) => {
                    if callback_valid(cv.as_slice()) {
                        Some(cv)
                    } else {
                        None
                    }
                },
                None => None,
            }
        },
        None => None,
    };
    // body as final argument
    match body {
        Some(b) => {
            if b.len() > 0 {
                args.push(crate::seqs::copy_bytes(b.as_slice()));
            }
        },
        None => {},
    }
    if name.len() == 0 {
        proof {
            let g = parsed_request(path@, opt_view(query), opt_view(body));
            assert(ext_step(gsegs[0], gargs0).0.len() == 0);
        }
        return None;
    }
    proof {
        let step = ext_step(gsegs[0], gargs0);
        assert(name@ == step.0);
        assert(args@.len() == (match opt_view(body) {
            Some(b) => if b.len() > 0 {
                step.1.push(b)
            } else {
                step.1
            },
            None => step.1,
        }).len());
    }
    Some(CommandRequest { name, args, format: fmt, callback })
}

} // verus!
