//! Parsing of the JSON shapes the gateway exchanges: a string literal, an
//! integer, a scalar, an object of one scalar member (the shape every command
//! reply takes), and an array of strings (the shape every WebSocket command
//! frame takes). Each parser exists twice: a spec function that is the
//! definition, and an executable one proved to return exactly what the spec
//! function says.

use vstd::prelude::*;

use crate::json::{escape_byte, escape_bytes, jtext, jtext_entries, JVal, Json};
use crate::seqs::{dec_int, dec_nat, digit_byte, hex_byte, hex_val, hex_value, lemma_hex_roundtrip};

verus! {

/// JSON whitespace.
pub open spec fn is_ws(b: u8) -> bool {
    b == 32 || b == 9 || b == 10 || b == 13
}

/// The suffix that remains after leading whitespace.
pub open spec fn skip_ws(s: Seq<u8>) -> Seq<u8>
    decreases s.len(),
{
    if s.len() > 0 && is_ws(s[0]) {
        skip_ws(s.drop_first())
    } else {
        s
    }
}

pub proof fn lemma_skip_ws_len(s: Seq<u8>)
    ensures
        skip_ws(s).len() <= s.len(),
    decreases s.len(),
{
    if s.len() > 0 && is_ws(s[0]) {
        lemma_skip_ws_len(s.drop_first());
    }
}

/// The byte named by a single-character escape, `\"` through `\t`.
pub open spec fn unescape_simple(b: u8) -> Option<u8> {
    if b == 34 {
        Some(34u8)
    } else if b == 92 {
        Some(92u8)
    } else if b == 47 {
        Some(47u8)
    } else if b == 98 {
        Some(8u8)
    } else if b == 102 {
        Some(12u8)
    } else if b == 110 {
        Some(10u8)
    } else if b == 114 {
        Some(13u8)
    } else if b == 116 {
        Some(9u8)
    } else {
        None
    }
}

/// Parses the body of a string literal, after its opening quote: the decoded
/// content and the suffix after the closing quote. Unicode escapes are
/// accepted in the byte range, `\u0000` through `ÿ`.
pub open spec fn parse_str_body(s: Seq<u8>) -> Option<(Seq<u8>, Seq<u8>)>
    decreases s.len(),
{
    if s.len() == 0 {
        None
    } else if s[0] == 34 {
        Some((Seq::empty(), s.drop_first()))
    } else if s[0] == 92 {
        if s.len() < 2 {
            None
        } else if s[1] == 117 {
            if s.len() < 6 {
                None
            } else if s[2] == 48 && s[3] == 48 && hex_val(s[4]) is Some && hex_val(s[5]) is Some {
                let b = ((16 * hex_val(s[4]).unwrap() + hex_val(s[5]).unwrap()) as u8);
                match parse_str_body(s.skip(6)) {
                    Some((c, r)) => Some((seq![b] + c, r)),
                    None => None,
                }
            } else {
                None
            }
        } else {
            match unescape_simple(s[1]) {
                Some(b) => match parse_str_body(s.skip(2)) {
                    Some((c, r)) => Some((seq![b] + c, r)),
                    None => None,
                },
                None => None,
            }
        }
    } else {
        match parse_str_body(s.drop_first()) {
            Some((c, r)) => Some((seq![s[0]] + c, r)),
            None => None,
        }
    }
}

/// A parsed string body leaves a strictly shorter suffix.
pub proof fn lemma_parse_str_body_shrinks(s: Seq<u8>)
    ensures
        match parse_str_body(s) {
            Some((c, r)) => r.len() < s.len(),
            None => true,
        },
    decreases s.len(),
{
    if s.len() == 0 {
    } else if s[0] == 34 {
    } else if s[0] == 92 {
        if s.len() >= 6 {
            lemma_parse_str_body_shrinks(s.skip(6));
        }
        if s.len() >= 2 {
            lemma_parse_str_body_shrinks(s.skip(2));
        }
    } else {
        lemma_parse_str_body_shrinks(s.drop_first());
    }
}

/// ASCII decimal digit.
pub open spec fn is_digit(b: u8) -> bool {
    48 <= b <= 57
}

/// Length of the longest digit prefix.
pub open spec fn digits_len(s: Seq<u8>) -> int
    decreases s.len(),
{
    if s.len() > 0 && is_digit(s[0]) {
        1 + digits_len(s.drop_first())
    } else {
        0
    }
}

pub proof fn lemma_digits_len_bounds(s: Seq<u8>)
    ensures
        0 <= digits_len(s) <= s.len(),
        forall|j: int| 0 <= j < digits_len(s) ==> is_digit(s[j]),
        digits_len(s) < s.len() ==> !is_digit(s[digits_len(s)]),
    decreases s.len(),
{
    if s.len() > 0 && is_digit(s[0]) {
        lemma_digits_len_bounds(s.drop_first());
        assert forall|j: int| 0 <= j < digits_len(s) implies is_digit(s[j]) by {
            if j > 0 {
                assert(is_digit(s.drop_first()[j - 1]));
            }
        }
    }
}

/// Value of a digit string, most significant first.
pub open spec fn digits_val(s: Seq<u8>) -> int
    decreases s.len(),
{
    if s.len() == 0 {
        0
    } else {
        digits_val(s.drop_last()) * 10 + (s.last() - 48)
    }
}

/// Parses an optionally signed decimal integer at the head of `s`, rejecting
/// a leading zero on a multi-digit number and any value outside `i64`.
pub open spec fn parse_int_text(s: Seq<u8>) -> Option<(int, Seq<u8>)> {
    let neg = s.len() > 0 && s[0] == 45;
    let t = if neg {
        s.drop_first()
    } else {
        s
    };
    let k = digits_len(t);
    if k == 0 {
        None
    } else if t[0] == 48 && k > 1 {
        None
    } else {
        let v = digits_val(t.take(k));
        let sv = if neg {
            -v
        } else {
            v
        };
        if sv < i64::MIN as int || sv > i64::MAX as int {
            None
        } else {
            Some((sv, t.skip(k)))
        }
    }
}

/// Parses one scalar JSON value at the head of `s`.
pub open spec fn parse_scalar(s: Seq<u8>) -> Option<(JVal, Seq<u8>)> {
    if s.len() == 0 {
        None
    } else if s[0] == 34 {
        match parse_str_body(s.drop_first()) {
            Some((c, r)) => Some((JVal::Str(c), r)),
            None => None,
        }
    } else if s[0] == 110 {
        if s.len() >= 4 && s[1] == 117 && s[2] == 108 && s[3] == 108 {
            Some((JVal::Null, s.skip(4)))
        } else {
            None
        }
    } else if s[0] == 116 {
        if s.len() >= 4 && s[1] == 114 && s[2] == 117 && s[3] == 101 {
            Some((JVal::Bool(true), s.skip(4)))
        } else {
            None
        }
    } else if s[0] == 102 {
        if s.len() >= 5 && s[1] == 97 && s[2] == 108 && s[3] == 115 && s[4] == 101 {
            Some((JVal::Bool(false), s.skip(5)))
        } else {
            None
        }
    } else if s[0] == 45 || is_digit(s[0]) {
        match parse_int_text(s) {
            Some((n, r)) => Some((JVal::Int(n), r)),
            None => None,
        }
    } else {
        None
    }
}

/// Parses a whole text of the form `{"key":scalar}`, whitespace allowed
/// between tokens: the decoded key and the scalar value.
pub open spec fn parse_scalar_obj(s: Seq<u8>) -> Option<(Seq<u8>, JVal)> {
    let t = skip_ws(s);
    if t.len() == 0 || t[0] != 123 {
        None
    } else {
        let u = skip_ws(t.drop_first());
        if u.len() == 0 || u[0] != 34 {
            None
        } else {
            match parse_str_body(u.drop_first()) {
                Some((k, r1)) => {
                    let r2 = skip_ws(r1);
                    if r2.len() == 0 || r2[0] != 58 {
                        None
                    } else {
                        let r3 = skip_ws(r2.drop_first());
                        match parse_scalar(r3) {
                            Some((v, r4)) => {
                                let r5 = skip_ws(r4);
                                if r5.len() >= 1 && r5[0] == 125 && skip_ws(r5.drop_first()).len()
                                    == 0 {
                                    Some((k, v))
                                } else {
                                    None
                                }
                            },
                            None => None,
                        }
                    }
                },
                None => None,
            }
        }
    }
}

/// Parses `"s1" ws (, ws "s2")* ws ]` starting at a string: the items and the
/// suffix after the closing bracket.
pub open spec fn parse_str_items(s: Seq<u8>) -> Option<(Seq<Seq<u8>>, Seq<u8>)>
    decreases s.len(),
    via parse_str_items_dec
{
    if s.len() == 0 || s[0] != 34 {
        None
    } else {
        match parse_str_body(s.drop_first()) {
            Some((c, r)) => {
                let t = skip_ws(r);
                if t.len() == 0 {
                    None
                } else if t[0] == 93 {
                    Some((seq![c], t.drop_first()))
                } else if t[0] == 44 {
                    match parse_str_items(skip_ws(t.drop_first())) {
                        Some((items, rest)) => Some((seq![c] + items, rest)),
                        None => None,
                    }
                } else {
                    None
                }
            },
            None => None,
        }
    }
}

#[via_fn]
proof fn parse_str_items_dec(s: Seq<u8>) {
    if s.len() > 0 && s[0] == 34 {
        lemma_parse_str_body_shrinks(s.drop_first());
        match parse_str_body(s.drop_first()) {
            Some((c, r)) => {
                lemma_skip_ws_len(r);
                let t = skip_ws(r);
                if t.len() > 0 && t[0] == 44 {
                    lemma_skip_ws_len(t.drop_first());
                }
            },
            None => {},
        }
    }
}

/// Parses a whole text of the form `["s1","s2",...]`, whitespace allowed
/// between tokens; the empty array parses to no items.
pub open spec fn parse_str_array(s: Seq<u8>) -> Option<Seq<Seq<u8>>> {
    let t = skip_ws(s);
    if t.len() == 0 || t[0] != 91 {
        None
    } else {
        let u = skip_ws(t.drop_first());
        if u.len() > 0 && u[0] == 93 {
            if skip_ws(u.drop_first()).len() == 0 {
                Some(Seq::empty())
            } else {
                None
            }
        } else {
            match parse_str_items(u) {
                Some((items, rest)) => if skip_ws(rest).len() == 0 {
                    Some(items)
                } else {
                    None
                },
                None => None,
            }
        }
    }
}

/// `pow10(n)` is ten to the `n`.
pub open spec fn pow10(n: nat) -> int
    decreases n,
{
    if n == 0 {
        1
    } else {
        10 * pow10((n - 1) as nat)
    }
}

proof fn lemma_digits_val_bounds(d: Seq<u8>)
    requires
        forall|j: int| 0 <= j < d.len() ==> is_digit(d[j]),
    ensures
        0 <= digits_val(d) < pow10(d.len() as nat),
    decreases d.len(),
{
    if d.len() > 0 {
        lemma_digits_val_bounds(d.drop_last());
    }
}

proof fn lemma_digits_val_lower(d: Seq<u8>)
    requires
        d.len() > 0,
        forall|j: int| 0 <= j < d.len() ==> is_digit(d[j]),
        d[0] != 48,
    ensures
        digits_val(d) >= pow10((d.len() - 1) as nat),
    decreases d.len(),
{
    if d.len() == 1 {
    } else {
        assert forall|j: int| 0 <= j < d.drop_last().len() implies is_digit(
            d.drop_last()[j],
        ) by {
            assert(d.drop_last()[j] == d[j]);
        }
        assert(d.drop_last()[0] == d[0]);
        lemma_digits_val_lower(d.drop_last());
        lemma_digits_val_bounds(d.drop_last());
        assert(is_digit(d.last()));
        assert(pow10((d.len() - 1) as nat) == 10 * pow10((d.len() - 2) as nat));
        assert(digits_val(d) == digits_val(d.drop_last()) * 10 + (d.last() - 48));
        assert(digits_val(d.drop_last()) * 10 >= pow10((d.len() - 2) as nat) * 10) by (
        nonlinear_arith)
            requires
                digits_val(d.drop_last()) >= pow10((d.len() - 2) as nat),
        ;
    }
}

proof fn lemma_digits_len_from(t: Seq<u8>, m: int)
    requires
        0 <= m <= t.len(),
        forall|q: int| 0 <= q < m ==> is_digit(t[q]),
        m == t.len() || !is_digit(t[m]),
    ensures
        digits_len(t) == m,
    decreases t.len(),
{
    if m > 0 {
        lemma_digits_len_from(t.drop_first(), m - 1);
    }
}

fn is_ws_byte(b: u8) -> (r: bool)
    ensures
        r == is_ws(b),
{
    b == 32 || b == 9 || b == 10 || b == 13
}

fn is_digit_byte(b: u8) -> (r: bool)
    ensures
        r == is_digit(b),
{
    48 <= b && b <= 57
}

fn unescape_simple_byte(b: u8) -> (r: Option<u8>)
    ensures
        r == unescape_simple(b),
{
    if b == 34 {
        Some(34)
    } else if b == 92 {
        Some(92)
    } else if b == 47 {
        Some(47)
    } else if b == 98 {
        Some(8)
    } else if b == 102 {
        Some(12)
    } else if b == 110 {
        Some(10)
    } else if b == 114 {
        Some(13)
    } else if b == 116 {
        Some(9)
    } else {
        None
    }
}

/// Advances past whitespace: afterwards the suffix at the returned index is
/// exactly `skip_ws` of the suffix at `from`.
fn skip_ws_at(s: &[u8], from: usize) -> (j: usize)
    requires
        from <= s@.len(),
    ensures
        from <= j <= s@.len(),
        s@.skip(j as int) == skip_ws(s@.skip(from as int)),
{
    let n = s.len();
    let mut j = from;
    while j < n && is_ws_byte(s[j])
        invariant
            n == s@.len(),
            from <= j <= n,
            skip_ws(s@.skip(from as int)) == skip_ws(s@.skip(j as int)),
        decreases n - j,
    {
        proof {
            assert(s@.skip(j as int).drop_first() =~= s@.skip(j as int + 1));
        }
        j += 1;
    }
    proof {
        if j < n {
            assert(!is_ws(s@.skip(j as int)[0]));
        } else {
            assert(s@.skip(j as int).len() == 0);
        }
    }
    j
}

/// Parses a string-literal body starting just after the opening quote at
/// `from`; on success the content and the index just past the closing quote.
fn parse_str_body_at(s: &[u8], from: usize) -> (r: Option<(Vec<u8>, usize)>)
    requires
        from <= s@.len(),
    ensures
        (match r {
            Some((c, j)) => from <= j <= s@.len() && parse_str_body(s@.skip(from as int)) == Some(
                (c@, s@.skip(j as int)),
            ),
            None => parse_str_body(s@.skip(from as int)) is None,
        }),
{
    let n = s.len();
    let mut acc: Vec<u8> = Vec::new();
    let mut i = from;
    loop
        invariant
            n == s@.len(),
            from <= i <= n,
            (match parse_str_body(s@.skip(i as int)) {
                Some((c, r2)) => parse_str_body(s@.skip(from as int)) == Some((acc@ + c, r2)),
                None => parse_str_body(s@.skip(from as int)) is None,
            }),
        decreases n - i,
    {
        if i >= n {
            assert(s@.skip(i as int).len() == 0);
            return None;
        }
        let b = s[i];
        assert(s@.skip(i as int)[0] == b);
        if b == 34 {
            proof {
                assert(s@.skip(i as int).drop_first() =~= s@.skip(i as int + 1));
                assert(acc@ + Seq::<u8>::empty() =~= acc@);
            }
            return Some((acc, i + 1));
        } else if b == 92 {
            if n - i < 2 {
                assert(s@.skip(i as int).len() < 2);
                return None;
            }
            let e = s[i + 1];
            assert(s@.skip(i as int)[1] == e);
            if e == 117 {
                if n - i < 6 {
                    assert(s@.skip(i as int).len() < 6);
                    return None;
                }
                let ghost su = s@.skip(i as int);
                assert(su[2] == s@[i as int + 2] && su[3] == s@[i as int + 3] && su[4] == s@[
                    i as int + 4
                ] && su[5] == s@[i as int + 5]);
                if s[i + 2] == 48 && s[i + 3] == 48 {
                    let h = hex_value(s[i + 4]);
                    let l = hex_value(s[i + 5]);
                    match (h, l) {
                        (Some(hv), Some(lv)) => {
                            let ghost acc0 = acc@;
                            acc.push(16 * hv + lv);
                            proof {
                                assert(s@.skip(i as int).skip(6) =~= s@.skip(i as int + 6));
                                match parse_str_body(s@.skip(i as int + 6)) {
                                    Some((c, r2)) => {
                                        assert(acc@ + c =~= acc0 + (seq![(16 * hv + lv) as u8]
                                            + c));
                                    },
                                    None => {},
                                }
                            }
                            i += 6;
                        },
                        _ => {
                            return None;
                        },
                    }
                } else {
                    return None;
                }
            } else {
                match unescape_simple_byte(e) {
                    Some(x) => {
                        let ghost acc0 = acc@;
                        acc.push(x);
                        proof {
                            assert(s@.skip(i as int).skip(2) =~= s@.skip(i as int + 2));
                            match parse_str_body(s@.skip(i as int + 2)) {
                                Some((c, r2)) => {
                                    assert(acc@ + c =~= acc0 + (seq![x] + c));
                                },
                                None => {},
                            }
                        }
                        i += 2;
                    },
                    None => {
                        return None;
                    },
                }
            }
        } else {
            let ghost acc0 = acc@;
            acc.push(b);
            proof {
                assert(s@.skip(i as int).drop_first() =~= s@.skip(i as int + 1));
                match parse_str_body(s@.skip(i as int + 1)) {
                    Some((c, r2)) => {
                        assert(acc@ + c =~= acc0 + (seq![b] + c));
                    },
                    None => {},
                }
            }
            i += 1;
        }
    }
}

/// Parses an integer at `from`, mirroring `parse_int_text` on the suffix.
#[verifier::rlimit(30)]
fn parse_int_at(s: &[u8], from: usize) -> (r: Option<(i64, usize)>)
    requires
        from <= s@.len(),
    ensures
        (match r {
            Some((v, j)) => from <= j <= s@.len() && parse_int_text(s@.skip(from as int)) == Some(
                (v as int, s@.skip(j as int)),
            ),
            None => parse_int_text(s@.skip(from as int)) is None,
        }),
{
    let n = s.len();
    let ghost ss = s@.skip(from as int);
    let neg = from < n && s[from] == 45;
    let i = if neg {
        from + 1
    } else {
        from
    };
    let ghost t = s@.skip(i as int);
    proof {
        if neg {
            assert(ss.drop_first() =~= t);
        }
    }
    let mut val: u64 = 0;
    let mut j = i;
    while j < n && is_digit_byte(s[j])
        invariant
            n == s@.len(),
            from <= i <= j <= n,
            ss == s@.skip(from as int),
            neg == (from < n && s@[from as int] == 45),
            i == (if neg { from + 1 } else { from as int }),
            t == (if neg { ss.drop_first() } else { ss }),
            t == s@.skip(i as int),
            j - i <= 19,
            forall|q: int| 0 <= q < j - i ==> is_digit(t[q]),
            val == digits_val(t.take(j - i)),
            val < pow10((j - i) as nat),
        decreases n - j,
    {
        let ghost m = (j - i) as nat;
        if j - i == 19 {
            // a twentieth digit would push the value past the signed range
            proof {
                lemma_digits_len_bounds(t);
                let k = digits_len(t);
                assert(t[19] == s@[j as int]);
                assert(k >= 20);
                assert(t.take(k).len() == k);
                assert forall|q: int| 0 <= q < k implies is_digit(t.take(k)[q]) by {
                    assert(t.take(k)[q] == t[q]);
                }
                assert(t.take(k)[0] == t[0]);
                if t[0] != 48 {
                    lemma_digits_val_lower(t.take(k));
                    lemma_pow10_mono(19, (k - 1) as nat);
                    reveal_with_fuel(pow10, 21);
                    assert(pow10(19) == 10000000000000000000);
                    assert(digits_val(t.take(k)) >= pow10((k - 1) as nat));
                    assert(pow10((k - 1) as nat) >= pow10(19));
                    assert(digits_val(t.take(k)) > i64::MAX as int);
                    assert(-digits_val(t.take(k)) < i64::MIN as int);
                }
                assert(ss[0] == s@[from as int]);
                if neg {
                    assert(ss.len() > 0 && ss[0] == 45);
                }
                assert(parse_int_text(ss) is None);
            }
            return None;
        }
        let d = s[j];
        proof {
            assert(t[j - i] == d);
            assert(t.take(j - i + 1).drop_last() =~= t.take(j - i));
            assert(t.take(j - i + 1).last() == d);
            assert(pow10(m + 1) == 10 * pow10(m));
            lemma_pow10_mono(m + 1, 19);
            reveal_with_fuel(pow10, 20);
            assert(val * 10 + (d - 48) < pow10(m + 1));
        }
        val = val * 10 + ((d - 48) as u64);
        j += 1;
    }
    let ghost k = (j - i) as int;
    proof {
        if j < n {
            assert(t[k] == s@[j as int]);
        }
        lemma_digits_len_from(t, k);
        if i < n {
            assert(t[0] == s@[i as int]);
        }
        assert(t.skip(k) =~= s@.skip(j as int));
    }
    if j == i {
        return None;
    }
    if s[i] == 48 && j - i > 1 {
        return None;
    }
    if neg {
        if val > 9223372036854775808u64 {
            return None;
        }
        let v: i64 = (-(val as i128)) as i64;
        proof {
            assert(v as int == -(digits_val(t.take(k))));
        }
        Some((v, j))
    } else {
        if val > 9223372036854775807u64 {
            return None;
        }
        Some((val as i64, j))
    }
}

proof fn lemma_pow10_pos(n: nat)
    ensures
        pow10(n) >= 1,
    decreases n,
{
    if n > 0 {
        lemma_pow10_pos((n - 1) as nat);
    }
}

proof fn lemma_pow10_mono(a: nat, b: nat)
    requires
        a <= b,
    ensures
        pow10(a) <= pow10(b),
    decreases b,
{
    if a < b {
        lemma_pow10_mono(a, (b - 1) as nat);
        lemma_pow10_pos((b - 1) as nat);
        assert(pow10(b) == 10 * pow10((b - 1) as nat));
    }
}

/// Parses one scalar value at `from`, as a `Json` leaf.
fn parse_scalar_at(s: &[u8], from: usize) -> (r: Option<(Json, usize)>)
    requires
        from <= s@.len(),
    ensures
        (match r {
            Some((v, j)) => from <= j <= s@.len() && parse_scalar(s@.skip(from as int)) == Some(
                (v@, s@.skip(j as int)),
            ),
            None => parse_scalar(s@.skip(from as int)) is None,
        }),
{
    let n = s.len();
    let ghost ss = s@.skip(from as int);
    if from >= n {
        return None;
    }
    let b = s[from];
    assert(ss[0] == b);
    if b == 34 {
        proof {
            assert(ss.drop_first() =~= s@.skip(from as int + 1));
        }
        match parse_str_body_at(s, from + 1) {
            Some((c, j)) => Some((Json::Str(c), j)),
            None => None,
        }
    } else if b == 110 {
        proof {
            if ss.len() >= 4 {
                assert(ss[1] == s@[from as int + 1] && ss[2] == s@[from as int + 2] && ss[3]
                    == s@[from as int + 3]);
            }
        }
        if n - from >= 4 && s[from + 1] == 117 && s[from + 2] == 108 && s[from + 3] == 108 {
            proof {
                assert(ss.skip(4) =~= s@.skip(from as int + 4));
            }
            Some((Json::Null, from + 4))
        } else {
            None
        }
    } else if b == 116 {
        proof {
            if ss.len() >= 4 {
                assert(ss[1] == s@[from as int + 1] && ss[2] == s@[from as int + 2] && ss[3]
                    == s@[from as int + 3]);
            }
        }
        if n - from >= 4 && s[from + 1] == 114 && s[from + 2] == 117 && s[from + 3] == 101 {
            proof {
                assert(ss.skip(4) =~= s@.skip(from as int + 4));
            }
            Some((Json::Bool(true), from + 4))
        } else {
            None
        }
    } else if b == 102 {
        proof {
            if ss.len() >= 5 {
                assert(ss[1] == s@[from as int + 1] && ss[2] == s@[from as int + 2] && ss[3]
                    == s@[from as int + 3] && ss[4] == s@[from as int + 4]);
            }
        }
        if n - from >= 5 && s[from + 1] == 97 && s[from + 2] == 108 && s[from + 3] == 115 && s[from
            + 4] == 101 {
            proof {
                assert(ss.skip(5) =~= s@.skip(from as int + 5));
            }
            Some((Json::Bool(false), from + 5))
        } else {
            None
        }
    } else if b == 45 || is_digit_byte(b) {
        match parse_int_at(s, from) {
            Some((v, j)) => Some((Json::Int(v), j)),
            None => None,
        }
    } else {
        None
    }
}

/// Parses a whole `{"key":scalar}` text, the shape of every command reply.
pub fn json_parse_scalar_object(s: &[u8]) -> (r: Option<(Vec<u8>, Json)>)
    ensures
        (match r {
            Some((k, v)) => (match parse_scalar_obj(s@) {
                Some((sk, sv)) => k@ == sk && v@ == sv,
                None => false,
            }),
            None => parse_scalar_obj(s@) is None,
        }),
{
    let n = s.len();
    proof {
        assert(s@.skip(0) =~= s@);
    }
    let t = skip_ws_at(s, 0);
    if t >= n || s[t] != 123 {
        return None;
    }
    proof {
        assert(s@.skip(t as int).drop_first() =~= s@.skip(t as int + 1));
    }
    let u = skip_ws_at(s, t + 1);
    if u >= n || s[u] != 34 {
        return None;
    }
    proof {
        assert(s@.skip(u as int).drop_first() =~= s@.skip(u as int + 1));
    }
    match parse_str_body_at(s, u + 1) {
        None => None,
        Some((k, r1)) => {
            let r2 = skip_ws_at(s, r1);
            if r2 >= n || s[r2] != 58 {
                return None;
            }
            proof {
                assert(s@.skip(r2 as int).drop_first() =~= s@.skip(r2 as int + 1));
            }
            let r3 = skip_ws_at(s, r2 + 1);
            match parse_scalar_at(s, r3) {
                None => None,
                Some((v, r4)) => {
                    let r5 = skip_ws_at(s, r4);
                    if r5 < n && s[r5] == 125 {
                        proof {
                            assert(s@.skip(r5 as int).drop_first() =~= s@.skip(r5 as int + 1));
                        }
                        let r6 = skip_ws_at(s, r5 + 1);
                        if r6 == n {
                            Some((k, v))
                        } else {
                            None
                        }
                    } else {
                        None
                    }
                },
            }
        },
    }
}

/// Parses a whole `["s1","s2",...]` text, the shape of a WebSocket command
/// frame; binary content arrives through escapes.
pub fn json_parse_string_array(s: &[u8]) -> (r: Option<Vec<Vec<u8>>>)
    ensures
        (match r {
            Some(items) => (match parse_str_array(s@) {
                Some(gi) => gi.len() == items@.len() && (forall|q: int|
                    0 <= q < gi.len() ==> gi[q] == items@[q]@),
                None => false,
            }),
            None => parse_str_array(s@) is None,
        }),
{
    let n = s.len();
    proof {
        assert(s@.skip(0) =~= s@);
    }
    let t = skip_ws_at(s, 0);
    if t >= n || s[t] != 91 {
        return None;
    }
    proof {
        assert(s@.skip(t as int).drop_first() =~= s@.skip(t as int + 1));
    }
    let u = skip_ws_at(s, t + 1);
    if u < n && s[u] == 93 {
        proof {
            assert(s@.skip(u as int).drop_first() =~= s@.skip(u as int + 1));
        }
        let w = skip_ws_at(s, u + 1);
        if w == n {
            let items: Vec<Vec<u8>> = Vec::new();
            return Some(items);
        } else {
            return None;
        }
    }
    let mut items: Vec<Vec<u8>> = Vec::new();
    let ghost mut gacc: Seq<Seq<u8>> = Seq::empty();
    let mut i = u;
    loop
        invariant
            n == s@.len(),
            u <= i <= n,
            t < n,
            s@.skip(t as int) == skip_ws(s@),
            s@[t as int] == 91,
            s@.skip(u as int) == skip_ws(s@.skip(t as int + 1)),
            s@.skip(t as int).drop_first() == s@.skip(t as int + 1),
            !(u < n && s@[u as int] == 93),
            gacc.len() == items@.len(),
            forall|q: int| 0 <= q < gacc.len() ==> gacc[q] == items@[q]@,
            (match parse_str_items(s@.skip(i as int)) {
                Some((gitems, rest)) => parse_str_items(s@.skip(u as int)) == Some(
                    (gacc + gitems, rest),
                ),
                None => parse_str_items(s@.skip(u as int)) is None,
            }),
        decreases n - i,
    {
        if i >= n || s[i] != 34 {
            proof {
                if i < n {
                    assert(s@.skip(i as int)[0] == s@[i as int]);
                }
            }
            return None;
        }
        assert(s@.skip(i as int)[0] == 34);
        proof {
            assert(s@.skip(i as int).drop_first() =~= s@.skip(i as int + 1));
            lemma_parse_str_body_shrinks(s@.skip(i as int + 1));
        }
        match parse_str_body_at(s, i + 1) {
            None => {
                return None;
            },
            Some((c, j)) => {
                let t2 = skip_ws_at(s, j);
                if t2 >= n {
                    return None;
                }
                assert(s@.skip(t2 as int)[0] == s@[t2 as int]);
                if s[t2] == 93 {
                    proof {
                        assert(s@.skip(t2 as int).drop_first() =~= s@.skip(t2 as int + 1));
                    }
                    let ghost gall = gacc + seq![c@];
                    items.push(c);
                    proof {
                        gacc = gall;
                    }
                    let w = skip_ws_at(s, t2 + 1);
                    if w == n {
                        proof {
                            assert(parse_str_items(s@.skip(u as int)) == Some(
                                (gacc, s@.skip(t2 as int + 1)),
                            ));
                        }
                        return Some(items);
                    } else {
                        return None;
                    }
                } else if s[t2] == 44 {
                    proof {
                        assert(s@.skip(t2 as int).drop_first() =~= s@.skip(t2 as int + 1));
                    }
                    let i2 = skip_ws_at(s, t2 + 1);
                    let ghost gall = gacc + seq![c@];
                    items.push(c);
                    proof {
                        gacc = gall;
                        match parse_str_items(s@.skip(i2 as int)) {
                            Some((gitems, rest)) => {
                                assert(gall + gitems =~= (gall.drop_last()) + (seq![c@] + gitems));
                            },
                            None => {},
                        }
                    }
                    i = i2;
                } else {
                    return None;
                }
            },
        }
    }
}

proof fn lemma_skip_ws_noop(s: Seq<u8>)
    requires
        s.len() == 0 || !is_ws(s[0]),
    ensures
        skip_ws(s) == s,
{
}

proof fn lemma_dec_nat_digits(n: nat)
    ensures
        dec_nat(n).len() >= 1,
        forall|j: int| 0 <= j < dec_nat(n).len() ==> is_digit(dec_nat(n)[j]),
        n >= 1 ==> dec_nat(n)[0] != 48,
        n < 10 ==> dec_nat(n).len() == 1,
    decreases n,
{
    if n < 10 {
        assert(dec_nat(n) =~= seq![digit_byte(n)]);
    } else {
        lemma_dec_nat_digits(n / 10);
        let d = dec_nat(n / 10);
        assert(dec_nat(n) == d.push(digit_byte(n)));
        assert forall|j: int| 0 <= j < dec_nat(n).len() implies is_digit(dec_nat(n)[j]) by {
            if j < d.len() {
                assert(dec_nat(n)[j] == d[j]);
            } else {
                assert(dec_nat(n)[j] == digit_byte(n));
            }
        }
        assert(dec_nat(n)[0] == d[0]);
    }
}

proof fn lemma_digits_val_dec_nat(n: nat)
    ensures
        digits_val(dec_nat(n)) == n,
    decreases n,
{
    if n < 10 {
        let d = seq![digit_byte(n)];
        assert(dec_nat(n) =~= d);
        assert(d.drop_last() =~= Seq::<u8>::empty());
        assert(digits_val(Seq::<u8>::empty()) == 0);
        assert(d.last() == digit_byte(n));
        assert(digits_val(d) == digit_byte(n) - 48);
        assert(digit_byte(n) == 48 + n);
    } else {
        lemma_digits_val_dec_nat(n / 10);
        assert(dec_nat(n).drop_last() =~= dec_nat(n / 10));
        assert(dec_nat(n).last() == digit_byte(n));
        assert(digits_val(dec_nat(n)) == digits_val(dec_nat(n / 10)) * 10 + (digit_byte(n)
            - 48));
        assert(digit_byte(n) - 48 == n % 10);
        assert((n / 10) * 10 + n % 10 == n);
    }
}

proof fn lemma_digits_len_concat(d: Seq<u8>, rest: Seq<u8>)
    requires
        forall|j: int| 0 <= j < d.len() ==> is_digit(d[j]),
        rest.len() == 0 || !is_digit(rest[0]),
    ensures
        digits_len(d + rest) == d.len(),
    decreases d.len(),
{
    if d.len() == 0 {
        assert(d + rest =~= rest);
    } else {
        assert((d + rest)[0] == d[0]);
        assert((d + rest).drop_first() =~= d.drop_first() + rest);
        assert forall|j: int| 0 <= j < d.drop_first().len() implies is_digit(
            d.drop_first()[j],
        ) by {
            assert(d.drop_first()[j] == d[j + 1]);
        }
        lemma_digits_len_concat(d.drop_first(), rest);
    }
}

/// Decimal text followed by a non-digit parses back to the same integer.
pub proof fn lemma_parse_int_inverts(n: int, rest: Seq<u8>)
    requires
        i64::MIN as int <= n <= i64::MAX as int,
        rest.len() == 0 || !is_digit(rest[0]),
    ensures
        parse_int_text(dec_int(n) + rest) == Some((n, rest)),
{
    if n >= 0 {
        let d = dec_nat(n as nat);
        lemma_dec_nat_digits(n as nat);
        lemma_digits_val_dec_nat(n as nat);
        let s = d + rest;
        assert(dec_int(n) + rest =~= s);
        assert(s[0] == d[0]);
        lemma_digits_len_concat(d, rest);
        let k = digits_len(s);
        assert(k == d.len());
        assert(s.take(k) =~= d);
        assert(s.skip(k) =~= rest);
        if n == 0 {
            assert(k == 1);
        } else {
            assert(s[0] != 48);
        }
    } else {
        let m = (-n) as nat;
        let d = dec_nat(m);
        lemma_dec_nat_digits(m);
        lemma_digits_val_dec_nat(m);
        let s = dec_int(n) + rest;
        assert(s =~= seq![45u8] + d + rest);
        assert(s[0] == 45);
        assert(s.len() > 0);
        let t = s.drop_first();
        assert(t =~= d + rest);
        assert(t[0] == d[0]);
        lemma_digits_len_concat(d, rest);
        let k = digits_len(t);
        assert(k == d.len());
        assert(t.take(k) =~= d);
        assert(t.skip(k) =~= rest);
        assert(m >= 1);
        assert(t[0] != 48);
    }
}

/// An escaped string body followed by its closing quote parses back to the
/// same content.
pub proof fn lemma_parse_str_body_inverts(k: Seq<u8>, rest: Seq<u8>)
    ensures
        parse_str_body(escape_bytes(k) + seq![34u8] + rest) == Some((k, rest)),
    decreases k.len(),
{
    let s = escape_bytes(k) + seq![34u8] + rest;
    if k.len() == 0 {
        assert(escape_bytes(k) =~= Seq::<u8>::empty());
        assert(s =~= seq![34u8] + rest);
        assert(s[0] == 34);
        assert(s.drop_first() =~= rest);
        assert(k =~= Seq::<u8>::empty());
    } else {
        let b = k[0];
        let kd = k.drop_first();
        assert(escape_bytes(k) == escape_byte(b) + escape_bytes(kd)) by {
            assert(escape_bytes(k) == crate::seqs::concat_map(k, |x: u8| escape_byte(x)));
        }
        lemma_parse_str_body_inverts(kd, rest);
        let tail = escape_bytes(kd) + seq![34u8] + rest;
        assert(seq![b] + kd =~= k);
        if b == 34 || b == 92 || b == 8 || b == 9 || b == 10 || b == 12 || b == 13 {
            let e: u8 = if b == 34 {
                34
            } else if b == 92 {
                92
            } else if b == 8 {
                98
            } else if b == 9 {
                116
            } else if b == 10 {
                110
            } else if b == 12 {
                102
            } else {
                114
            };
            assert(escape_byte(b) =~= seq![92u8, e]);
            assert(s =~= seq![92u8, e] + tail);
            assert(s[0] == 92 && s[1] == e);
            assert(unescape_simple(e) == Some(b));
            assert(s.skip(2) =~= tail);
        } else if b < 32 {
            assert(escape_byte(b) =~= seq![
                92u8,
                117u8,
                48u8,
                48u8,
                hex_byte((b / 16) as nat),
                hex_byte(b as nat),
            ]);
            assert(s =~= seq![
                92u8,
                117u8,
                48u8,
                48u8,
                hex_byte((b / 16) as nat),
                hex_byte(b as nat),
            ] + tail);
            assert(s[0] == 92 && s[1] == 117 && s[2] == 48 && s[3] == 48);
            assert(s[4] == hex_byte((b / 16) as nat) && s[5] == hex_byte(b as nat));
            lemma_hex_roundtrip((b / 16) as nat);
            lemma_hex_roundtrip((b % 16) as nat);
            assert(hex_byte(b as nat) == hex_byte((b % 16) as nat));
            assert(hex_val(s[4]) == Some((b / 16) as u8));
            assert(hex_val(s[5]) == Some((b % 16) as u8));
            assert(16 * (b / 16) + (b % 16) == b);
            assert(s.skip(6) =~= tail);
        } else {
            assert(escape_byte(b) =~= seq![b]);
            assert(s =~= seq![b] + tail);
            assert(s[0] == b);
            assert(b != 34 && b != 92);
            assert(s.drop_first() =~= tail);
        }
    }
}

/// A scalar's JSON text followed by a non-digit parses back to the value.
pub proof fn lemma_parse_scalar_inverts(v: JVal, rest: Seq<u8>)
    requires
        v.is_scalar(),
        (match v {
            JVal::Int(n) => i64::MIN as int <= n <= i64::MAX as int,
            _ => true,
        }),
        rest.len() == 0 || !is_digit(rest[0]),
    ensures
        parse_scalar(jtext(v) + rest) == Some((v, rest)),
{
    let s = jtext(v) + rest;
    match v {
        JVal::Null => {
            assert(s =~= seq![110u8, 117u8, 108u8, 108u8] + rest);
            assert(s[0] == 110 && s[1] == 117 && s[2] == 108 && s[3] == 108);
            assert(s.skip(4) =~= rest);
        },
        JVal::Bool(bv) => {
            if bv {
                assert(s =~= seq![116u8, 114u8, 117u8, 101u8] + rest);
                assert(s[0] == 116 && s[1] == 114 && s[2] == 117 && s[3] == 101);
                assert(s.skip(4) =~= rest);
            } else {
                assert(s =~= seq![102u8, 97u8, 108u8, 115u8, 101u8] + rest);
                assert(s[0] == 102 && s[1] == 97 && s[2] == 108 && s[3] == 115 && s[4] == 101);
                assert(s.skip(5) =~= rest);
            }
        },
        JVal::Int(n) => {
            lemma_parse_int_inverts(n, rest);
            assert(s == dec_int(n) + rest);
            if n >= 0 {
                lemma_dec_nat_digits(n as nat);
                assert(s[0] == dec_nat(n as nat)[0]);
                assert(is_digit(s[0]));
                assert(s[0] != 34 && s[0] != 110 && s[0] != 116 && s[0] != 102);
            } else {
                assert(s[0] == 45);
            }
        },
        JVal::Str(sc) => {
            assert(s =~= seq![34u8] + (escape_bytes(sc) + seq![34u8] + rest));
            assert(s[0] == 34);
            assert(s.drop_first() =~= escape_bytes(sc) + seq![34u8] + rest);
            lemma_parse_str_body_inverts(sc, rest);
        },
        JVal::Arr(_) => {},
        JVal::Obj(_) => {},
    }
}

/// The format round-trip law: the JSON text of an object of one scalar
/// member, the shape of every encoded command reply, parses back to exactly
/// that key and that value.
pub proof fn lemma_scalar_object_round_trip(key: Seq<u8>, v: JVal)
    requires
        v.is_scalar(),
        (match v {
            JVal::Int(n) => i64::MIN as int <= n <= i64::MAX as int,
            _ => true,
        }),
    ensures
        parse_scalar_obj(jtext(JVal::Obj(seq![(key, v)]))) == Some((key, v)),
{
    let p = (key, v);
    let s = jtext(JVal::Obj(seq![p]));
    assert(jtext_entries(seq![p]) == seq![34u8] + escape_bytes(key) + seq![34u8, 58u8] + jtext(
        v,
    )) by {
        assert(seq![p].len() == 1);
        assert(seq![p][0] == p);
    }
    let inner = seq![34u8] + escape_bytes(key) + seq![34u8, 58u8] + jtext(v);
    assert(s == seq![123u8] + inner + seq![125u8]);

    // the text of a scalar is never empty and never starts with whitespace
    let vt = jtext(v);
    assert(vt.len() >= 1 && !is_ws(vt[0]) && vt[0] != 125) by {
        match v {
            JVal::Int(n) => {
                if n >= 0 {
                    lemma_dec_nat_digits(n as nat);
                    assert(vt[0] == dec_nat(n as nat)[0]);
                    assert(is_digit(vt[0]));
                } else {
                    assert(vt[0] == 45);
                }
            },
            _ => {},
        }
    }

    assert(s.len() > 0 && s[0] == 123 && !is_ws(s[0]));
    lemma_skip_ws_noop(s);
    let t = skip_ws(s);
    assert(t == s);
    let td = t.drop_first();
    assert(td =~= inner + seq![125u8]);
    assert(td[0] == 34 && !is_ws(td[0]));
    lemma_skip_ws_noop(td);
    let u = skip_ws(td);
    assert(u == td);
    let ud = u.drop_first();
    assert(ud =~= escape_bytes(key) + seq![34u8] + (seq![58u8] + vt + seq![125u8]));
    lemma_parse_str_body_inverts(key, seq![58u8] + vt + seq![125u8]);
    let r1 = seq![58u8] + vt + seq![125u8];
    assert(parse_str_body(ud) == Some((key, r1)));
    assert(r1[0] == 58 && !is_ws(r1[0]));
    lemma_skip_ws_noop(r1);
    let r2 = skip_ws(r1);
    assert(r2 == r1);
    let r2d = r2.drop_first();
    assert(r2d =~= vt + seq![125u8]);
    assert(r2d[0] == vt[0]);
    lemma_skip_ws_noop(r2d);
    let r3 = skip_ws(r2d);
    assert(r3 == r2d);
    lemma_parse_scalar_inverts(v, seq![125u8]);
    assert(parse_scalar(r3) == Some((v, seq![125u8])));
    let r4 = seq![125u8];
    lemma_skip_ws_noop(r4);
    let r5 = skip_ws(r4);
    assert(r5 == r4);
    assert(r5.len() >= 1 && r5[0] == 125);
    assert(r5.drop_first() =~= Seq::<u8>::empty());
    lemma_skip_ws_noop(r5.drop_first());
    assert(skip_ws(r5.drop_first()).len() == 0);
}

} // verus!
