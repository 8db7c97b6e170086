//! Shared helpers over byte sequences: concatenation of per-element
//! encodings, decimal rendering of integers, and hexadecimal digits.
//! The spec functions here are the vocabulary of the encoder contracts.

use vstd::prelude::*;

verus! {

/// Concatenation of `g(x)` over the elements of `s`, left to right.
pub open spec fn concat_map<A>(s: Seq<A>, g: spec_fn(A) -> Seq<u8>) -> Seq<u8>
    decreases s.len(),
{
    if s.len() == 0 {
        Seq::empty()
    } else {
        g(s[0]) + concat_map(s.drop_first(), g)
    }
}

pub proof fn lemma_concat_map_append<A>(a: Seq<A>, b: Seq<A>, g: spec_fn(A) -> Seq<u8>)
    ensures
        concat_map(a + b, g) == concat_map(a, g) + concat_map(b, g),
    decreases a.len(),
{
    if a.len() == 0 {
        assert(a + b =~= b);
        assert(concat_map(a, g) =~= Seq::empty());
        assert(concat_map(a + b, g) =~= concat_map(a, g) + concat_map(b, g));
    } else {
        assert((a + b).drop_first() =~= a.drop_first() + b);
        lemma_concat_map_append(a.drop_first(), b, g);
        assert(concat_map(a + b, g) =~= concat_map(a, g) + concat_map(b, g));
    }
}

pub proof fn lemma_concat_map_take_snoc<A>(s: Seq<A>, g: spec_fn(A) -> Seq<u8>, i: int)
    requires
        0 <= i < s.len(),
    ensures
        concat_map(s.take(i + 1), g) == concat_map(s.take(i), g) + g(s[i]),
{
    assert(s.take(i + 1) =~= s.take(i) + seq![s[i]]);
    lemma_concat_map_append(s.take(i), seq![s[i]], g);
    assert(seq![s[i]].drop_first() =~= Seq::<A>::empty());
    assert(concat_map(Seq::<A>::empty(), g) =~= Seq::<u8>::empty());
    assert(concat_map(seq![s[i]], g) =~= g(s[i]));
}

/// The ASCII byte of the decimal digit `d % 10`.
pub open spec fn digit_byte(d: nat) -> u8 {
    (48 + (d % 10)) as u8
}

/// Decimal rendering of a natural number, most significant digit first,
/// without leading zeros (a single `0` for zero).
pub open spec fn dec_nat(n: nat) -> Seq<u8>
    decreases n,
{
    if n < 10 {
        seq![digit_byte(n)]
    } else {
        dec_nat(n / 10).push(digit_byte(n))
    }
}

/// Decimal rendering of an integer, with a leading `-` when negative.
pub open spec fn dec_int(n: int) -> Seq<u8> {
    if n >= 0 {
        dec_nat(n as nat)
    } else {
        seq![45u8] + dec_nat((-n) as nat)
    }
}

/// Appends the decimal digits of `n` to `out`.
pub fn push_dec_u64(out: &mut Vec<u8>, n: u64)
    ensures
        final(out)@ == old(out)@ + dec_nat(n as nat),
    decreases n,
{
    if n < 10 {
        out.push(48 + (n as u8));
        assert(out@ =~= old(out)@ + dec_nat(n as nat));
    } else {
        push_dec_u64(out, n / 10);
        out.push(48 + ((n % 10) as u8));
        assert(out@ =~= old(out)@ + dec_nat(n as nat));
    }
}

/// Appends the decimal rendering of `n`, with a sign when negative.
pub fn push_dec_i64(out: &mut Vec<u8>, n: i64)
    ensures
        final(out)@ == old(out)@ + dec_int(n as int),
{
    if n >= 0 {
        push_dec_u64(out, n as u64);
    } else {
        out.push(45);
        let mag: u64 = (-(n as i128)) as u64;
        assert(mag as nat == (-(n as int)) as nat);
        push_dec_u64(out, mag);
        assert(out@ =~= old(out)@ + dec_int(n as int));
    }
}

/// The ASCII byte of the hexadecimal digit `d % 16`, lower case letters.
pub open spec fn hex_byte(d: nat) -> u8 {
    if d % 16 < 10 {
        (48 + (d % 16)) as u8
    } else {
        (87 + (d % 16)) as u8
    }
}

/// The value of an ASCII hexadecimal digit, either case; `None` otherwise.
pub open spec fn hex_val(b: u8) -> Option<u8> {
    if 48 <= b <= 57 {
        Some((b - 48) as u8)
    } else if 97 <= b <= 102 {
        Some((b - 87) as u8)
    } else if 65 <= b <= 70 {
        Some((b - 55) as u8)
    } else {
        None
    }
}

/// Reading back the digit of a value below sixteen yields the value.
pub proof fn lemma_hex_roundtrip(d: nat)
    requires
        d < 16,
    ensures
        hex_val(hex_byte(d)) == Some(d as u8),
{
}

pub fn hex_digit(d: u8) -> (r: u8)
    requires
        d < 16,
    ensures
        r == hex_byte(d as nat),
{
    if d < 10 {
        48 + d
    } else {
        87 + d
    }
}

pub fn hex_value(b: u8) -> (r: Option<u8>)
    ensures
        r == hex_val(b),
{
    if 48 <= b && b <= 57 {
        Some(b - 48)
    } else if 97 <= b && b <= 102 {
        Some(b - 87)
    } else if 65 <= b && b <= 70 {
        Some(b - 55)
    } else {
        None
    }
}

/// ASCII lower casing of one byte: letters `A`..`Z` gain 32.
pub open spec fn lower_byte(b: u8) -> u8 {
    if 65 <= b <= 90 {
        (b + 32) as u8
    } else {
        b
    }
}

/// Case-insensitive equality of byte strings, ASCII letters only.
pub open spec fn eq_ignore_case(a: Seq<u8>, b: Seq<u8>) -> bool {
    a.map_values(|x: u8| lower_byte(x)) == b.map_values(|x: u8| lower_byte(x))
}

pub fn bytes_eq_ignore_case(a: &[u8], b: &[u8]) -> (r: bool)
    ensures
        r == eq_ignore_case(a@, b@),
{
    if a.len() != b.len() {
        assert(a@.map_values(|x: u8| lower_byte(x)).len() != b@.map_values(
            |x: u8| lower_byte(x),
        ).len());
        return false;
    }
    let n = a.len();
    let mut i: usize = 0;
    while i < n
        invariant
            n == a@.len() == b@.len(),
            0 <= i <= n,
            forall|j: int| 0 <= j < i ==> lower_byte(a@[j]) == lower_byte(b@[j]),
        decreases n - i,
    {
        let x = a[i];
        let y = b[i];
        let lx = if 65 <= x && x <= 90 { x + 32 } else { x };
        let ly = if 65 <= y && y <= 90 { y + 32 } else { y };
        if lx != ly {
            assert(lower_byte(a@[i as int]) != lower_byte(b@[i as int]));
            assert(a@.map_values(|x: u8| lower_byte(x))[i as int] != b@.map_values(
                |x: u8| lower_byte(x),
            )[i as int]);
            return false;
        }
        i += 1;
    }
    assert(a@.map_values(|x: u8| lower_byte(x)) =~= b@.map_values(|x: u8| lower_byte(x)));
    true
}

/// Equality of plain byte strings.
pub fn bytes_eq(a: &[u8], b: &[u8]) -> (r: bool)
    ensures
        r == (a@ == b@),
{
    if a.len() != b.len() {
        return false;
    }
    let n = a.len();
    let mut i: usize = 0;
    while i < n
        invariant
            n == a@.len() == b@.len(),
            0 <= i <= n,
            forall|j: int| 0 <= j < i ==> a@[j] == b@[j],
        decreases n - i,
    {
        if a[i] != b[i] {
            return false;
        }
        i += 1;
    }
    assert(a@ =~= b@);
    true
}

/// Appends a copy of `src` to `out`.
pub fn push_all(out: &mut Vec<u8>, src: &[u8])
    ensures
        final(out)@ == old(out)@ + src@,
{
    let n = src.len();
    let mut i: usize = 0;
    while i < n
        invariant
            n == src@.len(),
            0 <= i <= n,
            out@ == old(out)@ + src@.take(i as int),
        decreases n - i,
    {
        out.push(src[i]);
        assert(out@ =~= old(out)@ + src@.take(i as int + 1));
        i += 1;
    }
    assert(out@ =~= old(out)@ + src@);
}

/// A fresh copy of a byte slice.
pub fn copy_bytes(src: &[u8]) -> (r: Vec<u8>)
    ensures
        r@ == src@,
{
    let mut out: Vec<u8> = Vec::new();
    push_all(&mut out, src);
    out
}

} // verus!
