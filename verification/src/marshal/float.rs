//! The text of a Marshal float: which number its bytes spell, read the way
//! `strtod` reads them (the longest numeric prefix).
use vstd::prelude::*;
use crate::marshal::bignum::is_digit_byte;

verus! {

/// What the stored text of a float spells.
#[derive(Debug, Clone, PartialEq, Eq)]
pub enum FloatText {
    Nan,
    Inf,
    NegInf,
    /// The numeric prefix: an optional sign, digits with an optional fraction,
    /// and an exponent when one with digits follows.
    Number(Vec<u8>),
    /// No digits where a number should start.
    Invalid,
}

/// End of the run of ASCII digits from `i`.
pub open spec fn digits_end(b: Seq<u8>, i: int) -> int
    decreases b.len() - i,
{
    if 0 <= i < b.len() && is_digit_byte(b[i]) {
        digits_end(b, i + 1)
    } else {
        i
    }
}

/// The byte at `i` is one of `x` and `y`.
pub open spec fn byte_is(b: Seq<u8>, i: int, x: u8, y: u8) -> bool {
    0 <= i < b.len() && (b[i] == x || b[i] == y)
}

/// The longest prefix of `b` that reads as a decimal number, or `None` when it
/// has no digit before its exponent.
pub open spec fn number_prefix(b: Seq<u8>) -> Option<Seq<u8>> {
    let s = if byte_is(b, 0, 0x2D, 0x2B) { 1int } else { 0 };
    let e1 = digits_end(b, s);
    let e2 = if byte_is(b, e1, 0x2E, 0x2E) { digits_end(b, e1 + 1) } else { e1 };
    if e2 == s || (e2 == s + 1 && b[s] == 0x2E) {
        None
    } else if byte_is(b, e2, 0x65, 0x45) {
        let e3 = if byte_is(b, e2 + 1, 0x2D, 0x2B) { e2 + 2 } else { e2 + 1 };
        let d = digits_end(b, e3);
        if d > e3 { Some(b.subrange(0, d)) } else { Some(b.subrange(0, e2)) }
    } else {
        Some(b.subrange(0, e2))
    }
}

/// What the stored text spells.
pub open spec fn float_text_of(b: Seq<u8>) -> (FloatText, Option<Seq<u8>>) {
    if b == seq![0x6Eu8, 0x61, 0x6E] {
        (FloatText::Nan, None)
    } else if b == seq![0x69u8, 0x6E, 0x66] {
        (FloatText::Inf, None)
    } else if b == seq![0x2Du8, 0x69, 0x6E, 0x66] {
        (FloatText::NegInf, None)
    } else {
        match number_prefix(b) {
            Some(p) => (FloatText::Invalid, Some(p)),
            None => (FloatText::Invalid, None),
        }
    }
}

fn skip_digits(b: &[u8], i: usize) -> (r: usize)
    requires
        i <= b@.len(),
    ensures
        r == digits_end(b@, i as int),
        i <= r <= b@.len(),
{
    let mut j = i;
    while j < b.len() && b[j] >= 0x30 && b[j] <= 0x39
        invariant
            i <= j <= b@.len(),
            digits_end(b@, j as int) == digits_end(b@, i as int),
        decreases b@.len() - j,
    {
        j = j + 1;
    }
    j
}

fn is_byte(b: &[u8], i: usize, x: u8, y: u8) -> (r: bool)
    ensures
        r == byte_is(b@, i as int, x, y),
{
    i < b.len() && (b[i] == x || b[i] == y)
}

/// Reads the stored text of a float: `nan`, `inf`, `-inf`, or the longest
/// numeric prefix (see [`number_prefix`]).
pub fn float_text(raw: &[u8]) -> (r: FloatText)
    ensures
        match float_text_of(raw@) {
            (FloatText::Invalid, Some(p)) => r matches FloatText::Number(v) && v@ == p,
            (k, _) => r == k,
        },
{
    let nan: [u8; 3] = [0x6E, 0x61, 0x6E];
    let inf: [u8; 3] = [0x69, 0x6E, 0x66];
    let ninf: [u8; 4] = [0x2D, 0x69, 0x6E, 0x66];
    assert(nan@ =~= seq![0x6Eu8, 0x61, 0x6E]);
    assert(inf@ =~= seq![0x69u8, 0x6E, 0x66]);
    assert(ninf@ =~= seq![0x2Du8, 0x69, 0x6E, 0x66]);
    if crate::util::bytes_eq(raw, &nan) {
        return FloatText::Nan;
    }
    if crate::util::bytes_eq(raw, &inf) {
        return FloatText::Inf;
    }
    if crate::util::bytes_eq(raw, &ninf) {
        return FloatText::NegInf;
    }
    let n = raw.len();
    let s: usize = if is_byte(raw, 0, 0x2D, 0x2B) { 1 } else { 0 };
    let e1 = skip_digits(raw, s);
    let e2 = if is_byte(raw, e1, 0x2E, 0x2E) { skip_digits(raw, e1 + 1) } else { e1 };
    if e2 == s || (e2 == s + 1 && raw[s] == 0x2E) {
        return FloatText::Invalid;
    }
    if is_byte(raw, e2, 0x65, 0x45) {
        let e3 = if is_byte(raw, e2 + 1, 0x2D, 0x2B) { e2 + 2 } else { e2 + 1 };
        let d = skip_digits(raw, e3);
        if d > e3 {
            return FloatText::Number(crate::util::copy_range(raw, 0, d));
        }
    }
    FloatText::Number(crate::util::copy_range(raw, 0, e2))
}

} // verus!
