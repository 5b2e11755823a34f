//! Bignum values: their decimal text and rewriting them from decimal text.
use vstd::prelude::*;
use crate::marshal::model::{Kind, is_wrapper, kind_ok};
use crate::marshal::tree::{Tree, with_node};
use crate::text::{dec_chars, joined, trim_str, trimmed};
use vstd::utf8::encode_utf8;
use vstd::string::StringSliceAdditionalSpecFns;

verus! {

/// 256 to the power `k`.
pub open spec fn p256(k: nat) -> nat
    decreases k,
{
    if k == 0 {
        1
    } else {
        256 * p256((k - 1) as nat)
    }
}

/// 65536 to the power `k`.
pub open spec fn p16(k: nat) -> nat
    decreases k,
{
    if k == 0 {
        1
    } else {
        65536 * p16((k - 1) as nat)
    }
}

/// Value of the first `i` bytes, least significant first.
pub open spec fn bytes_prefix(b: Seq<u8>, i: int) -> nat
    decreases i,
{
    if i <= 0 {
        0
    } else {
        bytes_prefix(b, i - 1) + b[i - 1] as nat * p256((i - 1) as nat)
    }
}

/// Value of little-endian bytes.
pub open spec fn bytes_value(b: Seq<u8>) -> nat {
    bytes_prefix(b, b.len() as int)
}

/// Value of the first `i` 16-bit words, least significant first.
pub open spec fn words_prefix(w: Seq<u16>, i: int) -> nat
    decreases i,
{
    if i <= 0 {
        0
    } else {
        words_prefix(w, i - 1) + w[i - 1] as nat * p16((i - 1) as nat)
    }
}

/// Value of little-endian 16-bit words.
pub open spec fn words_value(w: Seq<u16>) -> nat {
    words_prefix(w, w.len() as int)
}

/// No zero word at the top (or no words at all).
pub open spec fn top_nonzero(w: Seq<u16>) -> bool {
    w.len() == 0 || w.last() != 0
}

/// The shortest word list of a value: one word at least, no zero word at the top
/// but for zero itself.
pub open spec fn canonical(w: Seq<u16>) -> bool {
    w.len() >= 1 && (w.len() > 1 ==> w.last() != 0)
}

/// An ASCII digit byte.
pub open spec fn is_digit_byte(c: u8) -> bool {
    0x30 <= c <= 0x39
}

/// Value of ASCII digit bytes read in base 10.
pub open spec fn digits_value_of(s: Seq<u8>) -> nat
    decreases s.len(),
{
    if s.len() == 0 {
        0
    } else {
        digits_value_of(s.drop_last()) * 10 + (s.last() - 0x30) as nat
    }
}

/// Sign (`true` for `-`) and value of UTF-8 text made of an optional `-`
/// followed by one or more ASCII digits.
pub open spec fn decimal_of(s: Seq<u8>) -> Option<(bool, nat)> {
    if all_digit_bytes(digits_part(s)) {
        Some((s.len() > 0 && s[0] == 0x2D, digits_value_of(digits_part(s))))
    } else {
        None
    }
}

/// The text after an optional leading `-`.
pub open spec fn digits_part(s: Seq<u8>) -> Seq<u8> {
    if s.len() > 0 && s[0] == 0x2D {
        s.drop_first()
    } else {
        s
    }
}

/// One or more ASCII digit bytes.
pub open spec fn all_digit_bytes(b: Seq<u8>) -> bool {
    b.len() > 0 && forall|k: int| 0 <= k < b.len() ==> is_digit_byte(#[trigger] b[k])
}

/// Decimal text of a Bignum: `-` before negative ones.
pub open spec fn bignum_text(sign: bool, w: Seq<u16>) -> Seq<char> {
    if sign {
        dec_chars(words_value(w))
    } else {
        seq!['-'] + dec_chars(words_value(w))
    }
}

proof fn lemma_words_prefix_agree(a: Seq<u16>, b: Seq<u16>, i: int)
    requires
        0 <= i <= a.len(),
        i <= b.len(),
        forall|k: int| 0 <= k < i ==> a[k] == b[k],
    ensures
        words_prefix(a, i) == words_prefix(b, i),
    decreases i,
{
    if i > 0 {
        lemma_words_prefix_agree(a, b, i - 1);
    }
}

proof fn lemma_p256_p16(k: nat)
    ensures
        p256(2 * k) == p16(k),
        p256(2 * k + 1) == 256 * p16(k),
    decreases k,
{
    if k > 0 {
        lemma_p256_p16((k - 1) as nat);
        assert(p256(2 * k) == 256 * p256((2 * k - 1) as nat));
        assert(p256((2 * k - 1) as nat) == 256 * p256((2 * k - 2) as nat));
        assert(2 * k - 2 == 2 * (k - 1));
    }
}

proof fn lemma_split(v: u64)
    ensures
        (v & 0xffff) + 65536 * (v >> 16) == v,
        v < 65536 ==> v & 0xffff == v && v >> 16 == 0,
{
    assert((v & 0xffff) + 65536 * (v >> 16) == v) by (bit_vector);
    assert(v < 65536 ==> v & 0xffff == v && v >> 16 == 0) by (bit_vector);
}

/// Multiplies the word list by 10 and adds `d`.
fn mul10_add(words: &mut Vec<u16>, d: u64)
    requires
        d <= 9,
        top_nonzero(old(words)@),
    ensures
        words_value(final(words)@) == 10 * words_value(old(words)@) + d,
        top_nonzero(final(words)@),
{
    let ghost w0 = words@;
    let n = words.len();
    let mut carry: u64 = d;
    assert(p16(0) == 1);
    let mut i: usize = 0;
    while i < n
        invariant
            n == words@.len() == w0.len(),
            i <= n,
            carry <= 10,
            forall|k: int| i <= k < n ==> words@[k] == w0[k],
            words_prefix(words@, i as int) + carry * p16(i as nat) == 10 * words_prefix(w0, i as int) + d,
            i > 0 && w0[i - 1] != 0 ==> words@[i - 1] != 0 || carry > 0,
        decreases n - i,
    {
        let ghost before = words@;
        let ghost c = carry;
        let old_w = words[i];
        assert(old_w == w0[i as int]);
        let v: u64 = (old_w as u64) * 10 + carry;
        proof {
            lemma_split(v);
            assert(v >> 16 <= 10) by (bit_vector)
                requires v <= 655360;
            assert(v >> 16 == 0 ==> v & 0xffff == v) by (bit_vector);
            assert(((v & 0xffff) as u16) as u64 == v & 0xffff) by (bit_vector);
        }
        words.set(i, (v & 0xffff) as u16);
        carry = v >> 16;
        proof {
            lemma_words_prefix_agree(words@, before, i as int);
            let p = p16(i as nat);
            let lo = (v & 0xffff) as int;
            let hi = carry as int;
            assert(words@[i as int] as int == lo);
            assert(words_prefix(words@, i + 1) == words_prefix(words@, i as int) + lo * p);
            assert(words_prefix(w0, i + 1) == words_prefix(w0, i as int) + (old_w as int) * p);
            assert(p16((i + 1) as nat) == 65536 * p);
            assert(lo * p + hi * (65536 * p) == v * p) by (nonlinear_arith)
                requires lo + 65536 * hi == v;
            assert(v * p == 10 * ((old_w as int) * p) + c * p) by (nonlinear_arith)
                requires v == (old_w as int) * 10 + c;
            assert(hi * p16((i + 1) as nat) == hi * (65536 * p));
        }
        i = i + 1;
    }
    if carry > 0 {
        let ghost before = words@;
        words.push(carry as u16);
        proof {
            lemma_words_prefix_agree(words@, before, n as int);
        }
    }
}

impl Tree {
    /// Decimal text of a Bignum node (`-` before negative ones); `None` for
    /// any other node.
    pub fn bignum_to_string(&self, idx: u32) -> (r: Option<String>)
        requires
            (idx as nat) < self@.nodes.len(),
        ensures
            match self@.nodes[idx as int] {
                Kind::Bignum { sign, words } => r matches Some(t) && t@ == bignum_text(sign, words@),
                _ => r is None,
            },
    {
        match self.kind(idx) {
            Kind::Bignum { sign, words } => {
                proof {
                    reveal_strlit("-");
                }
                let bytes = words_le_bytes(words);
                let digits = biguint_decimal(bytes.as_slice());
                if *sign {
                    Some(digits)
                } else {
                    Some(joined("-", digits.as_str()))
                }
            },
            _ => None,
        }
    }

    /// Rewrites a Bignum node from decimal text (surrounding white space
    /// ignored, an optional `-`, then ASCII digits), as the shortest word list
    /// of the value.  Refuses other text and other nodes, changing nothing.
    pub fn set_bignum_decimal(&mut self, idx: u32, s: &str) -> (r: bool)
        requires
            (idx as nat) < old(self)@.nodes.len(),
        ensures
            r == (old(self)@.nodes[idx as int] is Bignum && decimal_of(encode_utf8(trimmed(s@))) is Some),
            r ==> ({
                let (neg, v) = decimal_of(encode_utf8(trimmed(s@))).unwrap();
                &&& final(self)@ == with_node(old(self)@, idx, final(self)@.nodes[idx as int])
                &&& final(self)@.nodes[idx as int] matches Kind::Bignum { sign, words }
                &&& sign == !neg
                &&& words_value(words@) == v
                &&& canonical(words@)
            }),
            !r ==> final(self)@ == old(self)@,
            old(self)@.refs_ok() ==> final(self)@.refs_ok(),
            old(self)@.wf() ==> final(self)@.wf(),
    {
        let t = trim_str(s);
        let parsed = decimal_words(t.as_bytes());
        let (neg, words) = match parsed {
            Some(x) => x,
            None => {
                return false;
            },
        };
        let is_big = match self.kind(idx) {
            Kind::Bignum { .. } => true,
            _ => false,
        };
        if !is_big {
            return false;
        }
        let k = Kind::Bignum { sign: !neg, words };
        assert(kind_ok(k, self@.nodes.len(), self@.syms.len()) && !is_wrapper(k));
        self.replace_kind(idx, k);
        true
    }
}

/// Sign and shortest word list of decimal text given as its UTF-8 bytes
/// (see [`decimal_of`]).
fn decimal_words(b: &[u8]) -> (r: Option<(bool, Vec<u16>)>)
    ensures
        r is Some <==> decimal_of(b@) is Some,
        r matches Some(x) ==> x.0 == decimal_of(b@).unwrap().0 && words_value(x.1@) == decimal_of(b@).unwrap().1
            && canonical(x.1@),
{
    let neg = b.len() > 0 && b[0] == 0x2D;
    let start: usize = if neg { 1 } else { 0 };
    let ghost body = if neg { b@.drop_first() } else { b@ };
    if b.len() == start {
        return None;
    }
    let mut words: Vec<u16> = Vec::new();
    let mut i = start;
    while i < b.len()
        invariant
            start <= i <= b@.len(),
            neg == (b@.len() > 0 && b@[0] == 0x2D),
            start == (if neg { 1int } else { 0 }),
            body == (if neg { b@.drop_first() } else { b@ }),
            forall|k: int| 0 <= k < i - start ==> is_digit_byte(#[trigger] body[k]),
            words_value(words@) == digits_value_of(body.subrange(0, i - start)),
            top_nonzero(words@),
        decreases b@.len() - i,
    {
        let c = b[i];
        assert(c == body[i - start]);
        if c < 0x30 || c > 0x39 {
            proof {
                lemma_not_decimal(b@, i - start);
            }
            return None;
        }
        mul10_add(&mut words, (c - 0x30) as u64);
        proof {
            let sub = body.subrange(0, i + 1 - start);
            assert(sub.drop_last() =~= body.subrange(0, i - start));
            assert(sub.last() == c);
        }
        i = i + 1;
    }
    assert(body.subrange(0, body.len() as int) =~= body);
    if words.len() == 0 {
        words.push(0);
        assert(words_value(words@) == 0) by {
            assert(words_prefix(words@, 1) == words_prefix(words@, 0) + 0 * p16(0));
        }
    }
    Some((neg, words))
}

proof fn lemma_not_decimal(b: Seq<u8>, j: int)
    requires
        ({
            let body = if b.len() > 0 && b[0] == 0x2D { b.drop_first() } else { b };
            0 <= j < body.len() && !is_digit_byte(body[j])
        }),
    ensures
        decimal_of(b) is None,
{
    assert(!is_digit_byte(digits_part(b)[j]));
}

/// The words as little-endian bytes.
fn words_le_bytes(w: &Vec<u16>) -> (r: Vec<u8>)
    ensures
        bytes_value(r@) == words_value(w@),
{
    let mut out: Vec<u8> = Vec::new();
    let mut k: usize = 0;
    while k < w.len()
        invariant
            k <= w@.len(),
            out@.len() == 2 * k,
            bytes_prefix(out@, 2 * k as int) == words_prefix(w@, k as int),
        decreases w@.len() - k,
    {
        let x = w[k];
        let lo = (x & 0xff) as u8;
        let hi = (x >> 8) as u8;
        let ghost before = out@;
        out.push(lo);
        out.push(hi);
        proof {
            assert(lo as int + 256 * (hi as int) == x) by (bit_vector)
                requires lo == (x & 0xff) as u8, hi == (x >> 8) as u8;
            lemma_p256_p16(k as nat);
            lemma_bytes_prefix_agree(out@, before, 2 * k as int);
            let p = p16(k as nat);
            assert(bytes_prefix(out@, 2 * k + 1) == bytes_prefix(out@, 2 * k as int) + (lo as int) * p256(2 * k as nat));
            assert(bytes_prefix(out@, 2 * k + 2) == bytes_prefix(out@, 2 * k + 1) + (hi as int) * p256((2 * k + 1) as nat));
            assert(words_prefix(w@, k + 1) == words_prefix(w@, k as int) + (x as int) * p);
            assert(lo as int * p + hi as int * (256 * p) == x as int * p) by (nonlinear_arith)
                requires lo as int + 256 * (hi as int) == x as int;
        }
        k = k + 1;
    }
    out
}

proof fn lemma_bytes_prefix_agree(a: Seq<u8>, b: Seq<u8>, i: int)
    requires
        0 <= i <= a.len(),
        i <= b.len(),
        forall|k: int| 0 <= k < i ==> a[k] == b[k],
    ensures
        bytes_prefix(a, i) == bytes_prefix(b, i),
    decreases i,
{
    if i > 0 {
        lemma_bytes_prefix_agree(a, b, i - 1);
    }
}

/// Calls `num_bigint::BigUint::from_bytes_le` and writes the number with its
/// `Display` impl.  The contract claims the decimal digits of the little-endian
/// value of the bytes ("0" for zero), as the crate documents.
#[verifier::external_body]
fn biguint_decimal(bytes: &[u8]) -> (r: String)
    ensures
        r@ == dec_chars(bytes_value(bytes@)),
{
    num_bigint::BigUint::from_bytes_le(bytes).to_string()
}

/// ASCII bytes read as characters.
pub open spec fn ascii_text(b: Seq<u8>) -> Seq<char> {
    Seq::new(b.len(), |i: int| (b[i] as u32) as char)
}

/// Decimal text in its shortest form: an optional `-`, then digits without a
/// leading zero (but for the single digit `0`).
pub open spec fn shortest_decimal(s: Seq<u8>) -> bool {
    decimal_of(s) is Some && (digits_part(s).len() == 1 || digits_part(s)[0] != 0x30)
}

proof fn lemma_digits_text(d: Seq<u8>)
    requires
        all_digit_bytes(d),
        d.len() == 1 || d[0] != 0x30,
    ensures
        dec_chars(digits_value_of(d)) == ascii_text(d),
        d.len() > 1 ==> digits_value_of(d) >= 10,
        d[0] != 0x30 ==> digits_value_of(d) >= 1,
    decreases d.len(),
{
    let n = digits_value_of(d);
    let last = d.last();
    if d.len() == 1 {
        assert(d.drop_last().len() == 0);
        assert(digits_value_of(d.drop_last()) == 0);
        assert(is_digit_byte(d[0]));
        assert(n == (last - 0x30) as nat);
        assert(dec_chars(n) =~= ascii_text(d));
    } else {
        let p = d.drop_last();
        assert(all_digit_bytes(p)) by {
            assert forall|k: int| 0 <= k < p.len() implies is_digit_byte(#[trigger] p[k]) by {
                assert(p[k] == d[k]);
            }
        }
        assert(p[0] == d[0]);
        lemma_digits_text(p);
        let v = digits_value_of(p);
        assert(is_digit_byte(d[d.len() - 1]));
        assert(n == v * 10 + (last - 0x30) as nat);
        assert(n / 10 == v && n % 10 == (last - 0x30) as nat);
        assert(n >= 10);
        assert(dec_chars(n) == dec_chars(n / 10) + seq![(((n % 10) + 48) as u32) as char]);
        assert(ascii_text(d) =~= ascii_text(p) + seq![(last as u32) as char]);
    }
}

/// A Bignum written from decimal text in its shortest form reads back as that
/// text (the sign taken from it, the words holding its value).
pub proof fn law_bignum_decimal_roundtrip(s: Seq<u8>, words: Seq<u16>)
    requires
        shortest_decimal(s),
        words_value(words) == decimal_of(s).unwrap().1,
    ensures
        bignum_text(!decimal_of(s).unwrap().0, words) == ascii_text(s),
{
    let d = digits_part(s);
    lemma_digits_text(d);
    if s.len() > 0 && s[0] == 0x2D {
        assert(ascii_text(s) =~= seq!['-'] + ascii_text(d));
    } else {
        assert(ascii_text(s) =~= ascii_text(d));
    }
}

} // verus!
