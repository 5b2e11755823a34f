//! Pieces of RPG Maker 2000/2003's LCF container format (`.lsd` saves,
//! `.ldb` databases): its variable-length integers, the field types of the
//! save chunks, the name and description texts of database arrays, and the
//! display of texts stored in a regional encoding.
use vstd::prelude::*;
use crate::text::{lossy_utf8, utf8_lossy, sjis_decode, sjis_decoded, gbk_decode, gbk_decoded, has_replacement, utf8_exact};

verus! {

/// Header text of a save.
pub const HEADER_LSD: [u8; 11] = [76, 99, 102, 83, 97, 118, 101, 68, 97, 116, 97];
/// Header text of a database.
pub const HEADER_LDB: [u8; 11] = [76, 99, 102, 68, 97, 116, 97, 66, 97, 115, 101];

/// Reasons an LCF stream is refused.
#[derive(Debug, Clone, PartialEq, Eq)]
pub enum Error {
    UnexpectedEof,
    BadFormat(String),
    BadHeader,
}

/// 7-bit groups of `v`, most significant first (a single group for values below 128).
pub open spec fn leb_groups(v: nat) -> Seq<u8>
    decreases v,
{
    if v < 128 {
        seq![v as u8]
    } else {
        leb_groups(v / 128) + seq![(v % 128) as u8]
    }
}

/// The variable-length encoding of `v`: its 7-bit groups, most significant
/// first, each but the last with bit 0x80 set.
pub open spec fn leb_bytes(v: nat) -> Seq<u8> {
    let g = leb_groups(v);
    Seq::new(g.len(), |i: int| if i < g.len() - 1 { (g[i] + 128) as u8 } else { g[i] })
}

/// Reading a variable-length integer at `p` with `acc` read so far: the value
/// (shifted in 64 bits, high bits dropped) and the position after its last byte,
/// or `None` when the bytes end first.
pub open spec fn leb_read(b: Seq<u8>, p: int, acc: u64) -> Option<(u64, int)>
    decreases b.len() - p,
{
    if p < 0 || p >= b.len() {
        None
    } else {
        let t = b[p];
        let v = ((acc << 7u64) | ((t & 0x7f) as u64)) as u64;
        if t & 0x80 == 0 {
            Some((v, p + 1))
        } else {
            leb_read(b, p + 1, v)
        }
    }
}

/// Reading a variable-length integer at `p`.
pub open spec fn leb_at(b: Seq<u8>, p: int) -> Option<(u64, int)> {
    leb_read(b, p, 0)
}

/// 128 to the power `k`.
pub open spec fn pow128(k: nat) -> nat
    decreases k,
{
    if k == 0 {
        1
    } else {
        pow128((k - 1) as nat) * 128
    }
}

/// The groups of `v` are its base-128 digits, most significant first, and `v`
/// is below 128 to the power of their count.
proof fn lemma_groups_digits(v: nat)
    ensures
        leb_groups(v).len() >= 1,
        v < pow128(leb_groups(v).len()),
        forall|i: int| 0 <= i < leb_groups(v).len() ==> #[trigger] leb_groups(v)[i] == (v / pow128(
            (leb_groups(v).len() - 1 - i) as nat,
        )) % 128,
    decreases v,
{
    assert(pow128(0) == 1);
    assert(pow128(1) == 128);
    if v >= 128 {
        let w = v / 128;
        lemma_groups_digits(w);
        let n1 = leb_groups(w).len();
        let g = leb_groups(v);
        assert(g == leb_groups(w) + seq![(v % 128) as u8]);
        assert(g.len() == n1 + 1);
        vstd::arithmetic::div_mod::lemma_fundamental_div_mod(v as int, 128);
        assert forall|i: int| 0 <= i < g.len() implies #[trigger] g[i] == (v / pow128((g.len() - 1 - i) as nat)) % 128 by {
            if i < n1 {
                let k = (n1 - 1 - i) as nat;
                assert(g[i] == leb_groups(w)[i]);
                assert(leb_groups(w)[i] == (w / pow128(k)) % 128);
                lemma_pow128_pos(k);
                vstd::arithmetic::div_mod::lemma_div_denominator(v as int, 128, pow128(k) as int);
                vstd::arithmetic::mul::lemma_mul_is_commutative(128, pow128(k) as int);
                assert(pow128((k + 1) as nat) == pow128(k) * 128);
                assert((g.len() - 1 - i) as nat == k + 1);
                assert(w / pow128(k) == v / pow128((k + 1) as nat));
            } else {
                assert(i == n1);
                assert((g.len() - 1 - i) as nat == 0);
                assert(v / pow128(0) == v);
            }
        }
        lemma_pow128_pos(n1);
        assert(v < 128 * (w + 1));
        assert((w + 1) <= pow128(n1));
        vstd::arithmetic::mul::lemma_mul_inequality((w + 1) as int, pow128(n1) as int, 128);
        assert(pow128(n1 + 1) == pow128(n1) * 128);
    } else {
        assert(leb_groups(v) == seq![v as u8]);
        assert(v / pow128(0) == v);
    }
}

proof fn lemma_pow128_pos(k: nat)
    ensures
        pow128(k) >= 1,
    decreases k,
{
    if k > 0 {
        lemma_pow128_pos((k - 1) as nat);
    }
}

proof fn lemma_shift_in(acc: u64, g: u8)
    requires
        g < 128,
        acc * 128 + g < 0x1_0000_0000_0000_0000,
    ensures
        ((acc << 7u64) | ((g & 0x7f) as u64)) as u64 == acc * 128 + g,
        (((g + 128) as u8) & 0x7f) == g,
        (((g + 128) as u8) & 0x80) != 0,
        (g & 0x80) == 0,
        (g & 0x7f) == g,
{
    assert(((acc << 7u64) | ((g & 0x7f) as u64)) as u64 == acc * 128 + g) by (bit_vector)
        requires
            g < 128,
            acc * 128 + g < 0x1_0000_0000_0000_0000,
    ;
    assert((((g + 128) as u8) & 0x7f) == g && (((g + 128) as u8) & 0x80) != 0 && (g & 0x80) == 0 && (g & 0x7f) == g) by (bit_vector)
        requires
            g < 128,
    ;
}

proof fn lemma_read_from(v: u64, rest: Seq<u8>, i: int)
    requires
        0 <= i < leb_groups(v as nat).len(),
    ensures
        leb_read(
            leb_bytes(v as nat) + rest,
            i,
            ((v as nat) / pow128((leb_groups(v as nat).len() - i) as nat)) as u64,
        ) == Some((v, leb_groups(v as nat).len() as int)),
    decreases leb_groups(v as nat).len() - i,
{
    let g = leb_groups(v as nat);
    let n = g.len();
    let b = leb_bytes(v as nat) + rest;
    lemma_groups_digits(v as nat);
    let k = (n - 1 - i) as nat;
    let x = (v as nat) / pow128(k);
    let acc = (v as nat) / pow128((k + 1) as nat);
    lemma_pow128_pos(k);
    vstd::arithmetic::div_mod::lemma_div_denominator(v as int, pow128(k) as int, 128);
    assert(pow128((k + 1) as nat) == pow128(k) * 128);
    assert(acc == x / 128);
    vstd::arithmetic::div_mod::lemma_fundamental_div_mod(x as int, 128);
    vstd::arithmetic::div_mod::lemma_div_is_ordered_by_denominator(v as int, 1, pow128(k) as int);
    assert(x <= v);
    assert(g[i] == x % 128);
    assert(acc * 128 + g[i] == x);
    lemma_shift_in(acc as u64, g[i]);
    assert((n - i) as nat == k + 1);
    let a64 = acc as u64;
    assert(((v as nat) / pow128((n - i) as nat)) as u64 == a64);
    if i == n - 1 {
        assert(b[i] == g[i]);
        assert(x == v) by {
            assert(pow128(0) == 1);
        }
        assert(((a64 << 7u64) | ((b[i] & 0x7f) as u64)) as u64 == v);
        assert(b[i] & 0x80 == 0);
    } else {
        assert(b[i] == (g[i] + 128) as u8);
        assert(((a64 << 7u64) | ((b[i] & 0x7f) as u64)) as u64 == x as u64);
        assert(b[i] & 0x80 != 0);
        lemma_read_from(v, rest, i + 1);
        assert((n - (i + 1)) as nat == k);
    }
}

/// Reading back the encoding of any 64-bit value gives the value and stops right
/// after the encoding, whatever follows it.
pub proof fn lemma_leb_roundtrip(v: u64, rest: Seq<u8>)
    ensures
        leb_at(leb_bytes(v as nat) + rest, 0) == Some((v, leb_bytes(v as nat).len() as int)),
{
    lemma_groups_digits(v as nat);
    let n = leb_groups(v as nat).len();
    vstd::arithmetic::div_mod::lemma_small_div_converse(v as int, pow128(n) as int);
    lemma_pow128_pos(n);
    assert((v as nat) / pow128(n) == 0) by {
        vstd::arithmetic::div_mod::lemma_basic_div(v as int, pow128(n) as int);
    }
    lemma_read_from(v, rest, 0);
}


pub proof fn lemma_leb_advances(b: Seq<u8>, p: int, acc: u64)
    ensures
        leb_read(b, p, acc) matches Some((_, q)) ==> p < q <= b.len() && 0 <= p,
    decreases b.len() - p,
{
    if 0 <= p < b.len() {
        let t = b[p];
        let v = ((acc << 7u64) | ((t & 0x7f) as u64)) as u64;
        if t & 0x80 != 0 {
            lemma_leb_advances(b, p + 1, v);
        }
    }
}

/// Encodes `v` as a variable-length integer.
pub fn encode_leb(v: u64) -> (r: Vec<u8>)
    ensures
        r@ == leb_bytes(v as nat),
{
    let mut groups: Vec<u8> = Vec::new();
    if v == 0 {
        groups.push(0);
    }
    let mut x = v;
    while x > 0
        invariant
            v == 0 ==> x == 0 && groups@ == seq![0u8],
            x > 0 ==> leb_groups(v as nat) == leb_groups(x as nat) + groups@.reverse(),
            x == 0 ==> leb_groups(v as nat) == groups@.reverse(),
            forall|j: int| 0 <= j < groups@.len() ==> #[trigger] groups@[j] < 128,
        decreases x,
    {
        let g = (x & 0x7f) as u8;
        proof {
            assert((x & 0x7f) as u8 == x % 128 && x >> 7u64 == x / 128) by (bit_vector);
        }
        let ghost before = groups@;
        groups.push(g);
        x = x >> 7;
        proof {
            assert(groups@.reverse() =~= seq![g] + before.reverse());
        }
    }
    let n = groups.len();
    let mut out: Vec<u8> = Vec::new();
    let mut i: usize = n;
    while i > 0
        invariant
            n == groups@.len(),
            n >= 1,
            leb_groups(v as nat) == groups@.reverse(),
            forall|j: int| 0 <= j < groups@.len() ==> #[trigger] groups@[j] < 128,
            i <= n,
            out@.len() == n - i,
            forall|k: int| 0 <= k < out@.len() ==> #[trigger] out@[k] == leb_bytes(v as nat)[k],
        decreases i,
    {
        i = i - 1;
        let g = groups[i];
        let b = if i > 0 { g | 0x80 } else { g };
        proof {
            assert(g < 128 ==> (g | 0x80) == (g + 128) as u8) by (bit_vector);
            assert(groups@.reverse()[(n - 1 - i) as int] == groups@[i as int]);
        }
        out.push(b);
    }
    assert(out@ =~= leb_bytes(v as nat));
    out
}

/// Reads a variable-length integer at `*pos` and moves past it.
pub fn read_leb(b: &[u8], pos: &mut usize) -> (r: Result<u64, Error>)
    ensures
        match leb_at(b@, *old(pos) as int) {
            Some((v, q)) => r == Ok::<u64, Error>(v) && *final(pos) == q,
            None => r == Err::<u64, Error>(Error::UnexpectedEof),
        },
{
    let mut v: u64 = 0;
    loop
        invariant
            leb_at(b@, *old(pos) as int) == leb_read(b@, *pos as int, v),
        decreases b@.len() - *pos,
    {
        if *pos >= b.len() {
            return Err(Error::UnexpectedEof);
        }
        let t = b[*pos];
        *pos = *pos + 1;
        v = (v << 7) | ((t & 0x7f) as u64);
        if t & 0x80 == 0 {
            return Ok(v);
        }
    }
}

/// Bytes of an optional byte vector.
pub open spec fn opt_bytes(o: Option<Vec<u8>>) -> Option<Seq<u8>> {
    match o {
        Some(v) => Some(v@),
        None => None,
    }
}

/// The entries as (id, name, description) with byte sequences.
pub open spec fn texts_view(v: Seq<(u32, Option<Vec<u8>>, Option<Vec<u8>>)>) -> Seq<(u32, Option<Seq<u8>>, Option<Seq<u8>>)> {
    v.map_values(|e: (u32, Option<Vec<u8>>, Option<Vec<u8>>)| (e.0, opt_bytes(e.1), opt_bytes(e.2)))
}

/// Reading one entry's field stream at `p` (up to the field id 0) with the name
/// (field 1) and description (field 2) found so far; the first of each is kept.
pub open spec fn entry_fields(b: Seq<u8>, p: int, name: Option<Seq<u8>>, desc: Option<Seq<u8>>) -> Option<(Option<Seq<u8>>, Option<Seq<u8>>, int)>
    decreases b.len() - p,
{
    match leb_at(b, p) {
        None => None,
        Some((fid, p1)) => {
            proof {
                lemma_leb_advances(b, p, 0);
            }
            if fid as u32 == 0 {
                Some((name, desc, p1))
            } else {
                match leb_at(b, p1) {
                    None => None,
                    Some((len, p2)) => {
                        proof {
                            lemma_leb_advances(b, p1, 0);
                        }
                        let l = (len as usize) as int;
                        if p2 + l > b.len() {
                            None
                        } else {
                            let val = b.subrange(p2, p2 + l);
                            let name2 = if fid as u32 == 1 && name is None { Some(val) } else { name };
                            let desc2 = if fid as u32 == 2 && desc is None { Some(val) } else { desc };
                            entry_fields(b, p2 + l, name2, desc2)
                        }
                    },
                }
            }
        },
    }
}

/// Reading `k` more entries at `p` after those in `acc`.
pub open spec fn entries_from(b: Seq<u8>, p: int, k: nat, acc: Seq<(u32, Option<Seq<u8>>, Option<Seq<u8>>)>) -> Option<Seq<(u32, Option<Seq<u8>>, Option<Seq<u8>>)>>
    decreases k,
{
    if k == 0 {
        Some(acc)
    } else {
        match leb_at(b, p) {
            None => None,
            Some((id, p1)) => match entry_fields(b, p1, None, None) {
                None => None,
                Some((n, d, p2)) => entries_from(b, p2, (k - 1) as nat, acc.push((id as u32, n, d))),
            },
        }
    }
}

/// The entries of a database array payload: a count, then per entry its id and
/// field stream; `None` when the bytes end too soon.
pub open spec fn ldb_texts(b: Seq<u8>) -> Option<Seq<(u32, Option<Seq<u8>>, Option<Seq<u8>>)>> {
    match leb_at(b, 0) {
        Some((count, p)) => entries_from(b, p, (count as usize) as nat, Seq::empty()),
        None => None,
    }
}

/// Reads one entry's field stream, keeping the first name and description.
fn read_entry_fields(payload: &[u8], pos: &mut usize) -> (r: Result<(Option<Vec<u8>>, Option<Vec<u8>>), Error>)
    ensures
        match entry_fields(payload@, *old(pos) as int, None, None) {
            Some((n, d, q)) => r matches Ok((rn, rd)) && opt_bytes(rn) == n && opt_bytes(rd) == d && *final(pos) == q,
            None => r == Err::<(Option<Vec<u8>>, Option<Vec<u8>>), Error>(Error::UnexpectedEof),
        },
{
    let mut name: Option<Vec<u8>> = None;
    let mut desc: Option<Vec<u8>> = None;
    loop
        invariant
            entry_fields(payload@, *old(pos) as int, None, None) == entry_fields(payload@, *pos as int, opt_bytes(name), opt_bytes(desc)),
            *pos <= payload@.len() || entry_fields(payload@, *pos as int, opt_bytes(name), opt_bytes(desc)) is None,
        decreases payload@.len() - *pos,
    {
        let ghost p0 = *pos as int;
        proof {
            lemma_leb_advances(payload@, p0, 0);
        }
        let fid = read_leb(payload, pos)? as u32;
        if fid == 0 {
            return Ok((name, desc));
        }
        let ghost p1 = *pos as int;
        proof {
            lemma_leb_advances(payload@, p1, 0);
        }
        let len = read_leb(payload, pos)? as usize;
        if len > payload.len() - *pos {
            return Err(Error::UnexpectedEof);
        }
        let val = crate::util::copy_range(payload, *pos, *pos + len);
        *pos = *pos + len;
        if fid == 1 && name.is_none() {
            name = Some(val);
        } else if fid == 2 && desc.is_none() {
            desc = Some(val);
        }
    }
}

/// The id, name (field 1) and description (field 2) of each entry of an LDB
/// array payload (count, then per entry its id and field stream ending in 0).
pub fn ldb_entry_texts(payload: &[u8]) -> (r: Result<Vec<(u32, Option<Vec<u8>>, Option<Vec<u8>>)>, Error>)
    ensures
        match ldb_texts(payload@) {
            Some(t) => r matches Ok(v) && texts_view(v@) == t,
            None => r == Err::<Vec<(u32, Option<Vec<u8>>, Option<Vec<u8>>)>, Error>(Error::UnexpectedEof),
        },
{
    let mut pos: usize = 0;
    let count = read_leb(payload, &mut pos)? as usize;
    let mut out: Vec<(u32, Option<Vec<u8>>, Option<Vec<u8>>)> = Vec::new();
    assert(texts_view(out@) =~= Seq::empty());
    let mut i: usize = 0;
    while i < count
        invariant
            i <= count,
            ldb_texts(payload@) == entries_from(payload@, pos as int, (count - i) as nat, texts_view(out@)),
        decreases count - i,
    {
        let id = read_leb(payload, &mut pos)? as u32;
        let (name, desc) = read_entry_fields(payload, &mut pos)?;
        let ghost before = out@;
        out.push((id, name, desc));
        proof {
            assert(texts_view(out@) =~= texts_view(before).push((id, opt_bytes(name), opt_bytes(desc))));
        }
        i = i + 1;
    }
    Ok(out)
}


/// All bytes are ASCII.
pub open spec fn all_ascii(b: Seq<u8>) -> bool {
    forall|i: int| 0 <= i < b.len() ==> #[trigger] b[i] < 128
}

/// Display text of a string stored in a regional encoding: ASCII as it is, else
/// the first of GBK and Shift-JIS that decodes without replacement characters,
/// else exact UTF-8, else the GBK reading.
pub open spec fn text_of(b: Seq<u8>) -> Seq<char> {
    if all_ascii(b) {
        utf8_lossy(b)
    } else if !gbk_decoded(b).contains('\u{FFFD}') {
        gbk_decoded(b)
    } else if !sjis_decoded(b).contains('\u{FFFD}') {
        sjis_decoded(b)
    } else if vstd::utf8::valid_utf8(b) {
        vstd::utf8::decode_utf8(b)
    } else {
        gbk_decoded(b)
    }
}

pub(crate) fn is_ascii_bytes(b: &[u8]) -> (r: bool)
    ensures
        r == all_ascii(b@),
{
    let mut i: usize = 0;
    while i < b.len()
        invariant
            i <= b@.len(),
            forall|k: int| 0 <= k < i ==> #[trigger] b@[k] < 128,
        decreases b@.len() - i,
    {
        if b[i] >= 128 {
            return false;
        }
        i = i + 1;
    }
    true
}

/// Decodes a string of a 2000/2003 game for display.
pub fn decode_text(bytes: &[u8]) -> (r: String)
    ensures
        r@ == text_of(bytes@),
{
    if is_ascii_bytes(bytes) {
        return lossy_utf8(bytes);
    }
    let gbk = gbk_decode(bytes);
    if !has_replacement(gbk.as_str()) {
        return gbk;
    }
    let sjis = sjis_decode(bytes);
    if !has_replacement(sjis.as_str()) {
        return sjis;
    }
    if let Some(s) = utf8_exact(bytes) {
        return s;
    }
    gbk
}

} // verus!
