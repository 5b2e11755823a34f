//! Parsing and writing Wolf RPG saves.
//!
//! A plain save is a 0x14-byte header, the start byte 0x19, the game name
//! (a string with a 2-byte prefix), a 16-bit file version, seven data
//! segments whose layout depends on the version, and the end byte 0x19.
//! Every parsed segment is a list of named nodes whose bytes, written in
//! order, are exactly the bytes they were read from.
use vstd::prelude::*;
use crate::wolf::node::{Node, fields_bytes, nodes_bytes, le16, le32, le64, str_bytes, node_bytes, put_u16, put_str, write_fields};
use crate::wolf::crypt::{crypt, checksum_of, decrypt_bytes, encrypt_bytes, fix_checksum, START_OFFSET};
use crate::text::{name, numbered, fmt_num, fmt_hex, dec_chars};
use crate::util::le_at;

verus! {

/// Reading position in a byte buffer.
pub(crate) struct Cursor<'a> {
    pub(crate) data: &'a [u8],
    pub(crate) off: usize,
}

/// The cursor moved forward over the same buffer and stays inside it.
pub(crate) open spec fn moved(c0: Cursor, c1: Cursor) -> bool {
    &&& c1.data@ == c0.data@
    &&& c0.off <= c1.off <= c1.data@.len()
}

/// `c1` is `c0` moved over `n` more bytes.
pub(crate) open spec fn moved_by(c0: Cursor, c1: Cursor, n: int) -> bool {
    &&& moved(c0, c1)
    &&& c1.off == c0.off + n
}

/// The bytes between two cursor positions.
pub(crate) open spec fn span(c0: Cursor, c1: Cursor) -> Seq<u8> {
    c0.data@.subrange(c0.off as int, c1.off as int)
}

/// The string at `p` with a `w`-byte length prefix (1, 2 or 4): its bytes and
/// where it ends, when prefix and bytes are all there.
pub open spec fn str_at_w(d: Seq<u8>, p: int, w: u8) -> Option<(Seq<u8>, int)> {
    if !(w == 1 || w == 2 || w == 4) || p < 0 || p + w > d.len() {
        None
    } else {
        let n = le_at(d, p, w as nat);
        if p + w + n > d.len() {
            None
        } else {
            Some((d.subrange(p + w, p + w + n), p + w + n))
        }
    }
}

/// Where `k` such strings read one after another from `p` end.
pub open spec fn strs_end(d: Seq<u8>, p: int, k: nat, w: u8) -> Option<int>
    decreases k,
{
    if k == 0 {
        Some(p)
    } else {
        match str_at_w(d, p, w) {
            Some(x) => strs_end(d, x.1, (k - 1) as nat, w),
            None => None,
        }
    }
}

/// The 32-bit little-endian number at `p`.
pub open spec fn u32_val(d: Seq<u8>, p: int) -> u32 {
    le_at(d, p, 4) as u32
}

/// `new` is `old` with one more named node, named `nm`.
pub open spec fn one_more(old: Seq<(String, Node)>, new: Seq<(String, Node)>, nm: String) -> bool {
    &&& new.len() == old.len() + 1
    &&& new.drop_last() == old
    &&& new.last().0 == nm
}

/// The number node of width `w` (1, 2, 4, else 8 bytes) read at `p`.
pub open spec fn num_node(d: Seq<u8>, p: int, w: int) -> Node {
    if w == 1 {
        Node::U8(d[p])
    } else if w == 2 {
        Node::U16(le_at(d, p, 2) as u16)
    } else if w == 4 {
        Node::U32(le_at(d, p, 4) as u32)
    } else {
        Node::U64(le_at(d, p, 8) as u64)
    }
}

/// A list of the `n` numbers of width `w` stored one after another from `p`.
pub open spec fn num_list(x: Node, d: Seq<u8>, p: int, n: nat, w: int) -> bool {
    x matches Node::List(v) && v@.len() == n && forall|k: int| 0 <= k < n ==> #[trigger] v@[k] == num_node(d, p + w * k, w)
}

/// How many names `first` to `last` are.
pub open spec fn run_len(first: int, last: int) -> nat {
    if first <= last { (last - first + 1) as nat } else { 0 }
}

/// `new` is `old` followed by the fields `prefix` + `first`, `first + 1`, ...: the
/// `cnt` numbers of width `w` stored one after another from `p`.
pub open spec fn num_run(old: Seq<(String, Node)>, new: Seq<(String, Node)>, prefix: Seq<char>, first: u32, cnt: nat, d: Seq<u8>, p: int, w: int) -> bool {
    &&& new.len() == old.len() + cnt
    &&& new.subrange(0, old.len() as int) == old
    &&& forall|k: int| 0 <= k < cnt ==> (#[trigger] new[old.len() + k]).0@ == prefix + dec_chars((first + k) as nat)
        && new[old.len() + k].1 == num_node(d, p + w * k, w)
}

/// What a field of a segment holds: a number of a width in bytes, a string of
/// a prefix width, a list of numbers, or a list of sections.
pub enum FieldShape {
    Num(int),
    Str(u8),
    Nums(nat, int),
    Strs(nat, u8),
    StrsAfter(u8),
    NumsAfter(int),
    Raw(nat),
    Section,
    Items,
}

/// A number node of width `w` bytes.
pub open spec fn num_fits(n: Node, w: int) -> bool {
    ||| w == 1 && n is U8
    ||| w == 2 && n is U16
    ||| w == 4 && n is U32
    ||| w == 8 && n is U64
}

/// The count that a field holds: its 32-bit number, when positive as `i32`.
pub open spec fn count_of(n: Node) -> nat {
    match n {
        Node::U32(x) => pos_count(x as nat),
        _ => 0,
    }
}

/// The node has the shape `s`; `prev` is the field before it, which holds
/// the count of a list that follows its count.
pub open spec fn node_fits(n: Node, s: FieldShape, prev: Node) -> bool {
    match s {
        FieldShape::Num(w) => num_fits(n, w),
        FieldShape::Str(w) => n matches Node::Str { width, .. } && width == w,
        FieldShape::Nums(k, w) => n matches Node::List(v) && v@.len() == k && forall|i: int|
            0 <= i < k ==> num_fits(#[trigger] v@[i], w),
        FieldShape::Strs(k, w) => str_list(n, k, w),
        FieldShape::StrsAfter(w) => str_list(n, count_of(prev), w),
        FieldShape::NumsAfter(w) => n matches Node::List(v) && v@.len() == count_of(prev) && forall|i: int|
            0 <= i < v@.len() ==> num_fits(#[trigger] v@[i], w),
        FieldShape::Raw(k) => n matches Node::Bytes(b) && b@.len() == k,
        FieldShape::Section => n is Sec,
        FieldShape::Items => n is List,
    }
}

/// The node of the field before field `k` (a zero byte for the first).
#[verifier::opaque]
pub open spec fn prev_node(f: Seq<(String, Node)>, k: int) -> Node {
    if k > 0 { f[k - 1].1 } else { Node::U8(0) }
}

/// Each field has the name and shape at its place in `sh`.
#[verifier::opaque]
pub open spec fn fields_fit(f: Seq<(String, Node)>, sh: Seq<(Seq<char>, FieldShape)>) -> bool {
    forall|k: int| 0 <= k < f.len() ==> (#[trigger] f[k]).0@ == sh[k].0 && node_fits(f[k].1, sh[k].1, prev_node(f, k))
}

/// The fields have the names and shapes of `sh`, in order.
pub open spec fn fits(f: Seq<(String, Node)>, sh: Seq<(Seq<char>, FieldShape)>) -> bool {
    &&& f.len() == sh.len()
    &&& fields_fit(f, sh)
}

/// The number held by field `k` (0 when it holds no 32-bit number).
pub open spec fn u32_field(f: Seq<(String, Node)>, k: int) -> u32 {
    match f[k].1 {
        Node::U32(v) => v,
        _ => 0,
    }
}

/// The fields `prefix` + `first`, `first + 1`, ...: `cnt` numbers of width `w`.
pub open spec fn run_shape(prefix: Seq<char>, first: u32, cnt: nat, w: int) -> Seq<(Seq<char>, FieldShape)> {
    Seq::new(cnt, |k: int| (prefix + dec_chars((first + k) as nat), FieldShape::Num(w)))
}

proof fn lemma_fits_push(old: Seq<(String, Node)>, x: (String, Node), sh: Seq<(Seq<char>, FieldShape)>, nm: Seq<char>, s: FieldShape) -> (r: Seq<(Seq<char>, FieldShape)>)
    requires
        fits(old, sh),
        x.0@ == nm,
        node_fits(x.1, s, prev_node(old.push(x), old.len() as int)),
    ensures
        r == sh.push((nm, s)),
        fits(old.push(x), r),
        1 < old.len() ==> u32_field(old.push(x), 1) == u32_field(old, 1),
        3 < old.len() ==> u32_field(old.push(x), 3) == u32_field(old, 3),
        5 < old.len() ==> u32_field(old.push(x), 5) == u32_field(old, 5),
        9 < old.len() ==> u32_field(old.push(x), 9) == u32_field(old, 9),
{
    reveal(fields_fit);
    let new = old.push(x);
    let r = sh.push((nm, s));
    assert forall|k: int| 0 <= k < new.len() implies (#[trigger] new[k]).0@ == r[k].0 && node_fits(new[k].1, r[k].1, prev_node(new, k)) by {
        if k < old.len() {
            assert(new[k] == old[k]);
            assert(prev_node(new, k) == prev_node(old, k)) by {
                reveal(prev_node);
                if k > 0 {
                    assert(new[k - 1] == old[k - 1]);
                }
            }
        }
    }
    r
}

proof fn lemma_fits_empty(f: Seq<(String, Node)>)
    requires
        f.len() == 0,
    ensures
        fits(f, seq![]),
{
    reveal(fields_fit);
}


/// A field appended: the fields before it are kept.
/// The field before an appended one is the last field before the append.
proof fn lemma_prev_last(old: Seq<(String, Node)>, x: (String, Node))
    requires
        old.len() > 0,
    ensures
        prev_node(old.push(x), old.len() as int) == old.last().1,
{
    reveal(prev_node);
}

proof fn lemma_pushed_keeps(old: Seq<(String, Node)>, new: Seq<(String, Node)>)
    requires
        new.len() == old.len() + 1,
        new.drop_last() == old,
    ensures
        new == old.push(new.last()),
{
    assert(new =~= old.push(new.last()));
}

proof fn lemma_fits_run(old: Seq<(String, Node)>, new: Seq<(String, Node)>, sh: Seq<(Seq<char>, FieldShape)>, prefix: Seq<char>, first: u32, cnt: nat, d: Seq<u8>, p: int, w: int) -> (r: Seq<(Seq<char>, FieldShape)>)
    requires
        fits(old, sh),
        num_run(old, new, prefix, first, cnt, d, p, w),
        w == 1 || w == 2 || w == 4 || w == 8,
    ensures
        r == sh + run_shape(prefix, first, cnt, w),
        fits(new, r),
{
    reveal(fields_fit);
    let r = sh + run_shape(prefix, first, cnt, w);
    assert forall|k: int| 0 <= k < new.len() implies (#[trigger] new[k]).0@ == r[k].0 && node_fits(new[k].1, r[k].1, prev_node(new, k)) by {
        if k < old.len() {
            assert(new[k] == new.subrange(0, old.len() as int)[k]);
            assert(prev_node(new, k) == prev_node(old, k)) by {
                reveal(prev_node);
                if k > 0 {
                    assert(new[k - 1] == new.subrange(0, old.len() as int)[k - 1]);
                }
            }
        } else {
            let j = k - old.len();
            assert(new[old.len() + j] == new[k]);
        }
    }
    r
}

/// A list of `n` strings of prefix width `w`.
pub open spec fn str_list(x: Node, n: nat, w: u8) -> bool {
    x matches Node::List(v) && v@.len() == n && forall|k: int|
        0 <= k < n ==> (#[trigger] v@[k] matches Node::Str { width, .. } && width == w)
}

// ---------------- where each part of a save ends ----------------

/// `n` bytes further, when they are there.
pub open spec fn adv(d: Seq<u8>, p: Option<int>, n: nat) -> Option<int> {
    match p {
        Some(q) => if q + n <= d.len() { Some(q + n) } else { None },
        None => None,
    }
}

/// Past a string with a `w`-byte prefix.
pub open spec fn str_adv(d: Seq<u8>, p: Option<int>, w: u8) -> Option<int> {
    match p {
        Some(q) => match str_at_w(d, q, w) {
            Some(x) => Some(x.1),
            None => None,
        },
        None => None,
    }
}

/// Past `n` strings with `w`-byte prefixes.
pub open spec fn strs_adv(d: Seq<u8>, p: Option<int>, n: nat, w: u8) -> Option<int> {
    match p {
        Some(q) => strs_end(d, q, n, w),
        None => None,
    }
}

/// The `w`-byte number at a position.
pub open spec fn val(d: Seq<u8>, p: Option<int>, w: nat) -> nat {
    le_at(d, p.unwrap(), w)
}

/// A count read as a signed 32-bit number: itself when positive, else none.
pub open spec fn pos_count(v: nat) -> nat {
    if 0 < v < 0x8000_0000 { v } else { 0 }
}

/// End of a section `count` (a byte) and that many 32-bit values.
pub open spec fn counted_end(d: Seq<u8>, p: int) -> Option<int> {
    adv(d, adv(d, Some(p), 1), 4 * val(d, Some(p), 1))
}

/// End of a section `count` (32 bits, counted when positive) and that many 32-bit values.
pub open spec fn counted_wide_end(d: Seq<u8>, p: int) -> Option<int> {
    adv(d, adv(d, Some(p), 4), 4 * pos_count(val(d, Some(p), 4)))
}

/// End of a SavePart1_1_1_1.
pub open spec fn sp1111_end(d: Seq<u8>, p: int) -> Option<int> {
    let p2 = adv(d, Some(p), 2);
    let p3 = adv(d, p2, 4 * val(d, Some(p + 1), 1));
    let p4 = adv(d, p3, 1);
    adv(d, p4, val(d, p3, 1))
}

/// End of `k` SavePart1_1_1_1 one after another.
pub open spec fn sp1111s_end(d: Seq<u8>, p: int, k: nat) -> Option<int>
    decreases k,
{
    if k == 0 {
        Some(p)
    } else {
        match sp1111_end(d, p) {
            Some(q) => sp1111s_end(d, q, (k - 1) as nat),
            None => None,
        }
    }
}

/// End of a SavePart1_1_1: six bytes, a count of at most 0x10000 and that many SavePart1_1_1_1.
pub open spec fn sp111_end(d: Seq<u8>, p: int) -> Option<int> {
    match adv(d, Some(p), 10) {
        None => None,
        Some(q) => if val(d, Some(p + 6), 4) > 0x10000 { None } else { sp1111s_end(d, q, val(d, Some(p + 6), 4)) },
    }
}

/// Past a SavePart1_1_1.
pub open spec fn sub111(d: Seq<u8>, p: Option<int>) -> Option<int> {
    match p {
        Some(q) => sp111_end(d, q),
        None => None,
    }
}

/// A count read as a signed 16-bit number: itself when positive, else none.
pub open spec fn pos16(v: nat) -> nat {
    if 0 < v < 0x8000 { v } else { 0 }
}

/// End of a SavePart1_1 (the data block of one character) of a file `version`.
#[verifier::opaque]
pub open spec fn sp11_end(d: Seq<u8>, p: int, version: u16) -> Option<int> {
    let a = adv(d, Some(p), 21);
    let b = str_adv(d, a, 2);
    let c1 = adv(d, b, 10);
    let s2 = sub111(d, sub111(d, c1));
    let e = adv(d, s2, 15);
    let g = adv(d, adv(d, e, 4), 4 * val(d, e, 4));
    let h = if version >= 0x70 { adv(d, g, 2) } else { g };
    let i = if version >= 0x73 { adv(d, h, 16) } else { h };
    let j = if version >= 0x78 { adv(d, i, 4) } else { i };
    let k = if version >= 0x85 { adv(d, j, 12) } else { j };
    let l = if version >= 0x8A {
        adv(d, strs_adv(d, adv(d, k, 2), pos16(val(d, k, 2)), 2), 13)
    } else {
        k
    };
    let m = if version >= 0x8B { adv(d, l, 4) } else { l };
    if version >= 0x8C { adv(d, m, 4) } else { m }
}

/// End of `k` SavePart1_1 one after another.
pub open spec fn sp11s_end(d: Seq<u8>, p: int, k: nat, version: u16) -> Option<int>
    decreases k,
{
    if k == 0 {
        Some(p)
    } else {
        match sp11_end(d, p, version) {
            Some(q) => sp11s_end(d, q, (k - 1) as nat, version),
            None => None,
        }
    }
}

/// Past `k` SavePart1_1.
pub open spec fn sp11s_adv(d: Seq<u8>, p: Option<int>, k: nat, version: u16) -> Option<int> {
    match p {
        Some(q) => sp11s_end(d, q, k, version),
        None => None,
    }
}

/// End of SavePart4: a SavePart1_1, a count and that many more, two bytes, a
/// counted list of 32-bit values and, from 0x8A, one of 64-bit values.
#[verifier::opaque]
pub open spec fn part4_end(d: Seq<u8>, p: int, version: u16) -> Option<int> {
    let a = match sp11_end(d, p, version) {
        Some(q) => Some(q),
        None => None,
    };
    part4_tail(d, sp11s_adv(d, adv(d, a, 4), val(d, a, 4), version), version)
}

/// SavePart4 after its characters, read from `c1`.
pub open spec fn part4_tail(d: Seq<u8>, c1: Option<int>, version: u16) -> Option<int> {
    let e = adv(d, c1, 2);
    let g = adv(d, adv(d, e, 4), 4 * pos_count(val(d, e, 4)));
    if version >= 0x8A { adv(d, adv(d, g, 4), 8 * pos_count(val(d, g, 4))) } else { g }
}

/// Values the three-dimensional table of SavePart1 holds after its first one.
pub open spec fn table_rest(var4: nat, var5: nat) -> nat {
    if 3 * var4 * var5 >= 1 { (3 * var4 * var5 - 1) as nat } else { 0 }
}

/// End of SavePart1 of a file `version`.
#[verifier::opaque]
pub open spec fn part1_end(d: Seq<u8>, p: int, version: u16) -> Option<int> {
    let a = adv(d, Some(p), 12);
    let b = if version >= 0x69 {
        let pk = adv(d, a, 12);
        if pk is None {
            None
        } else if val(d, adv(d, a, 8), 4) != 0xffff_ffff {
            if 3 * val(d, a, 4) * val(d, adv(d, a, 4), 4) > 0x2000_0000 {
                None
            } else {
                adv(d, pk, 4 * table_rest(val(d, a, 4), val(d, adv(d, a, 4), 4)))
            }
        } else {
            pk
        }
    } else {
        a
    };
    part1_rest(d, b, version)
}

/// SavePart1 from its first string on, read from `b`.
pub open spec fn part1_rest(d: Seq<u8>, b: Option<int>, version: u16) -> Option<int> {
    let n_str: nat = if version >= 0x8A { 31 } else if version >= 0x73 { 15 } else { 7 };
    let e = strs_adv(d, str_adv(d, b, 4), n_str, 4);
    let g = adv(d, adv(d, e, 4), (if version >= 0x64 { 4nat } else { 1nat }) * pos_count(val(d, e, 4)));
    part1_tail(d, sp11s_adv(d, adv(d, g, 4), pos_count(val(d, g, 4)), version), version)
}

/// SavePart1 after its characters, read from `i`.
pub open spec fn part1_tail(d: Seq<u8>, i: Option<int>, version: u16) -> Option<int> {
    let j = if version >= 0x72 { adv(d, i, 44) } else { i };
    adv(d, adv(d, j, 4), 4 * pos_count(val(d, j, 4)))
}

/// End of `k` sections read by [`counted_wide_end`] one after another.
pub open spec fn wides_end(d: Seq<u8>, p: int, k: nat) -> Option<int>
    decreases k,
{
    if k == 0 {
        Some(p)
    } else {
        match counted_wide_end(d, p) {
            Some(q) => wides_end(d, q, (k - 1) as nat),
            None => None,
        }
    }
}

/// SavePart5_1 from its list of counted sections on (version 0x89 and later), read from `k`.
pub open spec fn sp51_list_tail(d: Seq<u8>, l: Option<int>) -> Option<int> {
    adv(d, l, 28)
}

/// End of a SavePart5_1 (the data block of one map event) of a file `version`.
#[verifier::opaque]
pub open spec fn sp51_end(d: Seq<u8>, p: int, version: u16) -> Option<int> {
    let b = str_adv(d, adv(d, Some(p), 10), 2);
    let c1 = adv(d, b, 72);
    let e = if version >= 0x69 { adv(d, c1, 72) } else { c1 };
    let f = if version >= 0x6B { adv(d, e, 1) } else { e };
    let g = if version >= 0x72 { adv(d, f, 34) } else { f };
    let h = if version >= 0x73 {
        let h1 = adv(d, g, 16);
        let h2 = if version >= 0x74 { adv(d, h1, 20) } else { h1 };
        let h3 = if version >= 0x75 { adv(d, h2, 24) } else { h2 };
        adv(d, h3, 24)
    } else {
        g
    };
    let i = if version >= 0x76 { adv(d, h, 12) } else { h };
    if version < 0x81 {
        i
    } else {
        let j = adv(d, i, 84);
        let k = if version >= 0x87 { adv(d, j, 20) } else { j };
        if version >= 0x89 {
            match adv(d, k, 4) {
                Some(q) => sp51_list_tail(d, wides_end(d, q, pos_count(val(d, k, 4)))),
                None => None,
            }
        } else {
            k
        }
    }
}

/// The fields of a SavePart5_1 of a file `version`, by name and shape.
pub open spec fn sp51_shape(version: u16) -> Seq<(Seq<char>, FieldShape)> {
    let v = "var"@;
    let a = seq![("var1"@, FieldShape::Num(4))] + run_shape(v, 2, 2, 1) + seq![("var4"@, FieldShape::Num(2))]
        + run_shape(v, 5, 2, 1) + seq![("md1"@, FieldShape::Str(2))] + run_shape(v, 7, 12, 4)
        + seq![("vals1"@, FieldShape::Nums(6, 4))];
    let b = if version >= 0x69 { a + run_shape(v, 19, 18, 4) } else { a };
    let c = if version >= 0x6B { b + seq![("var37"@, FieldShape::Num(1))] } else { b };
    let e = if version >= 0x72 {
        c + run_shape(v, 38, 2, 1) + seq![("vals2"@, FieldShape::Nums(4, 4)), ("vals3"@, FieldShape::Nums(4, 4))]
    } else {
        c
    };
    let g = if version >= 0x73 {
        let g1 = e + run_shape(v, 40, 4, 4);
        let g2 = if version >= 0x74 { g1 + run_shape(v, 44, 5, 4) } else { g1 };
        let g3 = if version >= 0x75 { g2 + run_shape(v, 49, 6, 4) } else { g2 };
        g3 + run_shape(v, 55, 6, 4)
    } else {
        e
    };
    let h = if version >= 0x76 { g + run_shape(v, 61, 3, 4) } else { g };
    if version < 0x81 {
        h
    } else {
        let i = h + run_shape(v, 64, 21, 4);
        let j = if version >= 0x87 { i + run_shape(v, 85, 5, 4) } else { i };
        if version >= 0x89 {
            j + seq![("var90"@, FieldShape::Num(4)), ("list1"@, FieldShape::Items)] + run_shape(v, 91, 7, 4)
        } else {
            j
        }
    }
}

/// End of `k` SavePart5_1 one after another.
pub open spec fn sp51s_end(d: Seq<u8>, p: int, k: nat, version: u16) -> Option<int>
    decreases k,
{
    if k == 0 {
        Some(p)
    } else {
        match sp51_end(d, p, version) {
            Some(q) => sp51s_end(d, q, (k - 1) as nat, version),
            None => None,
        }
    }
}

/// End of SavePart5: a 16-bit count and, unless its top bit is set, that many SavePart5_1.
#[verifier::opaque]
pub open spec fn part5_end(d: Seq<u8>, p: int, version: u16) -> Option<int> {
    match adv(d, Some(p), 2) {
        None => None,
        Some(q) => if val(d, Some(p), 2) >= 0x8000 { Some(q) } else { sp51s_end(d, q, val(d, Some(p), 2), version) },
    }
}

/// `n` bytes further when `cond` holds.
pub open spec fn adv_if(d: Seq<u8>, cond: bool, p: Option<int>, n: nat) -> Option<int> {
    if cond { adv(d, p, n) } else { p }
}

/// SavePart2 up to its 16-bit `var70`.
pub open spec fn part2_a(d: Seq<u8>, a: Option<int>, version: u16) -> Option<int> {
    let a = adv(d, a, 162);
    let a = adv_if(d, version <= 96, a, 4);
    let a = adv(d, a, 4);
    let a = adv_if(d, version >= 98, a, 8);
    let a = if version >= 100 {
        let x = adv(d, a, 9);
        let y = strs_adv(d, adv(d, x, 4), pos_count(val(d, x, 4)), 4);
        adv(d, adv(d, adv(d, y, 4), 4 * pos_count(val(d, y, 4))), 20)
    } else {
        a
    };
    let a = adv_if(d, version >= 101, a, 24);
    adv_if(d, version >= 102, a, 2)
}

/// SavePart2 from version 103's strings to version 119's.
pub open spec fn part2_b(d: Seq<u8>, a: Option<int>, version: u16) -> Option<int> {
    let a = if version >= 103 { str_adv(d, str_adv(d, a, 2), 2) } else { a };
    let a = adv_if(d, version >= 104, a, 4);
    let a = adv_if(d, version >= 106, a, 12);
    let a = if version >= 108 { adv(d, str_adv(d, adv(d, str_adv(d, a, 2), 12), 2), 12) } else { a };
    let a = if version >= 109 { adv(d, str_adv(d, str_adv(d, a, 2), 2), 1) } else { a };
    let a = adv_if(d, version >= 110, a, 1);
    if version >= 119 { str_adv(d, str_adv(d, str_adv(d, a, 2), 2), 2) } else { a }
}

/// SavePart2 from version 121's number to version 137's table.
pub open spec fn part2_c(d: Seq<u8>, a: Option<int>, version: u16) -> Option<int> {
    let a = adv_if(d, version >= 121, a, 4);
    let a = adv_if(d, version >= 122, a, 4);
    let a = adv_if(d, version >= 124, a, 4);
    let a = adv_if(d, version >= 126, a, 4);
    let a = adv_if(d, version >= 128, a, 4);
    let a = adv_if(d, version >= 129, a, 8);
    let a = adv_if(d, version >= 130, a, 4);
    let a = adv_if(d, version >= 131, a, 4);
    let a = adv_if(d, version >= 132, a, 16);
    let a = adv_if(d, version >= 134, a, 1);
    let a = adv_if(d, version >= 136, a, 1);
    adv_if(d, version >= 137, a, 112)
}

/// The end of SavePart2 from version 0x8A's fields on.
pub open spec fn part2_d(d: Seq<u8>, a: Option<int>, version: u16) -> Option<int> {
    let a = if version >= 0x8A {
        let x = str_adv(d, adv(d, a, 16), 4);
        strs_adv(d, adv(d, x, 4), pos_count(val(d, x, 4)), 4)
    } else {
        a
    };
    let a = adv_if(d, version >= 0x8D, a, 272);
    adv_if(d, version >= 0x8E, a, 4)
}

/// End of SavePart2 (system and screen state) of a file `version`.
#[verifier::opaque]
pub open spec fn part2_end(d: Seq<u8>, p: int, version: u16) -> Option<int> {
    part2_d(d, part2_c(d, part2_b(d, part2_a(d, Some(p), version), version), version), version)
}

/// End of `k` sections read by [`counted_end`] one after another.
pub open spec fn counteds_end(d: Seq<u8>, p: int, k: nat) -> Option<int>
    decreases k,
{
    if k == 0 {
        Some(p)
    } else {
        match counted_end(d, p) {
            Some(q) => counteds_end(d, q, (k - 1) as nat),
            None => None,
        }
    }
}

/// End of `k` groups of SavePart3's first list: a count (refused when negative
/// as a signed number) and that many counted sections.
pub open spec fn p3_groups1(d: Seq<u8>, p: int, k: nat) -> Option<int>
    decreases k,
{
    if k == 0 {
        Some(p)
    } else if p + 4 > d.len() || le_at(d, p, 4) >= 0x8000_0000 {
        None
    } else {
        match counteds_end(d, p + 4, le_at(d, p, 4)) {
            Some(q) => p3_groups1(d, q, (k - 1) as nat),
            None => None,
        }
    }
}

/// End of `k` groups of SavePart3's second list: a count (refused when
/// negative) and that many 32-bit values.
pub open spec fn p3_groups2(d: Seq<u8>, p: int, k: nat) -> Option<int>
    decreases k,
{
    if k == 0 {
        Some(p)
    } else if p + 4 > d.len() || le_at(d, p, 4) >= 0x8000_0000 || p + 4 + 4 * le_at(d, p, 4) > d.len() {
        None
    } else {
        p3_groups2(d, p + 4 + 4 * le_at(d, p, 4), (k - 1) as nat)
    }
}

/// End of `k` groups of SavePart3's fourth list: a byte count and that many strings.
pub open spec fn p3_groups4(d: Seq<u8>, p: int, k: nat, w: u8) -> Option<int>
    decreases k,
{
    if k == 0 {
        Some(p)
    } else if p + 1 > d.len() {
        None
    } else {
        match strs_end(d, p + 1, d[p] as nat, w) {
            Some(q) => p3_groups4(d, q, (k - 1) as nat, w),
            None => None,
        }
    }
}

/// String prefix width of SavePart3 for a file `version`.
pub open spec fn p3_width(version: u16) -> u8 {
    if version < 0x6F { 2 } else { 4 }
}

/// SavePart3 after its first list (read up to `l1`).
pub open spec fn p3_after1(d: Seq<u8>, l1: Option<int>, version: u16) -> Option<int> {
    match adv(d, l1, 4) {
        None => None,
        Some(q2) => if val(d, l1, 4) > 0x270F {
            Some(q2)
        } else {
            p3_after2(d, p3_groups2(d, q2, val(d, l1, 4)), version)
        },
    }
}

/// SavePart3 after its second list (read up to `l2`).
pub open spec fn p3_after2(d: Seq<u8>, l2: Option<int>, version: u16) -> Option<int> {
    match adv(d, l2, 4) {
        None => None,
        Some(q2) => if val(d, l2, 4) >= 0x8000_0000 {
            Some(q2)
        } else {
            let q3 = strs_end(d, q2, val(d, l2, 4), p3_width(version));
            match adv(d, q3, 4) {
                None => None,
                Some(q4) => if val(d, q3, 4) > 10000 {
                    None
                } else {
                    p3_after3(d, counteds_end(d, q4, val(d, q3, 4)), version)
                },
            }
        },
    }
}

/// SavePart3 after its third list (read up to `l3`).
pub open spec fn p3_after3(d: Seq<u8>, l3: Option<int>, version: u16) -> Option<int> {
    match adv(d, l3, 4) {
        None => None,
        Some(q2) => if val(d, l3, 4) > 10000 {
            Some(q2)
        } else if val(d, l3, 4) == 0 {
            None
        } else {
            p3_groups4(d, q2, val(d, l3, 4), p3_width(version))
        },
    }
}

/// End of SavePart3 (string tables and lists) of a file `version`.
#[verifier::opaque]
pub open spec fn part3_end(d: Seq<u8>, p: int, version: u16) -> Option<int> {
    match adv(d, Some(p), 8) {
        None => None,
        Some(b) => if le_at(d, p + 4, 4) >= 0x8000_0000 {
            Some(b)
        } else {
            p3_after1(d, p3_groups1(d, b, le_at(d, p + 4, 4)), version)
        },
    }
}

/// The fields of a SavePart3 of a file `version`, by name and shape: each list
/// and what follows it is there only when the count before it allows, as read
/// from the fields themselves (`var2` at 1, `var3` at 3, `var4` at 5, `var6` at 9).
#[verifier::opaque]
pub open spec fn p3_shape(version: u16, f: Seq<(String, Node)>) -> Seq<(Seq<char>, FieldShape)> {
    let head = seq![("var1"@, FieldShape::Num(4)), ("var2"@, FieldShape::Num(4))];
    if u32_field(f, 1) >= 0x8000_0000 {
        head
    } else {
        let a = head + seq![("list1"@, FieldShape::Items), ("var3"@, FieldShape::Num(4))];
        if u32_field(f, 3) > 0x270F {
            a
        } else {
            let b = a + seq![("list2"@, FieldShape::Items), ("var4"@, FieldShape::Num(4))];
            if u32_field(f, 5) >= 0x8000_0000 {
                b
            } else {
                let c = b + seq![
                    ("mds1"@, FieldShape::Strs(u32_field(f, 5) as nat, p3_width(version))),
                    ("var5"@, FieldShape::Num(4)),
                    ("list3"@, FieldShape::Items),
                    ("var6"@, FieldShape::Num(4)),
                ];
                if u32_field(f, 9) > 10000 {
                    c
                } else {
                    c + seq![("list4"@, FieldShape::Items)]
                }
            }
        }
    }
}

/// How many field type codes are numeric (below 2000).
pub open spec fn small_count(cfg: Seq<u32>) -> nat
    decreases cfg.len(),
{
    if cfg.len() == 0 {
        0
    } else {
        small_count(cfg.drop_last()) + (if cfg.last() < 2000 { 1nat } else { 0nat })
    }
}

/// How many field type codes are strings (2000 and above).
pub open spec fn big_count(cfg: Seq<u32>) -> nat
    decreases cfg.len(),
{
    if cfg.len() == 0 {
        0
    } else {
        big_count(cfg.drop_last()) + (if cfg.last() >= 2000 { 1nat } else { 0nat })
    }
}

proof fn lemma_counts_grow(cfg: Seq<u32>, i: int)
    requires
        0 <= i <= cfg.len(),
    ensures
        small_count(cfg.take(i)) <= small_count(cfg),
        big_count(cfg.take(i)) <= big_count(cfg),
    decreases cfg.len() - i,
{
    if i < cfg.len() {
        lemma_counts_grow(cfg, i + 1);
        assert(cfg.take(i + 1).drop_last() =~= cfg.take(i));
    } else {
        assert(cfg.take(i) =~= cfg);
    }
}

/// End of one entry of a variable type with field codes `cfg`: a 32-bit number
/// per numeric field, then a string (4-byte prefix) per string field.
pub open spec fn type_data_end(d: Seq<u8>, p: int, cfg: Seq<u32>) -> Option<int> {
    strs_adv(d, adv(d, Some(p), 4 * small_count(cfg)), big_count(cfg), 4)
}

/// The `n` 32-bit field type codes stored from `q`.
pub open spec fn cfg_of(d: Seq<u8>, q: int, n: nat) -> Seq<u32> {
    Seq::new(n, |k: int| le_at(d, q + 4 * k, 4) as u32)
}

/// Where a variable type's field codes start and how many it declares: after
/// its flag, a flag of -2 or below is followed by an id and the count, a flag
/// of -1 declares 0xffff_ffff codes, another flag is the count itself.
pub open spec fn type_head(d: Seq<u8>, p: int) -> Option<(int, nat)> {
    if p + 4 > d.len() {
        None
    } else {
        let u = le_at(d, p, 4);
        if u >= 0x8000_0000 && u != 0xffff_ffff {
            if p + 12 > d.len() { None } else { Some((p + 12, le_at(d, p + 8, 4))) }
        } else {
            Some((p + 4, u))
        }
    }
}

/// End of `k` entries of a variable type with field codes `cfg`.
pub open spec fn type_datas_end(d: Seq<u8>, p: int, k: nat, cfg: Seq<u32>) -> Option<int>
    decreases k,
{
    if k == 0 {
        Some(p)
    } else {
        match type_data_end(d, p, cfg) {
            Some(q) => type_datas_end(d, q, (k - 1) as nat, cfg),
            None => None,
        }
    }
}

/// End of a variable type: its head, field codes, entry count and entries.
pub open spec fn type_end(d: Seq<u8>, p: int) -> Option<int> {
    match type_head(d, p) {
        None => None,
        Some(h) => if h.0 + 4 * h.1 + 4 > d.len() {
            None
        } else {
            type_datas_end(d, h.0 + 4 * h.1 + 4, le_at(d, h.0 + 4 * h.1, 4), cfg_of(d, h.0, h.1))
        },
    }
}

/// End of `k` variable types one after another.
pub open spec fn types_end(d: Seq<u8>, p: int, k: nat) -> Option<int>
    decreases k,
{
    if k == 0 {
        Some(p)
    } else {
        match type_end(d, p) {
            Some(q) => types_end(d, q, (k - 1) as nat),
            None => None,
        }
    }
}

/// End of the variable database segment: a byte, a type count and the types.
#[verifier::opaque]
pub open spec fn var_db_end(d: Seq<u8>, p: int) -> Option<int> {
    match adv(d, Some(p), 5) {
        None => None,
        Some(q) => types_end(d, q, le_at(d, p + 1, 4)),
    }
}

/// Among `k` variable types read from `p`, one has flag -1: it declares
/// 0xffff_ffff field codes although no field count is stored.
pub open spec fn types_fake(d: Seq<u8>, p: int, k: nat) -> bool
    decreases k,
{
    if k == 0 {
        false
    } else if p + 4 <= d.len() && le_at(d, p, 4) == 0xffff_ffff {
        true
    } else {
        match type_end(d, p) {
            Some(q) => types_fake(d, q, (k - 1) as nat),
            None => false,
        }
    }
}

/// The variable database segment at `p` holds a type with flag -1.
pub open spec fn var_db_fake(d: Seq<u8>, p: int) -> bool {
    match adv(d, Some(p), 5) {
        None => false,
        Some(q) => types_fake(d, q, le_at(d, p + 1, 4)),
    }
}

/// Where the variable database segment of plain save bytes begins, when the
/// five segments before it are read.
pub open spec fn var_db_pos(d: Seq<u8>) -> Option<int> {
    match str_at_w(d, 0x15, 2) {
        None => None,
        Some(x) => if x.1 + 2 > d.len() {
            None
        } else {
            let v = le_at(d, x.1, 2) as u16;
            match part1_end(d, x.1 + 2, v) {
                None => None,
                Some(a) => match part2_end(d, a, v) {
                    None => None,
                    Some(b) => match part3_end(d, b, v) {
                        None => None,
                        Some(c) => match part4_end(d, c, v) {
                            None => None,
                            Some(e) => part5_end(d, e, v),
                        },
                    },
                },
            }
        },
    }
}

/// No variable type of the save declares field codes with flag -1 (the one
/// case in which the reader records a field count that the file does not store).
pub open spec fn fake_free(d: Seq<u8>) -> bool {
    match var_db_pos(d) {
        Some(f) => !var_db_fake(d, f),
        None => true,
    }
}

/// End of the seven data segments of a file `version`, read from `p`.
pub open spec fn segs_end(d: Seq<u8>, p: int, version: u16) -> Option<int> {
    match part1_end(d, p, version) {
        None => None,
        Some(a) => match part2_end(d, a, version) {
            None => None,
            Some(b) => match part3_end(d, b, version) {
                None => None,
                Some(c) => match part4_end(d, c, version) {
                    None => None,
                    Some(e) => match part5_end(d, e, version) {
                        None => None,
                        Some(f) => match var_db_end(d, f) {
                            None => None,
                            Some(g) => part7_end(d, g),
                        },
                    },
                },
            },
        },
    }
}

/// The plain bytes are a save: a 0x14-byte header, the start byte 0x19, the
/// game name (2-byte prefix), a version of at most 0x8E, the seven segments
/// and the end byte 0x19 as the last byte.
pub open spec fn plain_ok(d: Seq<u8>) -> bool {
    if d.len() < 0x15 || d[0x14] != 0x19 {
        false
    } else {
        match str_at_w(d, 0x15, 2) {
            None => false,
            Some(x) => x.1 + 2 <= d.len() && le_at(d, x.1, 2) <= 0x8E && match segs_end(
                d,
                x.1 + 2,
                le_at(d, x.1, 2) as u16,
            ) {
                Some(e) => e + 1 == d.len() && d[e] == 0x19,
                None => false,
            },
        }
    }
}

/// End of the typed values of SavePart7 (a type byte, then a byte below type 0xFA, else 32 bits).
pub open spec fn p7_items_end(d: Seq<u8>, p: int, k: nat) -> Option<int>
    decreases k,
{
    if k == 0 {
        Some(p)
    } else if p + 1 > d.len() {
        None
    } else {
        let w = if d[p] < 0xFA { 1int } else { 4int };
        if p + 1 + w > d.len() { None } else { p7_items_end(d, p + 1 + w, (k - 1) as nat) }
    }
}

/// End of SavePart7: a flag byte and, when it is 1, a count and that many typed values.
#[verifier::opaque]
pub open spec fn part7_end(d: Seq<u8>, p: int) -> Option<int> {
    let p1 = adv(d, Some(p), 1);
    if p1 is None || d[p] != 1 {
        p1
    } else {
        match adv(d, p1, 4) {
            Some(q) => p7_items_end(d, q, val(d, p1, 4)),
            None => None,
        }
    }
}

/// The named nodes read so far are the bytes from `start` to the cursor.
pub(crate) open spec fn prog(f: Seq<(String, Node)>, start: int, c: Cursor) -> bool {
    &&& 0 <= start <= c.off <= c.data@.len()
    &&& fields_bytes(f) == c.data@.subrange(start, c.off as int)
}

/// The unnamed nodes read so far are the bytes from `start` to the cursor.
pub(crate) open spec fn lprog(v: Seq<Node>, start: int, c: Cursor) -> bool {
    &&& 0 <= start <= c.off <= c.data@.len()
    &&& nodes_bytes(v) == c.data@.subrange(start, c.off as int)
}

/// What each segment reader promises: it only moves forward, and what it
/// returns is written as the bytes it moved over.
pub(crate) open spec fn seg_ok(c0: Cursor, c1: Cursor, r: Result<Vec<(String, Node)>, String>) -> bool {
    &&& moved(c0, c1)
    &&& (r matches Ok(f) ==> fields_bytes(f@) == span(c0, c1))
}

proof fn lemma_u16(a: u8, b: u8)
    ensures
        le16(((a as u16) | ((b as u16) << 8u16)) as u16) == seq![a, b],
{
    let v = ((a as u16) | ((b as u16) << 8u16)) as u16;
    assert((v & 0xff) as u8 == a) by (bit_vector)
        requires
            v == ((a as u16) | ((b as u16) << 8u16)),
    ;
    assert(((v >> 8u16) & 0xff) as u8 == b) by (bit_vector)
        requires
            v == ((a as u16) | ((b as u16) << 8u16)),
    ;
    assert(le16(v) =~= seq![a, b]);
}

proof fn lemma_u32(a: u8, b: u8, c: u8, d: u8)
    ensures
        le32(
            ((a as u32) | ((b as u32) << 8u32) | ((c as u32) << 16u32) | ((d as u32) << 24u32)) as u32,
        ) == seq![a, b, c, d],
{
    let v = ((a as u32) | ((b as u32) << 8u32) | ((c as u32) << 16u32) | ((d as u32) << 24u32)) as u32;
    assert((v & 0xff) as u8 == a && ((v >> 8u32) & 0xff) as u8 == b && ((v >> 16u32) & 0xff) as u8
        == c && ((v >> 24u32) & 0xff) as u8 == d) by (bit_vector)
        requires
            v == ((a as u32) | ((b as u32) << 8u32) | ((c as u32) << 16u32) | ((d as u32) << 24u32)),
    ;
    assert(le32(v) =~= seq![a, b, c, d]);
}

proof fn lemma_u64(lo: u32, hi: u32)
    ensures
        le64(((lo as u64) | ((hi as u64) << 32u64)) as u64) == le32(lo) + le32(hi),
{
    let v = ((lo as u64) | ((hi as u64) << 32u64)) as u64;
    assert((v & 0xffff_ffff) as u32 == lo && (v >> 32u64) as u32 == hi) by (bit_vector)
        requires
            v == ((lo as u64) | ((hi as u64) << 32u64)),
    ;
}

proof fn lemma_span(d: Seq<u8>, a: int, b: int, e: int)
    requires
        0 <= a <= b <= e <= d.len(),
    ensures
        d.subrange(a, b) + d.subrange(b, e) == d.subrange(a, e),
{
    assert(d.subrange(a, b) + d.subrange(b, e) =~= d.subrange(a, e));
}

impl<'a> Cursor<'a> {
    fn new(data: &'a [u8]) -> (c: Self)
        ensures
            c.data@ == data@,
            c.off == 0,
    {
        Cursor { data, off: 0 }
    }

    fn read_u8(&mut self) -> (r: Result<u8, String>)
        requires
            old(self).off <= old(self).data@.len(),
        ensures
            match r {
                Ok(v) => moved_by(*old(self), *final(self), 1) && span(*old(self), *final(self)) == seq![v],
                Err(_) => *final(self) == *old(self) && old(self).off + 1 > old(self).data@.len(),
            },
    {
        if self.off >= self.data.len() {
            return Err(name("读取越界（u8）"));
        }
        let b = self.data[self.off];
        self.off = self.off + 1;
        assert(span(*old(self), *self) =~= seq![b]);
        Ok(b)
    }

    fn read_u16(&mut self) -> (r: Result<u16, String>)
        requires
            old(self).off <= old(self).data@.len(),
        ensures
            match r {
                Ok(v) => moved_by(*old(self), *final(self), 2) && span(*old(self), *final(self)) == le16(v)
                    && v as nat == le_at(old(self).data@, old(self).off as int, 2),
                Err(_) => *final(self) == *old(self) && old(self).off + 2 > old(self).data@.len(),
            },
    {
        if self.data.len() - self.off < 2 {
            return Err(name("读取越界（u16）"));
        }
        let a = self.data[self.off];
        let b = self.data[self.off + 1];
        let v = (a as u16) | ((b as u16) << 8);
        self.off = self.off + 2;
        proof {
            reveal_with_fuel(le_at, 3);
            assert((a as u16) | ((b as u16) << 8u16) == a + 256 * b) by (bit_vector);
            lemma_u16(a, b);
            assert(span(*old(self), *self) =~= seq![a, b]);
        }
        Ok(v)
    }

    fn read_u32(&mut self) -> (r: Result<u32, String>)
        requires
            old(self).off <= old(self).data@.len(),
        ensures
            match r {
                Ok(v) => moved_by(*old(self), *final(self), 4) && span(*old(self), *final(self)) == le32(v)
                    && v as nat == le_at(old(self).data@, old(self).off as int, 4),
                Err(_) => *final(self) == *old(self) && old(self).off + 4 > old(self).data@.len(),
            },
    {
        if self.data.len() - self.off < 4 {
            return Err(name("读取越界（u32）"));
        }
        let o = self.off;
        let a = self.data[o];
        let b = self.data[o + 1];
        let c = self.data[o + 2];
        let d = self.data[o + 3];
        let v = (a as u32) | ((b as u32) << 8) | ((c as u32) << 16) | ((d as u32) << 24);
        self.off = o + 4;
        proof {
            reveal_with_fuel(le_at, 5);
            assert((a as u32) | ((b as u32) << 8u32) | ((c as u32) << 16u32) | ((d as u32) << 24u32)
                == a + 256 * (b + 256 * (c + 256 * d))) by (bit_vector);
            lemma_u32(a, b, c, d);
            assert(span(*old(self), *self) =~= seq![a, b, c, d]);
        }
        Ok(v)
    }

    fn read_u64(&mut self) -> (r: Result<u64, String>)
        requires
            old(self).off <= old(self).data@.len(),
        ensures
            match r {
                Ok(v) => moved_by(*old(self), *final(self), 8) && span(*old(self), *final(self)) == le64(v)
                    && v as nat == le_at(old(self).data@, old(self).off as int, 8),
                Err(_) => *final(self) == *old(self) && old(self).off + 8 > old(self).data@.len(),
            },
    {
        if self.data.len() - self.off < 8 {
            return Err(name("读取越界（u64）"));
        }
        let ghost c0 = *self;
        let lo = match self.read_u32() {
            Ok(x) => x,
            Err(e) => return Err(e),
        };
        let ghost c1 = *self;
        let hi = match self.read_u32() {
            Ok(x) => x,
            Err(e) => return Err(e),
        };
        let v = (lo as u64) | ((hi as u64) << 32);
        proof {
            assert((lo as u64) | ((hi as u64) << 32u64) == lo + 0x1_0000_0000 * hi) by (bit_vector);
            reveal_with_fuel(le_at, 9);
            assert(le_at(c0.data@, c0.off as int, 4) == le_at(c0.data@, c0.off as int, 4));
            lemma_u64(lo, hi);
            lemma_span(c0.data@, c0.off as int, c1.off as int, self.off as int);
        }
        Ok(v)
    }

    fn read_i32(&mut self) -> (r: Result<i32, String>)
        requires
            old(self).off <= old(self).data@.len(),
        ensures
            match r {
                Ok(v) => moved_by(*old(self), *final(self), 4) && span(*old(self), *final(self)) == le32(v as u32)
                    && v as u32 as nat == le_at(old(self).data@, old(self).off as int, 4),
                Err(_) => *final(self) == *old(self) && old(self).off + 4 > old(self).data@.len(),
            },
    {
        let v = self.read_u32()?;
        proof {
            assert((v as i32) as u32 == v) by (bit_vector);
        }
        Ok(v as i32)
    }

    fn read_bytes(&mut self, n: usize) -> (r: Result<Vec<u8>, String>)
        requires
            old(self).off <= old(self).data@.len(),
        ensures
            match r {
                Ok(v) => moved_by(*old(self), *final(self), n as int) && span(*old(self), *final(self)) == v@,
                Err(_) => *final(self) == *old(self) && old(self).off + n > old(self).data@.len(),
            },
    {
        if self.data.len() - self.off < n {
            return Err(name("读取越界（bytes）"));
        }
        let v = crate::util::copy_range(self.data, self.off, self.off + n);
        self.off = self.off + n;
        Ok(v)
    }

    /// A string with a `width`-byte length prefix (1, 2 or 4).
    fn read_str(&mut self, width: u8) -> (r: Result<Node, String>)
        requires
            old(self).off <= old(self).data@.len(),
        ensures
            moved(*old(self), *final(self)),
            width != 1 && width != 2 && width != 4 ==> r is Err,
            r is Ok <==> str_at_w(old(self).data@, old(self).off as int, width) is Some,
            r matches Ok(n) ==> (n matches Node::Str { width: w, .. } && w == width) && node_bytes(n)
                == span(*old(self), *final(self)),
            r matches Ok(n) ==> (n matches Node::Str { bytes, .. } && bytes@ == str_at_w(old(self).data@, old(self).off as int, width).unwrap().0)
                && final(self).off == str_at_w(old(self).data@, old(self).off as int, width).unwrap().1,
    {
        let ghost c0 = *self;
        proof {
            reveal_with_fuel(le_at, 2);
        }
        let size: u32 = if width == 1 {
            let b = self.read_u8()?;
            proof {
                assert(span(c0, *self)[0] == c0.data@[c0.off as int]);
            }
            b as u32
        } else if width == 2 {
            self.read_u16()? as u32
        } else if width == 4 {
            self.read_u32()?
        } else {
            return Err(name("无效字符串宽度"));
        };
        let ghost c1 = *self;
        assert(size as nat == le_at(c0.data@, c0.off as int, width as nat));
        let bytes = self.read_bytes(size as usize)?;
        proof {
            lemma_span(c0.data@, c0.off as int, c1.off as int, self.off as int);
            assert(bytes@.len() == size);
            if width == 1 {
                assert(span(c0, c1) =~= seq![(bytes@.len() as u32) as u8]);
            } else if width == 2 {
                assert(span(c0, c1) == le16((bytes@.len() as u32) as u16));
            }
            assert(str_bytes(width, bytes@) =~= span(c0, c1) + bytes@);
        }
        Ok(Node::Str { width, bytes })
    }
}

/// Appends a named node whose bytes follow those read so far.
fn push_field(
    f: &mut Vec<(String, Node)>,
    nm: String,
    n: Node,
    Ghost(d): Ghost<Seq<u8>>,
    Ghost(a): Ghost<int>,
    Ghost(b): Ghost<int>,
    Ghost(e): Ghost<int>,
)
    requires
        0 <= a <= b <= e <= d.len(),
        fields_bytes(old(f)@) == d.subrange(a, b),
        node_bytes(n) == d.subrange(b, e),
    ensures
        final(f)@ == old(f)@.push((nm, n)),
        fields_bytes(final(f)@) == d.subrange(a, e),
{
    let ghost f0 = f@;
    f.push((nm, n));
    proof {
        assert(f@.drop_last() =~= f0);
        lemma_span(d, a, b, e);
    }
}

/// Appends an unnamed node whose bytes follow those read so far.
fn push_item(
    v: &mut Vec<Node>,
    n: Node,
    Ghost(d): Ghost<Seq<u8>>,
    Ghost(a): Ghost<int>,
    Ghost(b): Ghost<int>,
    Ghost(e): Ghost<int>,
)
    requires
        0 <= a <= b <= e <= d.len(),
        nodes_bytes(old(v)@) == d.subrange(a, b),
        node_bytes(n) == d.subrange(b, e),
    ensures
        final(v)@ == old(v)@.push(n),
        nodes_bytes(final(v)@) == d.subrange(a, e),
{
    let ghost v0 = v@;
    v.push(n);
    proof {
        assert(v@.drop_last() =~= v0);
        lemma_span(d, a, b, e);
    }
}

/// Reads a byte and appends it as the field `nm`.
fn take_u8(c: &mut Cursor, f: &mut Vec<(String, Node)>, nm: String, Ghost(start): Ghost<int>) -> (r: Result<u8, String>)
    requires
        prog(old(f)@, start, *old(c)),
    ensures
        moved(*old(c), *final(c)),
        r is Ok ==> prog(final(f)@, start, *final(c)),
        r matches Ok(v) ==> final(f)@ == old(f)@.push((nm, Node::U8(v))),
        r is Ok <==> old(c).off + 1 <= old(c).data@.len(),
        r matches Ok(v) ==> v == old(c).data@[old(c).off as int] && final(c).off == old(c).off + 1,
{
    let ghost b = c.off as int;
    let v = c.read_u8()?;
    assert(c.data@.subrange(b, b + 1)[0] == c.data@[b]);
    push_field(f, nm, Node::U8(v), Ghost(c.data@), Ghost(start), Ghost(b), Ghost(c.off as int));
    Ok(v)
}

/// Reads a 16-bit number and appends it as the field `nm`.
fn take_u16(c: &mut Cursor, f: &mut Vec<(String, Node)>, nm: String, Ghost(start): Ghost<int>) -> (r: Result<u16, String>)
    requires
        prog(old(f)@, start, *old(c)),
    ensures
        moved(*old(c), *final(c)),
        r is Ok ==> prog(final(f)@, start, *final(c)),
        r matches Ok(v) ==> final(f)@ == old(f)@.push((nm, Node::U16(v))),
        r is Ok <==> old(c).off + 2 <= old(c).data@.len(),
        r matches Ok(v) ==> v as nat == le_at(old(c).data@, old(c).off as int, 2) && final(c).off == old(c).off + 2,
{
    let ghost b = c.off as int;
    let v = c.read_u16()?;
    push_field(f, nm, Node::U16(v), Ghost(c.data@), Ghost(start), Ghost(b), Ghost(c.off as int));
    Ok(v)
}

/// Reads a 32-bit number and appends it as the field `nm`.
fn take_u32(c: &mut Cursor, f: &mut Vec<(String, Node)>, nm: String, Ghost(start): Ghost<int>) -> (r: Result<u32, String>)
    requires
        prog(old(f)@, start, *old(c)),
    ensures
        moved(*old(c), *final(c)),
        r is Ok ==> prog(final(f)@, start, *final(c)),
        r matches Ok(v) ==> final(f)@ == old(f)@.push((nm, Node::U32(v))),
        r is Ok <==> old(c).off + 4 <= old(c).data@.len(),
        r matches Ok(v) ==> v as nat == le_at(old(c).data@, old(c).off as int, 4) && final(c).off == old(c).off + 4,
{
    let ghost b = c.off as int;
    let v = c.read_u32()?;
    push_field(f, nm, Node::U32(v), Ghost(c.data@), Ghost(start), Ghost(b), Ghost(c.off as int));
    Ok(v)
}

/// Reads a signed 32-bit number and appends it as the field `nm`.
fn take_i32(c: &mut Cursor, f: &mut Vec<(String, Node)>, nm: String, Ghost(start): Ghost<int>) -> (r: Result<i32, String>)
    requires
        prog(old(f)@, start, *old(c)),
    ensures
        moved(*old(c), *final(c)),
        r is Ok ==> prog(final(f)@, start, *final(c)),
        r matches Ok(v) ==> final(f)@ == old(f)@.push((nm, Node::I32(v))),
        r is Ok <==> old(c).off + 4 <= old(c).data@.len(),
        r matches Ok(v) ==> v as u32 as nat == le_at(old(c).data@, old(c).off as int, 4) && final(c).off == old(c).off + 4,
{
    let ghost b = c.off as int;
    let v = c.read_i32()?;
    push_field(f, nm, Node::I32(v), Ghost(c.data@), Ghost(start), Ghost(b), Ghost(c.off as int));
    Ok(v)
}

/// Reads a string with a `width`-byte prefix and appends it as the field `nm`.
fn take_str(c: &mut Cursor, f: &mut Vec<(String, Node)>, nm: String, width: u8, Ghost(start): Ghost<int>) -> (r: Result<(), String>)
    requires
        prog(old(f)@, start, *old(c)),
    ensures
        moved(*old(c), *final(c)),
        r is Ok ==> prog(final(f)@, start, *final(c)),
        r is Ok <==> str_at_w(old(c).data@, old(c).off as int, width) is Some,
        r is Ok ==> one_more(old(f)@, final(f)@, nm) && final(c).off == str_at_w(old(c).data@, old(c).off as int, width).unwrap().1
            && (final(f)@.last().1 matches Node::Str { width: w, bytes } && w == width
                && bytes@ == str_at_w(old(c).data@, old(c).off as int, width).unwrap().0),
{
    let ghost b = c.off as int;
    let n = c.read_str(width)?;
    let ghost f0 = f@;
    push_field(f, nm, n, Ghost(c.data@), Ghost(start), Ghost(b), Ghost(c.off as int));
    assert(f@.drop_last() =~= f0);
    Ok(())
}

/// Appends the named node `n`, read from `mid` up to the cursor.
fn put_field(c: &Cursor, f: &mut Vec<(String, Node)>, nm: String, n: Node, Ghost(start): Ghost<int>, Ghost(mid): Ghost<int>)
    requires
        0 <= start <= mid <= c.off <= c.data@.len(),
        fields_bytes(old(f)@) == c.data@.subrange(start, mid),
        node_bytes(n) == c.data@.subrange(mid, c.off as int),
    ensures
        prog(final(f)@, start, *c),
        final(f)@ == old(f)@.push((nm, n)),
{
    push_field(f, nm, n, Ghost(c.data@), Ghost(start), Ghost(mid), Ghost(c.off as int));
}

/// Reads a byte into a list.
fn item_u8(c: &mut Cursor, v: &mut Vec<Node>, Ghost(start): Ghost<int>) -> (r: Result<u8, String>)
    requires
        lprog(old(v)@, start, *old(c)),
    ensures
        moved(*old(c), *final(c)),
        r is Ok ==> lprog(final(v)@, start, *final(c)),
        r is Ok <==> old(c).off + 1 <= old(c).data@.len(),
        r matches Ok(x) ==> x == old(c).data@[old(c).off as int] && final(v)@ == old(v)@.push(Node::U8(x))
            && final(c).off == old(c).off + 1,
{
    let ghost b = c.off as int;
    let x = c.read_u8()?;
    assert(c.data@.subrange(b, b + 1)[0] == c.data@[b]);
    push_item(v, Node::U8(x), Ghost(c.data@), Ghost(start), Ghost(b), Ghost(c.off as int));
    Ok(x)
}

/// Reads a 32-bit number into a list.
fn item_u32(c: &mut Cursor, v: &mut Vec<Node>, Ghost(start): Ghost<int>) -> (r: Result<u32, String>)
    requires
        lprog(old(v)@, start, *old(c)),
    ensures
        moved(*old(c), *final(c)),
        r is Ok ==> lprog(final(v)@, start, *final(c)) && final(c).off == old(c).off + 4,
        r is Ok <==> old(c).off + 4 <= old(c).data@.len(),
        r matches Ok(x) ==> x as nat == le_at(old(c).data@, old(c).off as int, 4) && final(v)@ == old(v)@.push(Node::U32(x)),
{
    let ghost b = c.off as int;
    let x = c.read_u32()?;
    push_item(v, Node::U32(x), Ghost(c.data@), Ghost(start), Ghost(b), Ghost(c.off as int));
    Ok(x)
}

/// Reads a 64-bit number into a list.
fn item_u64(c: &mut Cursor, v: &mut Vec<Node>, Ghost(start): Ghost<int>) -> (r: Result<u64, String>)
    requires
        lprog(old(v)@, start, *old(c)),
    ensures
        moved(*old(c), *final(c)),
        r is Ok ==> lprog(final(v)@, start, *final(c)),
        r is Ok <==> old(c).off + 8 <= old(c).data@.len(),
        r matches Ok(x) ==> x as nat == le_at(old(c).data@, old(c).off as int, 8) && final(v)@ == old(v)@.push(Node::U64(x))
            && final(c).off == old(c).off + 8,
{
    let ghost b = c.off as int;
    let x = c.read_u64()?;
    push_item(v, Node::U64(x), Ghost(c.data@), Ghost(start), Ghost(b), Ghost(c.off as int));
    Ok(x)
}

/// Reads a string into a list.
fn item_str(c: &mut Cursor, v: &mut Vec<Node>, width: u8, Ghost(start): Ghost<int>) -> (r: Result<(), String>)
    requires
        lprog(old(v)@, start, *old(c)),
    ensures
        moved(*old(c), *final(c)),
        r is Ok ==> lprog(final(v)@, start, *final(c)),
        r is Ok <==> str_at_w(old(c).data@, old(c).off as int, width) is Some,
        r is Ok ==> final(v)@.len() == old(v)@.len() + 1 && final(v)@.drop_last() == old(v)@
            && final(c).off == str_at_w(old(c).data@, old(c).off as int, width).unwrap().1
            && (final(v)@.last() matches Node::Str { width: w, bytes } && w == width
                && bytes@ == str_at_w(old(c).data@, old(c).off as int, width).unwrap().0),
{
    let ghost b = c.off as int;
    let n = c.read_str(width)?;
    let ghost v0 = v@;
    push_item(v, n, Ghost(c.data@), Ghost(start), Ghost(b), Ghost(c.off as int));
    assert(v@.drop_last() =~= v0);
    Ok(())
}

/// Appends a node read from `mid` up to the cursor to a list.
fn put_item(c: &Cursor, v: &mut Vec<Node>, n: Node, Ghost(start): Ghost<int>, Ghost(mid): Ghost<int>)
    requires
        0 <= start <= mid <= c.off <= c.data@.len(),
        nodes_bytes(old(v)@) == c.data@.subrange(start, mid),
        node_bytes(n) == c.data@.subrange(mid, c.off as int),
    ensures
        lprog(final(v)@, start, *c),
        final(v)@ == old(v)@.push(n),
{
    push_item(v, n, Ghost(c.data@), Ghost(start), Ghost(mid), Ghost(c.off as int));
}

/// `n` 32-bit numbers as a list field named `nm`.
fn take_u32_list(c: &mut Cursor, f: &mut Vec<(String, Node)>, nm: String, n: u32, Ghost(start): Ghost<int>) -> (r: Result<(), String>)
    requires
        prog(old(f)@, start, *old(c)),
    ensures
        moved(*old(c), *final(c)),
        r is Ok ==> prog(final(f)@, start, *final(c)),
        r is Ok <==> old(c).off + 4 * n <= old(c).data@.len(),
        r is Ok ==> one_more(old(f)@, final(f)@, nm) && final(c).off == old(c).off + 4 * n
            && num_list(final(f)@.last().1, old(c).data@, old(c).off as int, n as nat, 4),
{
    let ghost mid = c.off as int;
    let mut v: Vec<Node> = Vec::new();
    assert(c.data@.subrange(mid, mid) =~= Seq::<u8>::empty());
    let mut i: u32 = 0;
    while i < n
        invariant
            moved(*old(c), *c),
            lprog(v@, mid, *c),
            mid == old(c).off,
            i <= n,
            c.off == mid + 4 * i,
            v@.len() == i,
            forall|k: int| 0 <= k < i ==> #[trigger] v@[k] == num_node(c.data@, mid + 4 * k, 4),
        decreases n - i,
    {
        let ghost v0 = v@;
        item_u32(c, &mut v, Ghost(mid))?;
        proof {
            assert(v@[i as int] == num_node(c.data@, mid + 4 * i, 4));
            assert forall|k: int| 0 <= k < i + 1 implies #[trigger] v@[k] == num_node(c.data@, mid + 4 * k, 4) by {
                if k < i { assert(v@[k] == v0[k]); }
            }
        }
        i = i + 1;
    }
    let ghost f0 = f@;
    put_field(c, f, nm, Node::List(v), Ghost(start), Ghost(mid));
    assert(f@.drop_last() =~= f0);
    Ok(())
}

/// `n` strings with `width`-byte prefixes as a list field named `nm`.
fn take_str_list(c: &mut Cursor, f: &mut Vec<(String, Node)>, nm: String, n: u32, width: u8, Ghost(start): Ghost<int>) -> (r: Result<(), String>)
    requires
        prog(old(f)@, start, *old(c)),
    ensures
        moved(*old(c), *final(c)),
        r is Ok ==> prog(final(f)@, start, *final(c)),
        r is Ok <==> strs_end(old(c).data@, old(c).off as int, n as nat, width) is Some,
        r is Ok ==> one_more(old(f)@, final(f)@, nm)
            && final(c).off == strs_end(old(c).data@, old(c).off as int, n as nat, width).unwrap()
            && str_list(final(f)@.last().1, n as nat, width),
{
    let ghost mid = c.off as int;
    let mut v: Vec<Node> = Vec::new();
    assert(c.data@.subrange(mid, mid) =~= Seq::<u8>::empty());
    let mut i: u32 = 0;
    while i < n
        invariant
            moved(*old(c), *c),
            lprog(v@, mid, *c),
            mid == old(c).off,
            i <= n,
            strs_end(c.data@, c.off as int, (n - i) as nat, width) == strs_end(c.data@, mid, n as nat, width),
            v@.len() == i,
            forall|k: int| 0 <= k < i ==> (#[trigger] v@[k] matches Node::Str { width: w, .. } && w == width),
        decreases n - i,
    {
        let ghost v0 = v@;
        item_str(c, &mut v, width, Ghost(mid))?;
        proof {
            assert forall|k: int| 0 <= k < i + 1 implies (#[trigger] v@[k] matches Node::Str { width: w, .. } && w == width) by {
                if k < i { assert(v@[k] == v0[k]); }
            }
        }
        i = i + 1;
    }
    let ghost f0 = f@;
    put_field(c, f, nm, Node::List(v), Ghost(start), Ghost(mid));
    assert(f@.drop_last() =~= f0);
    Ok(())
}

/// 32-bit numbers named `prefix` followed by `first`, `first + 1`, ..., `last`.
fn take_u32_run(c: &mut Cursor, f: &mut Vec<(String, Node)>, prefix: &str, first: u32, last: u32, Ghost(start): Ghost<int>) -> (r: Result<(), String>)
    requires
        prog(old(f)@, start, *old(c)),
        last < 1000,
    ensures
        moved(*old(c), *final(c)),
        r is Ok ==> prog(final(f)@, start, *final(c)),
        r is Ok <==> old(c).off + 4 * run_len(first as int, last as int) <= old(c).data@.len(),
        r is Ok ==> final(c).off == old(c).off + 4 * run_len(first as int, last as int)
            && num_run(old(f)@, final(f)@, prefix@, first, run_len(first as int, last as int), old(c).data@, old(c).off as int, 4),
{
    let mut i = first;
    let ghost o = c.off as int;
    let ghost n0 = f@.len();
    assert(f@.subrange(0, n0 as int) =~= f@);
    while i <= last
        invariant
            moved(*old(c), *c),
            prog(f@, start, *c),
            last < 1000,
            o == old(c).off,
            n0 == old(f)@.len(),
            first <= i,
            i <= last + 1 || i == first,
            c.off == o + 4 * ((i - first) as nat),
            num_run(old(f)@, f@, prefix@, first, ((i - first) as nat), c.data@, o, 4),
        decreases last + 1 - i,
    {
        let ghost f0 = f@;
        let ghost k = ((i - first) as nat);
        take_u32(c, f, numbered(prefix, i), Ghost(start))?;
        proof {
            assert((i + 1 - first) as nat == k + 1);
            assert(f@.subrange(0, n0 as int) =~= f0.subrange(0, n0 as int));
            assert forall|j: int| 0 <= j < k + 1 implies (#[trigger] f@[n0 + j]).0@ == prefix@ + dec_chars((first + j) as nat)
                && f@[n0 + j].1 == num_node(c.data@, o + 4 * j, 4) by {
                if j < k {
                    assert(f@[n0 + j] == f0[n0 + j]);
                }
            }
        }
        i = i + 1;
    }
    Ok(())
}

/// 16-bit numbers named `prefix` followed by `first` ... `last`.
fn take_u16_run(c: &mut Cursor, f: &mut Vec<(String, Node)>, prefix: &str, first: u32, last: u32, Ghost(start): Ghost<int>) -> (r: Result<(), String>)
    requires
        prog(old(f)@, start, *old(c)),
        last < 1000,
    ensures
        moved(*old(c), *final(c)),
        r is Ok ==> prog(final(f)@, start, *final(c)),
        r is Ok <==> old(c).off + 2 * run_len(first as int, last as int) <= old(c).data@.len(),
        r is Ok ==> final(c).off == old(c).off + 2 * run_len(first as int, last as int)
            && num_run(old(f)@, final(f)@, prefix@, first, run_len(first as int, last as int), old(c).data@, old(c).off as int, 2),
{
    let mut i = first;
    let ghost o = c.off as int;
    let ghost n0 = f@.len();
    assert(f@.subrange(0, n0 as int) =~= f@);
    while i <= last
        invariant
            moved(*old(c), *c),
            prog(f@, start, *c),
            last < 1000,
            o == old(c).off,
            n0 == old(f)@.len(),
            first <= i,
            i <= last + 1 || i == first,
            c.off == o + 2 * ((i - first) as nat),
            num_run(old(f)@, f@, prefix@, first, ((i - first) as nat), c.data@, o, 2),
        decreases last + 1 - i,
    {
        let ghost f0 = f@;
        let ghost k = ((i - first) as nat);
        take_u16(c, f, numbered(prefix, i), Ghost(start))?;
        proof {
            assert((i + 1 - first) as nat == k + 1);
            assert(f@.subrange(0, n0 as int) =~= f0.subrange(0, n0 as int));
            assert forall|j: int| 0 <= j < k + 1 implies (#[trigger] f@[n0 + j]).0@ == prefix@ + dec_chars((first + j) as nat)
                && f@[n0 + j].1 == num_node(c.data@, o + 2 * j, 2) by {
                if j < k {
                    assert(f@[n0 + j] == f0[n0 + j]);
                }
            }
        }
        i = i + 1;
    }
    Ok(())
}

/// Bytes named `prefix` followed by `first` ... `last`.
fn take_u8_run(c: &mut Cursor, f: &mut Vec<(String, Node)>, prefix: &str, first: u32, last: u32, Ghost(start): Ghost<int>) -> (r: Result<(), String>)
    requires
        prog(old(f)@, start, *old(c)),
        last < 1000,
    ensures
        moved(*old(c), *final(c)),
        r is Ok ==> prog(final(f)@, start, *final(c)),
        r is Ok <==> old(c).off + 1 * run_len(first as int, last as int) <= old(c).data@.len(),
        r is Ok ==> final(c).off == old(c).off + 1 * run_len(first as int, last as int)
            && num_run(old(f)@, final(f)@, prefix@, first, run_len(first as int, last as int), old(c).data@, old(c).off as int, 1),
{
    let mut i = first;
    let ghost o = c.off as int;
    let ghost n0 = f@.len();
    assert(f@.subrange(0, n0 as int) =~= f@);
    while i <= last
        invariant
            moved(*old(c), *c),
            prog(f@, start, *c),
            last < 1000,
            o == old(c).off,
            n0 == old(f)@.len(),
            first <= i,
            i <= last + 1 || i == first,
            c.off == o + 1 * ((i - first) as nat),
            num_run(old(f)@, f@, prefix@, first, ((i - first) as nat), c.data@, o, 1),
        decreases last + 1 - i,
    {
        let ghost f0 = f@;
        let ghost k = ((i - first) as nat);
        take_u8(c, f, numbered(prefix, i), Ghost(start))?;
        proof {
            assert((i + 1 - first) as nat == k + 1);
            assert(f@.subrange(0, n0 as int) =~= f0.subrange(0, n0 as int));
            assert forall|j: int| 0 <= j < k + 1 implies (#[trigger] f@[n0 + j]).0@ == prefix@ + dec_chars((first + j) as nat)
                && f@[n0 + j].1 == num_node(c.data@, o + 1 * j, 1) by {
                if j < k {
                    assert(f@[n0 + j] == f0[n0 + j]);
                }
            }
        }
        i = i + 1;
    }
    Ok(())
}


/// An empty field list starting at the cursor.
fn begin(c: &Cursor) -> (f: Vec<(String, Node)>)
    requires
        c.off <= c.data@.len(),
    ensures
        f@.len() == 0,
        prog(f@, c.off as int, *c),
{
    assert(c.data@.subrange(c.off as int, c.off as int) =~= Seq::<u8>::empty());
    Vec::new()
}

/// An empty list starting at the cursor.
fn begin_list(c: &Cursor) -> (v: Vec<Node>)
    requires
        c.off <= c.data@.len(),
    ensures
        v@.len() == 0,
        lprog(v@, c.off as int, *c),
{
    assert(c.data@.subrange(c.off as int, c.off as int) =~= Seq::<u8>::empty());
    Vec::new()
}

/// `n` bytes as a list field named `nm`.
fn take_u8_list(c: &mut Cursor, f: &mut Vec<(String, Node)>, nm: String, n: u32, Ghost(start): Ghost<int>) -> (r: Result<(), String>)
    requires
        prog(old(f)@, start, *old(c)),
    ensures
        moved(*old(c), *final(c)),
        r is Ok ==> prog(final(f)@, start, *final(c)),
        r is Ok <==> old(c).off + 1 * n <= old(c).data@.len(),
        r is Ok ==> one_more(old(f)@, final(f)@, nm) && final(c).off == old(c).off + 1 * n
            && num_list(final(f)@.last().1, old(c).data@, old(c).off as int, n as nat, 1),
{
    let ghost mid = c.off as int;
    let mut v = begin_list(c);
    let mut i: u32 = 0;
    while i < n
        invariant
            moved(*old(c), *c),
            lprog(v@, mid, *c),
            mid == old(c).off,
            i <= n,
            c.off == mid + 1 * i,
            v@.len() == i,
            forall|k: int| 0 <= k < i ==> #[trigger] v@[k] == num_node(c.data@, mid + 1 * k, 1),
        decreases n - i,
    {
        let ghost v0 = v@;
        item_u8(c, &mut v, Ghost(mid))?;
        proof {
            assert(v@[i as int] == num_node(c.data@, mid + 1 * i, 1));
            assert forall|k: int| 0 <= k < i + 1 implies #[trigger] v@[k] == num_node(c.data@, mid + 1 * k, 1) by {
                if k < i { assert(v@[k] == v0[k]); }
            }
        }
        i = i + 1;
    }
    let ghost f0 = f@;
    put_field(c, f, nm, Node::List(v), Ghost(start), Ghost(mid));
    assert(f@.drop_last() =~= f0);
    Ok(())
}

/// `n` 64-bit numbers as a list field named `nm`.
fn take_u64_list(c: &mut Cursor, f: &mut Vec<(String, Node)>, nm: String, n: u32, Ghost(start): Ghost<int>) -> (r: Result<(), String>)
    requires
        prog(old(f)@, start, *old(c)),
    ensures
        moved(*old(c), *final(c)),
        r is Ok ==> prog(final(f)@, start, *final(c)),
        r is Ok <==> old(c).off + 8 * n <= old(c).data@.len(),
        r is Ok ==> one_more(old(f)@, final(f)@, nm) && final(c).off == old(c).off + 8 * n
            && num_list(final(f)@.last().1, old(c).data@, old(c).off as int, n as nat, 8),
{
    let ghost mid = c.off as int;
    let mut v = begin_list(c);
    let mut i: u32 = 0;
    while i < n
        invariant
            moved(*old(c), *c),
            lprog(v@, mid, *c),
            mid == old(c).off,
            i <= n,
            c.off == mid + 8 * i,
            v@.len() == i,
            forall|k: int| 0 <= k < i ==> #[trigger] v@[k] == num_node(c.data@, mid + 8 * k, 8),
        decreases n - i,
    {
        let ghost v0 = v@;
        item_u64(c, &mut v, Ghost(mid))?;
        proof {
            assert(v@[i as int] == num_node(c.data@, mid + 8 * i, 8));
            assert forall|k: int| 0 <= k < i + 1 implies #[trigger] v@[k] == num_node(c.data@, mid + 8 * k, 8) by {
                if k < i { assert(v@[k] == v0[k]); }
            }
        }
        i = i + 1;
    }
    let ghost f0 = f@;
    put_field(c, f, nm, Node::List(v), Ghost(start), Ghost(mid));
    assert(f@.drop_last() =~= f0);
    Ok(())
}

/// `n` raw bytes as a field named `nm`.
fn take_bytes(c: &mut Cursor, f: &mut Vec<(String, Node)>, nm: String, n: usize, Ghost(start): Ghost<int>) -> (r: Result<(), String>)
    requires
        prog(old(f)@, start, *old(c)),
    ensures
        moved(*old(c), *final(c)),
        r is Ok ==> prog(final(f)@, start, *final(c)),
        r is Ok <==> old(c).off + n <= old(c).data@.len(),
        r is Ok ==> one_more(old(f)@, final(f)@, nm) && final(c).off == old(c).off + n
            && (final(f)@.last().1 matches Node::Bytes(b) && b@ == old(c).data@.subrange(old(c).off as int, old(c).off + n)),
{
    let ghost b = c.off as int;
    let v = c.read_bytes(n)?;
    let ghost f0 = f@;
    put_field(c, f, nm, Node::Bytes(v), Ghost(start), Ghost(b));
    assert(f@.drop_last() =~= f0);
    Ok(())
}

/// Count of a list whose count field is read as a signed number: none when not positive.
fn positive(n: u32) -> (r: u32)
    ensures
        r == (if (n as i32) > 0 { n } else { 0 }),
        r == pos_count(n as nat),
{
    assert(((n as i32) > 0) == (0 < n && n < 0x8000_0000)) by (bit_vector);
    if (n as i32) > 0 { n } else { 0 }
}

/// SavePart1_1_1_1: u8, u8 count, that many u32, u8 count, that many u8.
fn parse_sp1_1_1_1(c: &mut Cursor) -> (r: Result<Vec<(String, Node)>, String>)
    requires
        old(c).off <= old(c).data@.len(),
    ensures
        seg_ok(*old(c), *final(c), r),
        r is Ok <==> sp1111_end(old(c).data@, old(c).off as int) is Some,
        r is Ok ==> final(c).off == sp1111_end(old(c).data@, old(c).off as int).unwrap(),
{
    proof {
        reveal_with_fuel(le_at, 2);
    }
    let ghost start = c.off as int;
    let mut f = begin(c);
    take_u8(c, &mut f, name("var1"), Ghost(start))?;
    let n2 = take_u8(c, &mut f, name("var2"), Ghost(start))?;
    take_u32_list(c, &mut f, name("vars1"), n2 as u32, Ghost(start))?;
    let n3 = take_u8(c, &mut f, name("var3"), Ghost(start))?;
    take_u8_list(c, &mut f, name("vars2"), n3 as u32, Ghost(start))?;
    Ok(f)
}

/// SavePart1_1_1: six u8, a u32 count (at most 0x10000) and that many SavePart1_1_1_1.
fn parse_sp1_1_1(c: &mut Cursor) -> (r: Result<Vec<(String, Node)>, String>)
    requires
        old(c).off <= old(c).data@.len(),
    ensures
        seg_ok(*old(c), *final(c), r),
        r is Ok <==> sp111_end(old(c).data@, old(c).off as int) is Some,
        r is Ok ==> final(c).off == sp111_end(old(c).data@, old(c).off as int).unwrap(),
{
    let ghost start = c.off as int;
    let mut f = begin(c);
    take_u8_run(c, &mut f, "var", 1, 6, Ghost(start))?;
    let n = take_u32(c, &mut f, name("var7"), Ghost(start))?;
    if n > 0x10000 {
        return Err(fmt_num("SavePart1_1_1 元素数异常（", n as u128, " > 0x10000）"));
    }
    let ghost mid = c.off as int;
    let mut items = begin_list(c);
    let mut i: u32 = 0;
    while i < n
        invariant
            moved(*old(c), *c),
            lprog(items@, mid, *c),
            i <= n,
            sp1111s_end(c.data@, c.off as int, (n - i) as nat) == sp1111s_end(c.data@, mid, n as nat),
            sp111_end(old(c).data@, old(c).off as int) == sp1111s_end(c.data@, mid, n as nat),
        decreases n - i,
    {
        let ghost b = c.off as int;
        let sub = parse_sp1_1_1_1(c)?;
        put_item(c, &mut items, Node::Sec(sub), Ghost(mid), Ghost(b));
        i = i + 1;
    }
    put_field(c, &mut f, name("items"), Node::List(items), Ghost(start), Ghost(mid));
    Ok(f)
}

/// SavePart1_1: the data block of one character.
#[verifier::rlimit(40)]
fn parse_sp1_1(c: &mut Cursor, version: u16) -> (r: Result<Vec<(String, Node)>, String>)
    requires
        old(c).off <= old(c).data@.len(),
    ensures
        seg_ok(*old(c), *final(c), r),
        r is Ok <==> sp11_end(old(c).data@, old(c).off as int, version) is Some,
        r is Ok ==> final(c).off == sp11_end(old(c).data@, old(c).off as int, version).unwrap(),
{
    proof {
        reveal(sp11_end);
    }
    let ghost start = c.off as int;
    let mut f = begin(c);
    take_u32_run(c, &mut f, "var", 1, 4, Ghost(start))?;
    take_u8(c, &mut f, name("var5"), Ghost(start))?;
    take_u32(c, &mut f, name("var6"), Ghost(start))?;
    take_str(c, &mut f, name("md1"), 2, Ghost(start))?;
    take_u16_run(c, &mut f, "var", 7, 10, Ghost(start))?;
    take_u8_run(c, &mut f, "var", 11, 12, Ghost(start))?;
    let ghost b = c.off as int;
    let sub = parse_sp1_1_1(c)?;
    put_field(c, &mut f, name("sp1"), Node::Sec(sub), Ghost(start), Ghost(b));
    let ghost b = c.off as int;
    let sub = parse_sp1_1_1(c)?;
    put_field(c, &mut f, name("sp2"), Node::Sec(sub), Ghost(start), Ghost(b));
    take_u16_run(c, &mut f, "var", 13, 18, Ghost(start))?;
    take_u8_run(c, &mut f, "var", 19, 21, Ghost(start))?;
    let n = take_u32(c, &mut f, name("var22"), Ghost(start))?;
    take_u32_list(c, &mut f, name("vars1"), n, Ghost(start))?;
    if version >= 0x70 {
        take_u8_run(c, &mut f, "var", 23, 24, Ghost(start))?;
    }
    if version >= 0x73 {
        take_u32_run(c, &mut f, "var", 25, 28, Ghost(start))?;
    }
    if version >= 0x78 {
        take_u32(c, &mut f, name("var29"), Ghost(start))?;
    }
    if version >= 0x85 {
        take_u32_run(c, &mut f, "var", 30, 32, Ghost(start))?;
    }
    if version >= 0x8A {
        let n = take_u16(c, &mut f, name("var33"), Ghost(start))?;
        assert(((n as i16) > 0) == (0 < n && n < 0x8000)) by (bit_vector);
        let cnt: u32 = if (n as i16) > 0 { n as u32 } else { 0 };
        take_str_list(c, &mut f, name("mds1"), cnt, 2, Ghost(start))?;
        take_u32(c, &mut f, name("var34"), Ghost(start))?;
        take_u8(c, &mut f, name("var35"), Ghost(start))?;
        take_u32_run(c, &mut f, "var", 36, 37, Ghost(start))?;
    }
    if version >= 0x8B {
        take_u32(c, &mut f, name("var38"), Ghost(start))?;
    }
    if version >= 0x8C {
        take_u32(c, &mut f, name("var39"), Ghost(start))?;
    }
    Ok(f)
}

/// SavePart1, the first data segment.
#[verifier::rlimit(90)]
fn parse_save_part1(c: &mut Cursor, version: u16) -> (r: Result<Vec<(String, Node)>, String>)
    requires
        old(c).off <= old(c).data@.len(),
    ensures
        seg_ok(*old(c), *final(c), r),
        r is Ok <==> part1_end(old(c).data@, old(c).off as int, version) is Some,
        r is Ok ==> final(c).off == part1_end(old(c).data@, old(c).off as int, version).unwrap(),
{
    proof {
        reveal(part1_end);
    }
    let ghost start = c.off as int;
    let mut f = begin(c);
    take_u32_run(c, &mut f, "var", 1, 3, Ghost(start))?;
    if version >= 0x69 {
        let var4 = take_u32(c, &mut f, name("var4"), Ghost(start))?;
        let var5 = take_u32(c, &mut f, name("var5"), Ghost(start))?;
        let ghost b = c.off as int;
        let mut v = begin_list(c);
        let peek = c.read_u32()?;
        if peek != 0xffff_ffffu32 {
            let t1: u128 = 3 * (var4 as u128);
            assert(t1 * (var5 as u128) <= 3 * 0xffff_ffffu128 * 0xffff_ffffu128) by (nonlinear_arith)
                requires
                    t1 <= 3 * 0xffff_ffffu128,
                    var5 <= 0xffff_ffffu32,
            ;
            let total: u128 = t1 * (var5 as u128);
            if total > 0x2000_0000 {
                return Err(fmt_num("SavePart1 三维数组尺寸异常（", total, "）"));
            }
            put_item(c, &mut v, Node::U32(peek), Ghost(b), Ghost(b));
            let total64 = total as u64;
            let mut i: u64 = 1;
            while i < total64
                invariant
                    moved(*old(c), *c),
                    lprog(v@, b, *c),
                    i >= 1,
                    part1_end(old(c).data@, old(c).off as int, version) == part1_rest(c.data@,
                        adv(c.data@, Some(c.off as int), (4 * (if total64 >= i { total64 - i } else { 0 })) as nat), version),
                decreases total64 - i,
            {
                item_u32(c, &mut v, Ghost(b))?;
                i = i + 1;
            }
            put_field(c, &mut f, name("vars1"), Node::List(v), Ghost(start), Ghost(b));
        } else {
            put_field(c, &mut f, name("var6"), Node::U32(peek), Ghost(start), Ghost(b));
        }
    }
    take_str(c, &mut f, name("md1"), 4, Ghost(start))?;
    let n_str: u32 = if version >= 0x8A {
        31
    } else if version >= 0x73 {
        15
    } else {
        7
    };
    take_str_list(c, &mut f, name("mds1"), n_str, 4, Ghost(start))?;
    let n7 = take_u32(c, &mut f, name("var7"), Ghost(start))?;
    if version >= 0x64 {
        take_u32_list(c, &mut f, name("vars2"), positive(n7), Ghost(start))?;
    } else {
        take_u8_list(c, &mut f, name("vars2"), positive(n7), Ghost(start))?;
    }
    let n8 = take_u32(c, &mut f, name("var8"), Ghost(start))?;
    let n8 = positive(n8);
    let ghost mid = c.off as int;
    let mut items = begin_list(c);
    let mut i: u32 = 0;
    while i < n8
        invariant
            moved(*old(c), *c),
            lprog(items@, mid, *c),
            i <= n8,
            part1_end(old(c).data@, old(c).off as int, version) == part1_tail(c.data@,
                sp11s_end(c.data@, c.off as int, (n8 - i) as nat, version), version),
        decreases n8 - i,
    {
        let ghost b = c.off as int;
        let sub = parse_sp1_1(c, version)?;
        put_item(c, &mut items, Node::Sec(sub), Ghost(mid), Ghost(b));
        i = i + 1;
    }
    put_field(c, &mut f, name("items"), Node::List(items), Ghost(start), Ghost(mid));
    if version >= 0x72 {
        take_u32_run(c, &mut f, "var", 9, 19, Ghost(start))?;
    }
    let n20 = take_u32(c, &mut f, name("var20"), Ghost(start))?;
    take_u32_list(c, &mut f, name("vars3"), positive(n20), Ghost(start))?;
    Ok(f)
}


/// SavePart2, the second data segment (system and screen state).
/// The fields of a SavePart2 read first, for a file `version`.
pub open spec fn p2_head_shape(version: u16) -> Seq<(Seq<char>, FieldShape)> {
    let v = "var"@;
    let a = run_shape(v, 1, 2, 1) + run_shape(v, 3, 19, 4) + run_shape(v, 22, 3, 2) + seq![("var25"@, FieldShape::Num(4))]
        + run_shape(v, 26, 3, 2) + run_shape(v, 29, 9, 4) + seq![("var38"@, FieldShape::Num(1)), ("var39"@, FieldShape::Num(2))]
        + run_shape(v, 40, 2, 4) + run_shape(v, 42, 4, 2) + run_shape(v, 46, 3, 4) + seq![("var49"@, FieldShape::Num(1))];
    let b = if version <= 96 { a + seq![("var50"@, FieldShape::Num(4))] } else { a };
    let c = b + seq![("var51"@, FieldShape::Num(4))];
    let d = if version >= 98 { c + run_shape(v, 52, 2, 4) } else { c };
    let e = if version >= 100 {
        d + run_shape(v, 54, 2, 4) + seq![
            ("var56"@, FieldShape::Num(1)),
            ("var57"@, FieldShape::Num(4)),
            ("mds1"@, FieldShape::StrsAfter(4)),
            ("var58"@, FieldShape::Num(4)),
            ("vars1"@, FieldShape::NumsAfter(4)),
        ] + run_shape(v, 59, 5, 4)
    } else {
        d
    };
    let g = if version >= 101 { e + run_shape(v, 64, 6, 4) } else { e };
    if version >= 102 { g + seq![("var70"@, FieldShape::Num(2))] } else { g }
}

/// `acc` followed by the fields of a SavePart2 of versions 103 to 119.
pub open spec fn p2_mid_from(version: u16, acc: Seq<(Seq<char>, FieldShape)>) -> Seq<(Seq<char>, FieldShape)> {
    let v = "var"@;
    let a = if version >= 103 { acc.push(("md1"@, FieldShape::Str(2))).push(("md2"@, FieldShape::Str(2))) } else { acc };
    let b = if version >= 104 { a.push(("var71"@, FieldShape::Num(4))) } else { a };
    let c = if version >= 106 { b + run_shape(v, 72, 3, 4) } else { b };
    let d = if version >= 108 {
        ((c.push(("md3"@, FieldShape::Str(2))) + run_shape(v, 75, 3, 4)).push(("md4"@, FieldShape::Str(2)))) + run_shape(v, 78, 3, 4)
    } else {
        c
    };
    let e = if version >= 109 {
        d.push(("md5"@, FieldShape::Str(2))).push(("md6"@, FieldShape::Str(2))).push(("var81"@, FieldShape::Num(1)))
    } else {
        d
    };
    let g = if version >= 110 { e.push(("var82"@, FieldShape::Num(1))) } else { e };
    if version >= 119 {
        g.push(("md7"@, FieldShape::Str(2))).push(("md8"@, FieldShape::Str(2))).push(("md9"@, FieldShape::Str(2)))
    } else {
        g
    }
}

/// One 32-bit field `nm` when `on`.
pub open spec fn opt_u32(on: bool, nm: Seq<char>) -> Seq<(Seq<char>, FieldShape)> {
    if on { seq![(nm, FieldShape::Num(4))] } else { seq![] }
}

/// The fields of a SavePart2 of versions 121 to 137.
pub open spec fn p2_late_shape(version: u16) -> Seq<(Seq<char>, FieldShape)> {
    let v = "var"@;
    let a = opt_u32(version >= 121, "var83"@) + opt_u32(version >= 122, "var84"@) + opt_u32(version >= 124, "var85"@)
        + opt_u32(version >= 126, "var86"@) + opt_u32(version >= 128, "var87"@);
    let b = if version >= 129 { a + run_shape(v, 88, 2, 4) } else { a };
    let c = b + opt_u32(version >= 130, "var90"@) + opt_u32(version >= 131, "var91"@);
    let d = if version >= 132 { c + run_shape(v, 92, 4, 4) } else { c };
    let e = if version >= 134 { d + seq![("var96"@, FieldShape::Num(1))] } else { d };
    let g = if version >= 136 { e + seq![("var97"@, FieldShape::Num(1))] } else { e };
    if version >= 137 { g + run_shape(v, 98, 4, 4) + seq![("vars2"@, FieldShape::Nums(24, 4))] } else { g }
}

/// The fields of a SavePart2 from version 0x8A on.
pub open spec fn p2_last_shape(version: u16) -> Seq<(Seq<char>, FieldShape)> {
    let v = "var"@;
    let a = if version >= 0x8A {
        run_shape(v, 102, 4, 4) + seq![
            ("md10"@, FieldShape::Str(4)),
            ("var106"@, FieldShape::Num(4)),
            ("mds2"@, FieldShape::StrsAfter(4)),
        ]
    } else {
        seq![]
    };
    let b = if version >= 0x8D {
        a + run_shape(v, 107, 14, 1) + seq![("bytes1"@, FieldShape::Raw(0x100))] + run_shape(v, 121, 2, 1)
    } else {
        a
    };
    b + opt_u32(version >= 0x8E, "var123"@)
}

/// The fields of a SavePart2 of a file `version`, by name and shape.
pub open spec fn p2_shape(version: u16) -> Seq<(Seq<char>, FieldShape)> {
    p2_mid_from(version, p2_head_shape(version)) + p2_late_shape(version) + p2_last_shape(version)
}

/// Reads the fields of SavePart2 up to `var70`.
#[verifier::rlimit(100)]
#[verifier::spinoff_prover]
fn part2_head(c: &mut Cursor, f: &mut Vec<(String, Node)>, version: u16, Ghost(start): Ghost<int>, Ghost(sh0): Ghost<Seq<(Seq<char>, FieldShape)>>) -> (r: Result<(), String>)
    requires
        prog(old(f)@, start, *old(c)),
        fits(old(f)@, sh0),
    ensures
        moved(*old(c), *final(c)),
        r is Ok ==> prog(final(f)@, start, *final(c)),
        r is Ok <==> part2_a(old(c).data@, Some(old(c).off as int), version) is Some,
        r is Ok ==> final(c).off == part2_a(old(c).data@, Some(old(c).off as int), version).unwrap(),
        r is Ok ==> fits(final(f)@, sh0 + p2_head_shape(version)),
{
    let ghost mut sh = sh0;
    let ghost mut f0 = f@;
    let ghost mut o = c.off as int;
    take_u8_run(c, f, "var", 1, 2, Ghost(start))?;
    proof { sh = lemma_fits_run(f0, f@, sh, "var"@, 1, 2, c.data@, o, 1); f0 = f@; o = c.off as int; }
    take_u32_run(c, f, "var", 3, 21, Ghost(start))?;
    proof { sh = lemma_fits_run(f0, f@, sh, "var"@, 3, 19, c.data@, o, 4); f0 = f@; o = c.off as int; }
    take_u16_run(c, f, "var", 22, 24, Ghost(start))?;
    proof { sh = lemma_fits_run(f0, f@, sh, "var"@, 22, 3, c.data@, o, 2); f0 = f@; o = c.off as int; }
    take_u32(c, f, name("var25"), Ghost(start))?;
    proof { sh = lemma_fits_push(f0, f@.last(), sh, "var25"@, FieldShape::Num(4)); f0 = f@; o = c.off as int; }
    take_u16_run(c, f, "var", 26, 28, Ghost(start))?;
    proof { sh = lemma_fits_run(f0, f@, sh, "var"@, 26, 3, c.data@, o, 2); f0 = f@; o = c.off as int; }
    take_u32_run(c, f, "var", 29, 37, Ghost(start))?;
    proof { sh = lemma_fits_run(f0, f@, sh, "var"@, 29, 9, c.data@, o, 4); f0 = f@; o = c.off as int; }
    take_u8(c, f, name("var38"), Ghost(start))?;
    proof { sh = lemma_fits_push(f0, f@.last(), sh, "var38"@, FieldShape::Num(1)); f0 = f@; o = c.off as int; }
    take_u16(c, f, name("var39"), Ghost(start))?;
    proof { sh = lemma_fits_push(f0, f@.last(), sh, "var39"@, FieldShape::Num(2)); f0 = f@; o = c.off as int; }
    take_u32_run(c, f, "var", 40, 41, Ghost(start))?;
    proof { sh = lemma_fits_run(f0, f@, sh, "var"@, 40, 2, c.data@, o, 4); f0 = f@; o = c.off as int; }
    take_u16_run(c, f, "var", 42, 45, Ghost(start))?;
    proof { sh = lemma_fits_run(f0, f@, sh, "var"@, 42, 4, c.data@, o, 2); f0 = f@; o = c.off as int; }
    take_u32_run(c, f, "var", 46, 48, Ghost(start))?;
    proof { sh = lemma_fits_run(f0, f@, sh, "var"@, 46, 3, c.data@, o, 4); f0 = f@; o = c.off as int; }
    take_u8(c, f, name("var49"), Ghost(start))?;
    proof { sh = lemma_fits_push(f0, f@.last(), sh, "var49"@, FieldShape::Num(1)); f0 = f@; o = c.off as int; }
    if version <= 96 {
        take_u32(c, f, name("var50"), Ghost(start))?;
        proof { sh = lemma_fits_push(f0, f@.last(), sh, "var50"@, FieldShape::Num(4)); f0 = f@; o = c.off as int; }
    }
    take_u32(c, f, name("var51"), Ghost(start))?;
    proof { sh = lemma_fits_push(f0, f@.last(), sh, "var51"@, FieldShape::Num(4)); f0 = f@; o = c.off as int; }
    if version >= 98 {
        take_u32_run(c, f, "var", 52, 53, Ghost(start))?;
        proof { sh = lemma_fits_run(f0, f@, sh, "var"@, 52, 2, c.data@, o, 4); f0 = f@; o = c.off as int; }
    }
    if version >= 100 {
        take_u32_run(c, f, "var", 54, 55, Ghost(start))?;
        proof { sh = lemma_fits_run(f0, f@, sh, "var"@, 54, 2, c.data@, o, 4); f0 = f@; o = c.off as int; }
        take_u8(c, f, name("var56"), Ghost(start))?;
        proof { sh = lemma_fits_push(f0, f@.last(), sh, "var56"@, FieldShape::Num(1)); f0 = f@; o = c.off as int; }
        let n = take_u32(c, f, name("var57"), Ghost(start))?;
        proof { sh = lemma_fits_push(f0, f@.last(), sh, "var57"@, FieldShape::Num(4)); f0 = f@; o = c.off as int; }
        take_str_list(c, f, name("mds1"), positive(n), 4, Ghost(start))?;
        proof { lemma_pushed_keeps(f0, f@); lemma_prev_last(f0, f@.last()); sh = lemma_fits_push(f0, f@.last(), sh, "mds1"@, FieldShape::StrsAfter(4)); f0 = f@; o = c.off as int; }
        let n2 = take_u32(c, f, name("var58"), Ghost(start))?;
        proof { sh = lemma_fits_push(f0, f@.last(), sh, "var58"@, FieldShape::Num(4)); f0 = f@; o = c.off as int; }
        take_u32_list(c, f, name("vars1"), positive(n2), Ghost(start))?;
        proof { lemma_pushed_keeps(f0, f@); lemma_prev_last(f0, f@.last()); sh = lemma_fits_push(f0, f@.last(), sh, "vars1"@, FieldShape::NumsAfter(4)); f0 = f@; o = c.off as int; }
        take_u32_run(c, f, "var", 59, 63, Ghost(start))?;
        proof { sh = lemma_fits_run(f0, f@, sh, "var"@, 59, 5, c.data@, o, 4); f0 = f@; o = c.off as int; }
    }
    if version >= 101 {
        take_u32_run(c, f, "var", 64, 69, Ghost(start))?;
        proof { sh = lemma_fits_run(f0, f@, sh, "var"@, 64, 6, c.data@, o, 4); f0 = f@; o = c.off as int; }
    }
    if version >= 102 {
        take_u16(c, f, name("var70"), Ghost(start))?;
        proof { sh = lemma_fits_push(f0, f@.last(), sh, "var70"@, FieldShape::Num(2)); f0 = f@; o = c.off as int; }
    }
    assert(sh =~= sh0 + p2_head_shape(version));
    Ok(())
}

/// Reads the SavePart2's fields of versions 103 to 119.
#[verifier::rlimit(100)]
#[verifier::spinoff_prover]
fn part2_mid(c: &mut Cursor, f: &mut Vec<(String, Node)>, version: u16, Ghost(start): Ghost<int>, Ghost(sh0): Ghost<Seq<(Seq<char>, FieldShape)>>) -> (r: Result<(), String>)
    requires
        prog(old(f)@, start, *old(c)),
        fits(old(f)@, sh0),
    ensures
        moved(*old(c), *final(c)),
        r is Ok ==> prog(final(f)@, start, *final(c)),
        r is Ok <==> part2_b(old(c).data@, Some(old(c).off as int), version) is Some,
        r is Ok ==> final(c).off == part2_b(old(c).data@, Some(old(c).off as int), version).unwrap(),
        r is Ok ==> fits(final(f)@, p2_mid_from(version, sh0)),
{
    let ghost mut sh = sh0;
    let ghost mut f0 = f@;
    let ghost mut o = c.off as int;
    if version >= 103 {
        take_str(c, f, name("md1"), 2, Ghost(start))?;
        proof { lemma_pushed_keeps(f0, f@); sh = lemma_fits_push(f0, f@.last(), sh, "md1"@, FieldShape::Str(2)); f0 = f@; o = c.off as int; }
        take_str(c, f, name("md2"), 2, Ghost(start))?;
        proof { lemma_pushed_keeps(f0, f@); sh = lemma_fits_push(f0, f@.last(), sh, "md2"@, FieldShape::Str(2)); f0 = f@; o = c.off as int; }
    }
    if version >= 104 {
        take_u32(c, f, name("var71"), Ghost(start))?;
        proof { sh = lemma_fits_push(f0, f@.last(), sh, "var71"@, FieldShape::Num(4)); f0 = f@; o = c.off as int; }
    }
    if version >= 106 {
        take_u32_run(c, f, "var", 72, 74, Ghost(start))?;
        proof { sh = lemma_fits_run(f0, f@, sh, "var"@, 72, 3, c.data@, o, 4); f0 = f@; o = c.off as int; }
    }
    if version >= 108 {
        take_str(c, f, name("md3"), 2, Ghost(start))?;
        proof { lemma_pushed_keeps(f0, f@); sh = lemma_fits_push(f0, f@.last(), sh, "md3"@, FieldShape::Str(2)); f0 = f@; o = c.off as int; }
        take_u32_run(c, f, "var", 75, 77, Ghost(start))?;
        proof { sh = lemma_fits_run(f0, f@, sh, "var"@, 75, 3, c.data@, o, 4); f0 = f@; o = c.off as int; }
        take_str(c, f, name("md4"), 2, Ghost(start))?;
        proof { lemma_pushed_keeps(f0, f@); sh = lemma_fits_push(f0, f@.last(), sh, "md4"@, FieldShape::Str(2)); f0 = f@; o = c.off as int; }
        take_u32_run(c, f, "var", 78, 80, Ghost(start))?;
        proof { sh = lemma_fits_run(f0, f@, sh, "var"@, 78, 3, c.data@, o, 4); f0 = f@; o = c.off as int; }
    }
    if version >= 109 {
        take_str(c, f, name("md5"), 2, Ghost(start))?;
        proof { lemma_pushed_keeps(f0, f@); sh = lemma_fits_push(f0, f@.last(), sh, "md5"@, FieldShape::Str(2)); f0 = f@; o = c.off as int; }
        take_str(c, f, name("md6"), 2, Ghost(start))?;
        proof { lemma_pushed_keeps(f0, f@); sh = lemma_fits_push(f0, f@.last(), sh, "md6"@, FieldShape::Str(2)); f0 = f@; o = c.off as int; }
        take_u8(c, f, name("var81"), Ghost(start))?;
        proof { sh = lemma_fits_push(f0, f@.last(), sh, "var81"@, FieldShape::Num(1)); f0 = f@; o = c.off as int; }
    }
    if version >= 110 {
        take_u8(c, f, name("var82"), Ghost(start))?;
        proof { sh = lemma_fits_push(f0, f@.last(), sh, "var82"@, FieldShape::Num(1)); f0 = f@; o = c.off as int; }
    }
    if version >= 119 {
        take_str(c, f, name("md7"), 2, Ghost(start))?;
        proof { lemma_pushed_keeps(f0, f@); sh = lemma_fits_push(f0, f@.last(), sh, "md7"@, FieldShape::Str(2)); f0 = f@; o = c.off as int; }
        take_str(c, f, name("md8"), 2, Ghost(start))?;
        proof { lemma_pushed_keeps(f0, f@); sh = lemma_fits_push(f0, f@.last(), sh, "md8"@, FieldShape::Str(2)); f0 = f@; o = c.off as int; }
        take_str(c, f, name("md9"), 2, Ghost(start))?;
        proof { lemma_pushed_keeps(f0, f@); sh = lemma_fits_push(f0, f@.last(), sh, "md9"@, FieldShape::Str(2)); f0 = f@; o = c.off as int; }
    }
    assert(sh == p2_mid_from(version, sh0));
    Ok(())
}

/// Reads the SavePart2's fields of versions 121 to 137.
#[verifier::rlimit(40)]
fn part2_late(c: &mut Cursor, f: &mut Vec<(String, Node)>, version: u16, Ghost(start): Ghost<int>, Ghost(sh0): Ghost<Seq<(Seq<char>, FieldShape)>>) -> (r: Result<(), String>)
    requires
        prog(old(f)@, start, *old(c)),
        fits(old(f)@, sh0),
    ensures
        moved(*old(c), *final(c)),
        r is Ok ==> prog(final(f)@, start, *final(c)),
        r is Ok <==> part2_c(old(c).data@, Some(old(c).off as int), version) is Some,
        r is Ok ==> final(c).off == part2_c(old(c).data@, Some(old(c).off as int), version).unwrap(),
        r is Ok ==> fits(final(f)@, sh0 + p2_late_shape(version)),
{
    let ghost mut sh = sh0;
    let ghost mut f0 = f@;
    let ghost mut o = c.off as int;
    if version >= 121 {
        take_u32(c, f, name("var83"), Ghost(start))?;
        proof { sh = lemma_fits_push(f0, f@.last(), sh, "var83"@, FieldShape::Num(4)); f0 = f@; o = c.off as int; }
    }
    if version >= 122 {
        take_u32(c, f, name("var84"), Ghost(start))?;
        proof { sh = lemma_fits_push(f0, f@.last(), sh, "var84"@, FieldShape::Num(4)); f0 = f@; o = c.off as int; }
    }
    if version >= 124 {
        take_u32(c, f, name("var85"), Ghost(start))?;
        proof { sh = lemma_fits_push(f0, f@.last(), sh, "var85"@, FieldShape::Num(4)); f0 = f@; o = c.off as int; }
    }
    if version >= 126 {
        take_u32(c, f, name("var86"), Ghost(start))?;
        proof { sh = lemma_fits_push(f0, f@.last(), sh, "var86"@, FieldShape::Num(4)); f0 = f@; o = c.off as int; }
    }
    if version >= 128 {
        take_u32(c, f, name("var87"), Ghost(start))?;
        proof { sh = lemma_fits_push(f0, f@.last(), sh, "var87"@, FieldShape::Num(4)); f0 = f@; o = c.off as int; }
    }
    if version >= 129 {
        take_u32_run(c, f, "var", 88, 89, Ghost(start))?;
        proof { sh = lemma_fits_run(f0, f@, sh, "var"@, 88, 2, c.data@, o, 4); f0 = f@; o = c.off as int; }
    }
    if version >= 130 {
        take_u32(c, f, name("var90"), Ghost(start))?;
        proof { sh = lemma_fits_push(f0, f@.last(), sh, "var90"@, FieldShape::Num(4)); f0 = f@; o = c.off as int; }
    }
    if version >= 131 {
        take_u32(c, f, name("var91"), Ghost(start))?;
        proof { sh = lemma_fits_push(f0, f@.last(), sh, "var91"@, FieldShape::Num(4)); f0 = f@; o = c.off as int; }
    }
    if version >= 132 {
        take_u32_run(c, f, "var", 92, 95, Ghost(start))?;
        proof { sh = lemma_fits_run(f0, f@, sh, "var"@, 92, 4, c.data@, o, 4); f0 = f@; o = c.off as int; }
    }
    if version >= 134 {
        take_u8(c, f, name("var96"), Ghost(start))?;
        proof { sh = lemma_fits_push(f0, f@.last(), sh, "var96"@, FieldShape::Num(1)); f0 = f@; o = c.off as int; }
    }
    if version >= 136 {
        take_u8(c, f, name("var97"), Ghost(start))?;
        proof { sh = lemma_fits_push(f0, f@.last(), sh, "var97"@, FieldShape::Num(1)); f0 = f@; o = c.off as int; }
    }
    if version >= 137 {
        take_u32_run(c, f, "var", 98, 101, Ghost(start))?;
        proof { sh = lemma_fits_run(f0, f@, sh, "var"@, 98, 4, c.data@, o, 4); f0 = f@; o = c.off as int; }
        take_u32_list(c, f, name("vars2"), 24, Ghost(start))?;
        proof { lemma_pushed_keeps(f0, f@); sh = lemma_fits_push(f0, f@.last(), sh, "vars2"@, FieldShape::Nums(24, 4)); f0 = f@; o = c.off as int; }
    }
    assert(sh =~= sh0 + p2_late_shape(version));
    Ok(())
}

/// Reads the SavePart2's fields from version 0x8A on.
#[verifier::rlimit(40)]
fn part2_last(c: &mut Cursor, f: &mut Vec<(String, Node)>, version: u16, Ghost(start): Ghost<int>, Ghost(sh0): Ghost<Seq<(Seq<char>, FieldShape)>>) -> (r: Result<(), String>)
    requires
        prog(old(f)@, start, *old(c)),
        fits(old(f)@, sh0),
    ensures
        moved(*old(c), *final(c)),
        r is Ok ==> prog(final(f)@, start, *final(c)),
        r is Ok <==> part2_d(old(c).data@, Some(old(c).off as int), version) is Some,
        r is Ok ==> final(c).off == part2_d(old(c).data@, Some(old(c).off as int), version).unwrap(),
        r is Ok ==> fits(final(f)@, sh0 + p2_last_shape(version)),
{
    let ghost mut sh = sh0;
    let ghost mut f0 = f@;
    let ghost mut o = c.off as int;
    if version >= 0x8A {
        take_u32_run(c, f, "var", 102, 105, Ghost(start))?;
        proof { sh = lemma_fits_run(f0, f@, sh, "var"@, 102, 4, c.data@, o, 4); f0 = f@; o = c.off as int; }
        take_str(c, f, name("md10"), 4, Ghost(start))?;
        proof { lemma_pushed_keeps(f0, f@); sh = lemma_fits_push(f0, f@.last(), sh, "md10"@, FieldShape::Str(4)); f0 = f@; o = c.off as int; }
        let n = take_u32(c, f, name("var106"), Ghost(start))?;
        proof { sh = lemma_fits_push(f0, f@.last(), sh, "var106"@, FieldShape::Num(4)); f0 = f@; o = c.off as int; }
        take_str_list(c, f, name("mds2"), positive(n), 4, Ghost(start))?;
        proof { lemma_pushed_keeps(f0, f@); lemma_prev_last(f0, f@.last()); sh = lemma_fits_push(f0, f@.last(), sh, "mds2"@, FieldShape::StrsAfter(4)); f0 = f@; o = c.off as int; }
    }
    if version >= 0x8D {
        take_u8_run(c, f, "var", 107, 120, Ghost(start))?;
        proof { sh = lemma_fits_run(f0, f@, sh, "var"@, 107, 14, c.data@, o, 1); f0 = f@; o = c.off as int; }
        take_bytes(c, f, name("bytes1"), 0x100, Ghost(start))?;
        proof { lemma_pushed_keeps(f0, f@); sh = lemma_fits_push(f0, f@.last(), sh, "bytes1"@, FieldShape::Raw(0x100)); f0 = f@; o = c.off as int; }
        take_u8_run(c, f, "var", 121, 122, Ghost(start))?;
        proof { sh = lemma_fits_run(f0, f@, sh, "var"@, 121, 2, c.data@, o, 1); f0 = f@; o = c.off as int; }
    }
    if version >= 0x8E {
        take_u32(c, f, name("var123"), Ghost(start))?;
        proof { sh = lemma_fits_push(f0, f@.last(), sh, "var123"@, FieldShape::Num(4)); f0 = f@; o = c.off as int; }
    }
    assert(sh =~= sh0 + p2_last_shape(version));
    Ok(())
}

fn parse_save_part2(c: &mut Cursor, version: u16) -> (r: Result<Vec<(String, Node)>, String>)
    requires
        old(c).off <= old(c).data@.len(),
    ensures
        seg_ok(*old(c), *final(c), r),
        r is Ok <==> part2_end(old(c).data@, old(c).off as int, version) is Some,
        r is Ok ==> final(c).off == part2_end(old(c).data@, old(c).off as int, version).unwrap(),
        r matches Ok(f) ==> fits(f@, p2_shape(version)),
{
    proof {
        reveal(part2_end);
    }
    let ghost start = c.off as int;
    let mut f = begin(c);
    let ghost e: Seq<(Seq<char>, FieldShape)> = seq![];
    proof { lemma_fits_empty(f@); }
    part2_head(c, &mut f, version, Ghost(start), Ghost(e))?;
    let ghost h = e + p2_head_shape(version);
    part2_mid(c, &mut f, version, Ghost(start), Ghost(h))?;
    let ghost m = p2_mid_from(version, h);
    part2_late(c, &mut f, version, Ghost(start), Ghost(m))?;
    let ghost l = m + p2_late_shape(version);
    part2_last(c, &mut f, version, Ghost(start), Ghost(l))?;
    assert(e + p2_head_shape(version) =~= p2_head_shape(version));
    assert(l + p2_last_shape(version) =~= p2_shape(version));
    Ok(f)
}

/// A section `count` (a byte) followed by that many 32-bit `values`.
fn parse_counted_u32s(c: &mut Cursor) -> (r: Result<Vec<(String, Node)>, String>)
    requires
        old(c).off <= old(c).data@.len(),
    ensures
        seg_ok(*old(c), *final(c), r),
        r is Ok <==> counted_end(old(c).data@, old(c).off as int) is Some,
        r is Ok ==> final(c).off == counted_end(old(c).data@, old(c).off as int).unwrap(),
{
    proof {
        reveal_with_fuel(le_at, 2);
    }
    let ghost start = c.off as int;
    let mut g = begin(c);
    let n = take_u8(c, &mut g, name("count"), Ghost(start))?;
    take_u32_list(c, &mut g, name("values"), n as u32, Ghost(start))?;
    Ok(g)
}

/// SavePart3, the third data segment (string tables and lists).
#[verifier::rlimit(100)]
#[verifier::spinoff_prover]
fn parse_save_part3(c: &mut Cursor, version: u16) -> (r: Result<Vec<(String, Node)>, String>)
    requires
        old(c).off <= old(c).data@.len(),
    ensures
        seg_ok(*old(c), *final(c), r),
        r is Ok <==> part3_end(old(c).data@, old(c).off as int, version) is Some,
        r is Ok ==> final(c).off == part3_end(old(c).data@, old(c).off as int, version).unwrap(),
        r matches Ok(f) ==> fits(f@, p3_shape(version, f@)),
{
    proof {
        reveal(part3_end);
    }
    let ghost start = c.off as int;
    let mut f = begin(c);
    let ghost mut sh: Seq<(Seq<char>, FieldShape)> = seq![];
    let ghost mut f0 = f@;
    proof { lemma_fits_empty(f0); }
    take_u32(c, &mut f, name("var1"), Ghost(start))?;
    proof { sh = lemma_fits_push(f0, f@.last(), sh, "var1"@, FieldShape::Num(4)); f0 = f@; }
    let var2 = take_u32(c, &mut f, name("var2"), Ghost(start))?;
    proof { sh = lemma_fits_push(f0, f@.last(), sh, "var2"@, FieldShape::Num(4)); f0 = f@; }
    assert(((var2 as i32) >= 0) == (var2 < 0x8000_0000)) by (bit_vector);
    if (var2 as i32) >= 0 {
        let ghost m1 = c.off as int;
        let mut list1 = begin_list(c);
        let mut i: u32 = 0;
        while i < var2
            invariant
                moved(*old(c), *c),
                lprog(list1@, m1, *c),
                i <= var2,
                part3_end(old(c).data@, old(c).off as int, version) == p3_after1(c.data@,
                    p3_groups1(c.data@, c.off as int, (var2 - i) as nat), version),
            decreases var2 - i,
        {
            let ghost b = c.off as int;
            let mut g = begin(c);
            let cnt = take_u32(c, &mut g, name("count"), Ghost(b))?;
            assert(((cnt as i32) < 0) == (cnt >= 0x8000_0000)) by (bit_vector);
            if (cnt as i32) < 0 {
                return Err(name("SavePart3 子元素数为负"));
            }
            let ghost m2 = c.off as int;
            let mut sub = begin_list(c);
            let mut k: u32 = 0;
            while k < cnt
                invariant
                    moved(*old(c), *c),
                    lprog(sub@, m2, *c),
                    k <= cnt,
                    i < var2,
                    part3_end(old(c).data@, old(c).off as int, version) == p3_after1(c.data@,
                        match counteds_end(c.data@, c.off as int, (cnt - k) as nat) {
                            Some(q) => p3_groups1(c.data@, q, (var2 - i - 1) as nat),
                            None => None,
                        }, version),
                decreases cnt - k,
            {
                let ghost b2 = c.off as int;
                let item = parse_counted_u32s(c)?;
                put_item(c, &mut sub, Node::Sec(item), Ghost(m2), Ghost(b2));
                k = k + 1;
            }
            put_field(c, &mut g, name("items"), Node::List(sub), Ghost(b), Ghost(m2));
            put_item(c, &mut list1, Node::Sec(g), Ghost(m1), Ghost(b));
            i = i + 1;
        }
        put_field(c, &mut f, name("list1"), Node::List(list1), Ghost(start), Ghost(m1));
        proof { sh = lemma_fits_push(f0, f@.last(), sh, "list1"@, FieldShape::Items); f0 = f@; }
        assert(sh =~= seq![("var1"@, FieldShape::Num(4)), ("var2"@, FieldShape::Num(4)), ("list1"@, FieldShape::Items)]);
        proof {
            reveal(p3_rest);
        }
        part3_tail(c, &mut f, version, Ghost(start), Ghost(sh))?;
    } else {
        proof { assert(sh =~= p3_shape(version, f@)) by { reveal(p3_shape); } }
    }
    Ok(f)
}

/// End of a SavePart3 read from its field `var3` at `p`.
#[verifier::opaque]
pub open spec fn p3_rest(d: Seq<u8>, p: int, version: u16) -> Option<int> {
    p3_after1(d, Some(p), version)
}

/// SavePart3 from its field `var3` on, after its first list.
#[verifier::rlimit(100)]
#[verifier::spinoff_prover]
fn part3_tail(c: &mut Cursor, f: &mut Vec<(String, Node)>, version: u16, Ghost(start): Ghost<int>, Ghost(sh0): Ghost<Seq<(Seq<char>, FieldShape)>>) -> (r: Result<(), String>)
    requires
        prog(old(f)@, start, *old(c)),
        fits(old(f)@, sh0),
        sh0 == seq![("var1"@, FieldShape::Num(4)), ("var2"@, FieldShape::Num(4)), ("list1"@, FieldShape::Items)],
        u32_field(old(f)@, 1) < 0x8000_0000,
    ensures
        moved(*old(c), *final(c)),
        r is Ok ==> prog(final(f)@, start, *final(c)),
        r is Ok <==> p3_rest(old(c).data@, old(c).off as int, version) is Some,
        r is Ok ==> final(c).off == p3_rest(old(c).data@, old(c).off as int, version).unwrap(),
        r is Ok ==> fits(final(f)@, p3_shape(version, final(f)@)),
{
    proof {
        reveal(p3_rest);
    }
    let ghost mut sh = sh0;
    let ghost mut f0 = f@;
    let var3 = take_u32(c, f, name("var3"), Ghost(start))?;
    proof { sh = lemma_fits_push(f0, f@.last(), sh, "var3"@, FieldShape::Num(4)); f0 = f@; }
    if var3 <= 0x270F {
        let ghost m1 = c.off as int;
        let mut list2 = begin_list(c);
        let mut i: u32 = 0;
        while i < var3
            invariant
                moved(*old(c), *c),
                lprog(list2@, m1, *c),
                i <= var3,
                p3_rest(old(c).data@, old(c).off as int, version) == p3_after2(c.data@,
                    p3_groups2(c.data@, c.off as int, (var3 - i) as nat), version),
            decreases var3 - i,
        {
            let ghost b = c.off as int;
            let mut g = begin(c);
            let cnt = take_u32(c, &mut g, name("count"), Ghost(b))?;
            assert(((cnt as i32) < 0) == (cnt >= 0x8000_0000)) by (bit_vector);
            if (cnt as i32) < 0 {
                return Err(name("SavePart3 子元素数为负"));
            }
            take_u32_list(c, &mut g, name("values"), cnt, Ghost(b))?;
            put_item(c, &mut list2, Node::Sec(g), Ghost(m1), Ghost(b));
            i = i + 1;
        }
        put_field(c, f, name("list2"), Node::List(list2), Ghost(start), Ghost(m1));
        proof { sh = lemma_fits_push(f0, f@.last(), sh, "list2"@, FieldShape::Items); f0 = f@; }
        let var4 = take_u32(c, f, name("var4"), Ghost(start))?;
        proof { sh = lemma_fits_push(f0, f@.last(), sh, "var4"@, FieldShape::Num(4)); f0 = f@; }
        assert(((var4 as i32) >= 0) == (var4 < 0x8000_0000)) by (bit_vector);
        if (var4 as i32) >= 0 {
            let str_w: u8 = if version < 0x6F { 2 } else { 4 };
            take_str_list(c, f, name("mds1"), var4, str_w, Ghost(start))?;
            proof { lemma_pushed_keeps(f0, f@); }
            proof { sh = lemma_fits_push(f0, f@.last(), sh, "mds1"@, FieldShape::Strs(var4 as nat, p3_width(version))); f0 = f@; }
            let var5 = take_u32(c, f, name("var5"), Ghost(start))?;
            proof { sh = lemma_fits_push(f0, f@.last(), sh, "var5"@, FieldShape::Num(4)); f0 = f@; }
            assert(((var5 as i32) < 0) == (var5 >= 0x8000_0000)) by (bit_vector);
            if (var5 as i32) < 0 || var5 > 10000 {
                return Err(fmt_num("SavePart3 var5 越界（", var5 as u128, "）"));
            }
            let ghost m3 = c.off as int;
            let mut list3 = begin_list(c);
            let mut i: u32 = 0;
            while i < var5
                invariant
                    moved(*old(c), *c),
                    lprog(list3@, m3, *c),
                    i <= var5,
                    p3_rest(old(c).data@, old(c).off as int, version) == p3_after3(c.data@,
                        counteds_end(c.data@, c.off as int, (var5 - i) as nat), version),
                decreases var5 - i,
            {
                let ghost b = c.off as int;
                let item = parse_counted_u32s(c)?;
                put_item(c, &mut list3, Node::Sec(item), Ghost(m3), Ghost(b));
                i = i + 1;
            }
            put_field(c, f, name("list3"), Node::List(list3), Ghost(start), Ghost(m3));
            proof { sh = lemma_fits_push(f0, f@.last(), sh, "list3"@, FieldShape::Items); f0 = f@; }
            let var6 = take_u32(c, f, name("var6"), Ghost(start))?;
            proof { sh = lemma_fits_push(f0, f@.last(), sh, "var6"@, FieldShape::Num(4)); f0 = f@; }
            if var6 <= 10000 {
                assert(((var6 as i32) <= 0) == (var6 == 0 || var6 >= 0x8000_0000)) by (bit_vector);
                if (var6 as i32) <= 0 {
                    return Err(fmt_num("SavePart3 var6 非法（", var6 as u128, "）"));
                }
                let ghost m4 = c.off as int;
                let mut list4 = begin_list(c);
                let mut i: u32 = 0;
                while i < var6
                    invariant
                        moved(*old(c), *c),
                        lprog(list4@, m4, *c),
                        i <= var6,
                        str_w == p3_width(version),
                        p3_rest(old(c).data@, old(c).off as int, version) == p3_groups4(c.data@,
                            c.off as int, (var6 - i) as nat, str_w),
                    decreases var6 - i,
                {
                    let ghost b = c.off as int;
                    let mut g = begin(c);
                    let n = take_u8(c, &mut g, name("count"), Ghost(b))?;
                    take_str_list(c, &mut g, name("strings"), n as u32, str_w, Ghost(b))?;
                    put_item(c, &mut list4, Node::Sec(g), Ghost(m4), Ghost(b));
                    i = i + 1;
                }
                put_field(c, f, name("list4"), Node::List(list4), Ghost(start), Ghost(m4));
                proof { sh = lemma_fits_push(f0, f@.last(), sh, "list4"@, FieldShape::Items); f0 = f@; }
                proof { assert(sh =~= p3_shape(version, f@)) by { reveal(p3_shape); } }
            } else {
    proof { assert(sh =~= p3_shape(version, f@)) by { reveal(p3_shape); } }
}
        } else {
    proof { assert(sh =~= p3_shape(version, f@)) by { reveal(p3_shape); } }
}
    } else {
    proof { assert(sh =~= p3_shape(version, f@)) by { reveal(p3_shape); } }
}
    Ok(())
}

/// SavePart4, the fourth data segment.
fn parse_save_part4(c: &mut Cursor, version: u16) -> (r: Result<Vec<(String, Node)>, String>)
    requires
        old(c).off <= old(c).data@.len(),
    ensures
        seg_ok(*old(c), *final(c), r),
        r is Ok <==> part4_end(old(c).data@, old(c).off as int, version) is Some,
        r is Ok ==> final(c).off == part4_end(old(c).data@, old(c).off as int, version).unwrap(),
        r matches Ok(f) ==> fits(f@, p4_shape(version)),
{
    proof {
        reveal(part4_end);
    }
    let ghost start = c.off as int;
    let mut f = begin(c);
    let ghost mut sh: Seq<(Seq<char>, FieldShape)> = seq![];
    let ghost mut f0 = f@;
    let ghost mut o = c.off as int;
    proof { lemma_fits_empty(f0); }
    let ghost b = c.off as int;
    let sub = parse_sp1_1(c, version)?;
    put_field(c, &mut f, name("sp1"), Node::Sec(sub), Ghost(start), Ghost(b));
    proof { sh = lemma_fits_push(f0, f@.last(), sh, "sp1"@, FieldShape::Section); f0 = f@; o = c.off as int; }
    let n = take_u32(c, &mut f, name("var1"), Ghost(start))?;
    proof { sh = lemma_fits_push(f0, f@.last(), sh, "var1"@, FieldShape::Num(4)); f0 = f@; o = c.off as int; }
    let ghost mid = c.off as int;
    let mut items = begin_list(c);
    let mut i: u32 = 0;
    while i < n
        invariant
            moved(*old(c), *c),
            lprog(items@, mid, *c),
            i <= n,
            sp11s_end(c.data@, c.off as int, (n - i) as nat, version) == sp11s_end(c.data@, mid, n as nat, version),
            part4_end(old(c).data@, old(c).off as int, version) == part4_tail(c.data@,
                sp11s_end(c.data@, c.off as int, (n - i) as nat, version), version),
        decreases n - i,
    {
        let ghost b = c.off as int;
        let sub = parse_sp1_1(c, version)?;
        put_item(c, &mut items, Node::Sec(sub), Ghost(mid), Ghost(b));
        i = i + 1;
    }
    put_field(c, &mut f, name("items"), Node::List(items), Ghost(start), Ghost(mid));
    proof { sh = lemma_fits_push(f0, f@.last(), sh, "items"@, FieldShape::Items); f0 = f@; o = c.off as int; }
    take_u8_run(c, &mut f, "var", 2, 3, Ghost(start))?;
    proof { sh = lemma_fits_run(f0, f@, sh, "var"@, 2, 2, c.data@, o, 1); f0 = f@; o = c.off as int; }
    let n4 = take_u32(c, &mut f, name("var4"), Ghost(start))?;
    proof { sh = lemma_fits_push(f0, f@.last(), sh, "var4"@, FieldShape::Num(4)); f0 = f@; o = c.off as int; }
    take_u32_list(c, &mut f, name("vars1"), positive(n4), Ghost(start))?;
    proof { lemma_pushed_keeps(f0, f@); lemma_prev_last(f0, f@.last()); sh = lemma_fits_push(f0, f@.last(), sh, "vars1"@, FieldShape::NumsAfter(4)); f0 = f@; o = c.off as int; }
    if version >= 0x8A {
        let n5 = take_u32(c, &mut f, name("var5"), Ghost(start))?;
        proof { sh = lemma_fits_push(f0, f@.last(), sh, "var5"@, FieldShape::Num(4)); f0 = f@; o = c.off as int; }
        take_u64_list(c, &mut f, name("vars2"), positive(n5), Ghost(start))?;
        proof { lemma_pushed_keeps(f0, f@); lemma_prev_last(f0, f@.last()); sh = lemma_fits_push(f0, f@.last(), sh, "vars2"@, FieldShape::NumsAfter(8)); f0 = f@; o = c.off as int; }
    }
    assert(sh =~= p4_shape(version));
    Ok(f)
}

/// A section `count` (a 32-bit number) followed by that many 32-bit `values`,
/// none when the count is not positive as a signed number.
fn parse_counted_u32s_wide(c: &mut Cursor) -> (r: Result<Vec<(String, Node)>, String>)
    requires
        old(c).off <= old(c).data@.len(),
    ensures
        seg_ok(*old(c), *final(c), r),
        r is Ok <==> counted_wide_end(old(c).data@, old(c).off as int) is Some,
        r is Ok ==> final(c).off == counted_wide_end(old(c).data@, old(c).off as int).unwrap(),
{
    let ghost start = c.off as int;
    let mut g = begin(c);
    let cnt = take_u32(c, &mut g, name("count"), Ghost(start))?;
    take_u32_list(c, &mut g, name("values"), positive(cnt), Ghost(start))?;
    Ok(g)
}

/// SavePart5_1: the data block of one map event.
#[verifier::rlimit(40)]
fn parse_sp5_1(c: &mut Cursor, version: u16) -> (r: Result<Vec<(String, Node)>, String>)
    requires
        old(c).off <= old(c).data@.len(),
    ensures
        seg_ok(*old(c), *final(c), r),
        r is Ok <==> sp51_end(old(c).data@, old(c).off as int, version) is Some,
        r is Ok ==> final(c).off == sp51_end(old(c).data@, old(c).off as int, version).unwrap(),
        r matches Ok(f) ==> fits(f@, sp51_shape(version)),
{
    proof {
        reveal(sp51_end);
    }
    let ghost start = c.off as int;
    let mut f = begin(c);
    let ghost v = "var"@;
    let ghost mut sh: Seq<(Seq<char>, FieldShape)> = seq![];
    let ghost mut f0 = f@;
    proof { lemma_fits_empty(f0); }
    let ghost mut o = c.off as int;
    take_u32(c, &mut f, name("var1"), Ghost(start))?;
    proof { sh = lemma_fits_push(f0, f@.last(), sh, "var1"@, FieldShape::Num(4)); f0 = f@; o = c.off as int; }
    take_u8_run(c, &mut f, "var", 2, 3, Ghost(start))?;
    proof { sh = lemma_fits_run(f0, f@, sh, v, 2, 2, c.data@, o, 1); f0 = f@; o = c.off as int; }
    take_u16(c, &mut f, name("var4"), Ghost(start))?;
    proof { sh = lemma_fits_push(f0, f@.last(), sh, "var4"@, FieldShape::Num(2)); f0 = f@; o = c.off as int; }
    take_u8_run(c, &mut f, "var", 5, 6, Ghost(start))?;
    proof { sh = lemma_fits_run(f0, f@, sh, v, 5, 2, c.data@, o, 1); f0 = f@; o = c.off as int; }
    take_str(c, &mut f, name("md1"), 2, Ghost(start))?;
    proof { lemma_pushed_keeps(f0, f@); sh = lemma_fits_push(f0, f@.last(), sh, "md1"@, FieldShape::Str(2)); f0 = f@; o = c.off as int; }
    take_u32_run(c, &mut f, "var", 7, 18, Ghost(start))?;
    proof { sh = lemma_fits_run(f0, f@, sh, v, 7, 12, c.data@, o, 4); f0 = f@; o = c.off as int; }
    take_u32_list(c, &mut f, name("vals1"), 6, Ghost(start))?;
    proof { lemma_pushed_keeps(f0, f@); sh = lemma_fits_push(f0, f@.last(), sh, "vals1"@, FieldShape::Nums(6, 4)); f0 = f@; o = c.off as int; }
    let ghost a = sh;
    if version >= 0x69 {
        take_u32_run(c, &mut f, "var", 19, 36, Ghost(start))?;
        proof { sh = lemma_fits_run(f0, f@, sh, v, 19, 18, c.data@, o, 4); f0 = f@; o = c.off as int; }
    }
    if version >= 0x6B {
        take_u8(c, &mut f, name("var37"), Ghost(start))?;
        proof { sh = lemma_fits_push(f0, f@.last(), sh, "var37"@, FieldShape::Num(1)); f0 = f@; o = c.off as int; }
    }
    if version >= 0x72 {
        take_u8_run(c, &mut f, "var", 38, 39, Ghost(start))?;
        proof { sh = lemma_fits_run(f0, f@, sh, v, 38, 2, c.data@, o, 1); f0 = f@; o = c.off as int; }
        take_u32_list(c, &mut f, name("vals2"), 4, Ghost(start))?;
        proof { lemma_pushed_keeps(f0, f@); sh = lemma_fits_push(f0, f@.last(), sh, "vals2"@, FieldShape::Nums(4, 4)); f0 = f@; o = c.off as int; }
        take_u32_list(c, &mut f, name("vals3"), 4, Ghost(start))?;
        proof { lemma_pushed_keeps(f0, f@); sh = lemma_fits_push(f0, f@.last(), sh, "vals3"@, FieldShape::Nums(4, 4)); f0 = f@; o = c.off as int; }
    }
    if version >= 0x73 {
        take_u32_run(c, &mut f, "var", 40, 43, Ghost(start))?;
        proof { sh = lemma_fits_run(f0, f@, sh, v, 40, 4, c.data@, o, 4); f0 = f@; o = c.off as int; }
        if version >= 0x74 {
            take_u32_run(c, &mut f, "var", 44, 48, Ghost(start))?;
            proof { sh = lemma_fits_run(f0, f@, sh, v, 44, 5, c.data@, o, 4); f0 = f@; o = c.off as int; }
        }
        if version >= 0x75 {
            take_u32_run(c, &mut f, "var", 49, 54, Ghost(start))?;
            proof { sh = lemma_fits_run(f0, f@, sh, v, 49, 6, c.data@, o, 4); f0 = f@; o = c.off as int; }
        }
        take_u32_run(c, &mut f, "var", 55, 60, Ghost(start))?;
        proof { sh = lemma_fits_run(f0, f@, sh, v, 55, 6, c.data@, o, 4); f0 = f@; o = c.off as int; }
    }
    if version >= 0x76 {
        take_u32_run(c, &mut f, "var", 61, 63, Ghost(start))?;
        proof { sh = lemma_fits_run(f0, f@, sh, v, 61, 3, c.data@, o, 4); f0 = f@; o = c.off as int; }
    }
    if version < 0x81 {
        assert(sh =~= sp51_shape(version));
        return Ok(f);
    }
    take_u32_run(c, &mut f, "var", 64, 84, Ghost(start))?;
    proof { sh = lemma_fits_run(f0, f@, sh, v, 64, 21, c.data@, o, 4); f0 = f@; o = c.off as int; }
    if version >= 0x87 {
        take_u32_run(c, &mut f, "var", 85, 89, Ghost(start))?;
        proof { sh = lemma_fits_run(f0, f@, sh, v, 85, 5, c.data@, o, 4); f0 = f@; o = c.off as int; }
    }
    if version >= 0x89 {
        let n = take_u32(c, &mut f, name("var90"), Ghost(start))?;
        proof { sh = lemma_fits_push(f0, f@.last(), sh, "var90"@, FieldShape::Num(4)); f0 = f@; o = c.off as int; }
        let n = positive(n);
        let ghost mid = c.off as int;
        let mut list = begin_list(c);
        let mut i: u32 = 0;
        while i < n
            invariant
                moved(*old(c), *c),
                lprog(list@, mid, *c),
                i <= n,
                sp51_end(old(c).data@, old(c).off as int, version) == sp51_list_tail(c.data@,
                    wides_end(c.data@, c.off as int, (n - i) as nat)),
            decreases n - i,
        {
            let ghost b = c.off as int;
            let item = parse_counted_u32s_wide(c)?;
            put_item(c, &mut list, Node::Sec(item), Ghost(mid), Ghost(b));
            i = i + 1;
        }
        put_field(c, &mut f, name("list1"), Node::List(list), Ghost(start), Ghost(mid));
        proof { sh = lemma_fits_push(f0, f@.last(), sh, "list1"@, FieldShape::Items); f0 = f@; o = c.off as int; }
        take_u32_run(c, &mut f, "var", 91, 97, Ghost(start))?;
        proof { sh = lemma_fits_run(f0, f@, sh, v, 91, 7, c.data@, o, 4); f0 = f@; o = c.off as int; }
    }
    assert(sh =~= sp51_shape(version));
    Ok(f)
}

/// SavePart5, the fifth data segment: a 16-bit count and, unless its top bit is
/// set, that many SavePart5_1 blocks.
fn parse_save_part5(c: &mut Cursor, version: u16) -> (r: Result<Vec<(String, Node)>, String>)
    requires
        old(c).off <= old(c).data@.len(),
    ensures
        seg_ok(*old(c), *final(c), r),
        r is Ok <==> part5_end(old(c).data@, old(c).off as int, version) is Some,
        r is Ok ==> final(c).off == part5_end(old(c).data@, old(c).off as int, version).unwrap(),
        r matches Ok(f) ==> part5_fits(f@, version),
{
    proof {
        reveal(part5_end);
    }
    let ghost start = c.off as int;
    let mut f = begin(c);
    let n = take_u16(c, &mut f, name("var1"), Ghost(start))?;
    let ghost f1 = f@;
    assert(((n & 0x8000) == 0) == (n < 0x8000)) by (bit_vector);
    if (n & 0x8000) == 0 {
        let ghost mid = c.off as int;
        let mut items = begin_list(c);
        let mut i: u16 = 0;
        while i < n
            invariant
                moved(*old(c), *c),
                lprog(items@, mid, *c),
                i <= n,
                part5_end(old(c).data@, old(c).off as int, version) == sp51s_end(c.data@, c.off as int, (n - i) as nat, version),
                sp51_items(items@, version),
            decreases n - i,
        {
            let ghost b = c.off as int;
            let sub = parse_sp5_1(c, version)?;
            let ghost before = items@;
            put_item(c, &mut items, Node::Sec(sub), Ghost(mid), Ghost(b));
            assert(sp51_items(items@, version)) by {
                assert forall|k: int| 0 <= k < items@.len() implies (#[trigger] items@[k] matches Node::Sec(s2) && fits(s2@, sp51_shape(version))) by {
                    if k < before.len() {
                        assert(items@[k] == before[k]);
                    }
                }
            }
            i = i + 1;
        }
        put_field(c, &mut f, name("items"), Node::List(items), Ghost(start), Ghost(mid));
        assert(f@[0] == f1[0]);
    }
    Ok(f)
}

/// The fields of a SavePart4 of a file `version`, by name and shape.
pub open spec fn p4_shape(version: u16) -> Seq<(Seq<char>, FieldShape)> {
    let a = seq![("sp1"@, FieldShape::Section), ("var1"@, FieldShape::Num(4)), ("items"@, FieldShape::Items)]
        + run_shape("var"@, 2, 2, 1) + seq![("var4"@, FieldShape::Num(4)), ("vars1"@, FieldShape::NumsAfter(4))];
    if version >= 0x8A {
        a + seq![("var5"@, FieldShape::Num(4)), ("vars2"@, FieldShape::NumsAfter(8))]
    } else {
        a
    }
}

/// The fields of a SavePart7: the byte `var1`, then, when it is 1, the count
/// `var2` and the `items`.
pub open spec fn p7_shape(f: Seq<(String, Node)>) -> Seq<(Seq<char>, FieldShape)> {
    let head = seq![("var1"@, FieldShape::Num(1))];
    if f.len() > 0 && f[0].1 == Node::U8(1) {
        head + seq![("var2"@, FieldShape::Num(4)), ("items"@, FieldShape::Items)]
    } else {
        head
    }
}

/// Each item is a section whose fields have the shape of a SavePart5_1 of a file `version`.
pub open spec fn sp51_items(items: Seq<Node>, version: u16) -> bool {
    forall|k: int| 0 <= k < items.len() ==> (#[trigger] items[k] matches Node::Sec(sub) && fits(sub@, sp51_shape(version)))
}

/// The fields of a SavePart5: the 16-bit `var1`, then, unless its top bit is set,
/// the `items`, each a SavePart5_1.
pub open spec fn part5_fits(f: Seq<(String, Node)>, version: u16) -> bool {
    &&& f.len() >= 1
    &&& f[0].0@ == "var1"@
    &&& f[0].1 matches Node::U16(n) && if n < 0x8000 {
        &&& f.len() == 2
        &&& f[1].0@ == "items"@
        &&& f[1].1 matches Node::List(items) && sp51_items(items@, version)
    } else {
        f.len() == 1
    }
}

/// One entry of a variable type: its numeric fields (type code below 2000)
/// first, then its string fields, each named after its position in `config`.
fn parse_type_data(c: &mut Cursor, config: &Vec<u32>) -> (r: Result<Vec<(String, Node)>, String>)
    requires
        old(c).off <= old(c).data@.len(),
        config@.len() < 0x1_0000_0000,
    ensures
        seg_ok(*old(c), *final(c), r),
        r is Ok <==> type_data_end(old(c).data@, old(c).off as int, config@) is Some,
        r is Ok ==> final(c).off == type_data_end(old(c).data@, old(c).off as int, config@).unwrap(),
{
    let ghost start = c.off as int;
    let ghost cfg = config@;
    let mut f = begin(c);
    let mut i: usize = 0;
    while i < config.len()
        invariant
            moved(*old(c), *c),
            prog(f@, start, *c),
            config@.len() < 0x1_0000_0000,
            start == old(c).off,
            cfg == config@,
            i <= cfg.len(),
            c.off == start + 4 * small_count(cfg.take(i as int)),
        decreases config@.len() - i,
    {
        proof {
            assert(cfg.take(i + 1).drop_last() =~= cfg.take(i as int));
            lemma_counts_grow(cfg, i + 1);
        }
        if config[i] < 2000 {
            take_i32(c, &mut f, numbered("字段", i as u32), Ghost(start))?;
        }
        i = i + 1;
    }
    assert(cfg.take(cfg.len() as int) =~= cfg);
    let ghost p1 = c.off as int;
    let mut i: usize = 0;
    assert(cfg.take(0) =~= Seq::<u32>::empty());
    while i < config.len()
        invariant
            moved(*old(c), *c),
            prog(f@, start, *c),
            config@.len() < 0x1_0000_0000,
            start == old(c).off,
            cfg == config@,
            i <= cfg.len(),
            p1 == start + 4 * small_count(cfg),
            big_count(cfg.take(i as int)) <= big_count(cfg),
            strs_end(c.data@, c.off as int, (big_count(cfg) - big_count(cfg.take(i as int))) as nat, 4)
                == strs_end(c.data@, p1, big_count(cfg), 4),
        decreases config@.len() - i,
    {
        proof {
            assert(cfg.take(i + 1).drop_last() =~= cfg.take(i as int));
            lemma_counts_grow(cfg, i + 1);
        }
        if config[i] >= 2000 {
            take_str(c, &mut f, numbered("字段", i as u32), 4, Ghost(start))?;
        }
        i = i + 1;
    }
    assert(cfg.take(cfg.len() as int) =~= cfg);
    Ok(f)
}


/// Reads `n` 32-bit type codes into `config` and into a list node.
fn read_config(c: &mut Cursor, n: u32) -> (r: Result<(Vec<u32>, Vec<Node>), String>)
    requires
        old(c).off <= old(c).data@.len(),
    ensures
        moved(*old(c), *final(c)),
        r matches Ok((cfg, nodes)) ==> cfg@.len() == n && nodes_bytes(nodes@) == span(*old(c), *final(c))
            && final(c).off == old(c).off + 4 * n,
        r is Ok <==> old(c).off + 4 * n <= old(c).data@.len(),
        r matches Ok((cfg, nodes)) ==> nodes@.len() == n && forall|k: int| 0 <= k < n ==>
            #[trigger] cfg@[k] as nat == le_at(old(c).data@, old(c).off + 4 * k, 4) && nodes@[k] == Node::U32(cfg@[k]),
{
    let ghost mid = c.off as int;
    let mut config: Vec<u32> = Vec::new();
    let mut nodes = begin_list(c);
    let mut i: u32 = 0;
    while i < n
        invariant
            moved(*old(c), *c),
            lprog(nodes@, mid, *c),
            mid == old(c).off,
            i <= n,
            config@.len() == i,
            c.off == mid + 4 * i,
            nodes@.len() == i,
            forall|k: int| 0 <= k < i ==> #[trigger] config@[k] as nat == le_at(c.data@, mid + 4 * k, 4)
                && nodes@[k] == Node::U32(config@[k]),
        decreases n - i,
    {
        let ghost n0 = nodes@;
        let ghost c0 = config@;
        let v = item_u32(c, &mut nodes, Ghost(mid))?;
        config.push(v);
        proof {
            assert forall|k: int| 0 <= k < i + 1 implies #[trigger] config@[k] as nat == le_at(c.data@, mid + 4 * k, 4)
                && nodes@[k] == Node::U32(config@[k]) by {
                if k < i {
                    assert(config@[k] == c0[k] && nodes@[k] == n0[k]);
                }
            }
        }
        i = i + 1;
    }
    Ok((config, nodes))
}

/// Appends a named node; when `cond` holds, its bytes follow those read so far.
fn push_field_if(
    f: &mut Vec<(String, Node)>,
    nm: String,
    n: Node,
    Ghost(cond): Ghost<bool>,
    Ghost(d): Ghost<Seq<u8>>,
    Ghost(a): Ghost<int>,
    Ghost(b): Ghost<int>,
    Ghost(e): Ghost<int>,
)
    requires
        cond ==> 0 <= a <= b <= e <= d.len() && fields_bytes(old(f)@) == d.subrange(a, b)
            && node_bytes(n) == d.subrange(b, e),
    ensures
        final(f)@ == old(f)@.push((nm, n)),
        cond ==> fields_bytes(final(f)@) == d.subrange(a, e),
{
    let ghost f0 = f@;
    f.push((nm, n));
    proof {
        if cond {
            assert(f@.drop_last() =~= f0);
            lemma_span(d, a, b, e);
        }
    }
}

/// The variable database segment: a byte, a type count, and per type its flag,
/// field count, field type codes and entries.
fn parse_var_db(c: &mut Cursor) -> (r: Result<Vec<(String, Node)>, String>)
    requires
        old(c).off <= old(c).data@.len(),
    ensures
        moved(*old(c), *final(c)),
        !var_db_fake(old(c).data@, old(c).off as int) ==> seg_ok(*old(c), *final(c), r),
        r is Ok <==> var_db_end(old(c).data@, old(c).off as int) is Some,
        r is Ok ==> final(c).off == var_db_end(old(c).data@, old(c).off as int).unwrap(),
{
    proof {
        reveal(var_db_end);
    }
    let ghost ok = !var_db_fake(c.data@, c.off as int);
    let ghost start = c.off as int;
    let mut f = begin(c);
    take_u8(c, &mut f, name("unknown"), Ghost(start))?;
    let type_count = take_u32(c, &mut f, name("type_count"), Ghost(start))?;
    let mut ti: u32 = 0;
    while ti < type_count
        invariant
            moved(*old(c), *c),
            ok == !var_db_fake(old(c).data@, old(c).off as int),
            ok ==> !types_fake(c.data@, c.off as int, (type_count - ti) as nat),
            start == old(c).off,
            ok ==> prog(f@, start, *c),
            ti <= type_count,
            var_db_end(old(c).data@, old(c).off as int) == types_end(c.data@, c.off as int, (type_count - ti) as nat),
        decreases type_count - ti,
    {
        let ghost b = c.off as int;
        let mut tf = begin(c);
        let unknown = take_i32(c, &mut tf, name("unknown_flag"), Ghost(b))?;
        proof {
            assert((unknown <= -2) == ((unknown as u32) >= 0x8000_0000 && (unknown as u32) != 0xffff_ffff)) by (bit_vector);
            assert((unknown <= -1) == ((unknown as u32) >= 0x8000_0000)) by (bit_vector);
            assert(unknown > -1 ==> unknown as u32 == unknown) by (bit_vector);
            assert((unknown == -1) == ((unknown as u32) == 0xffff_ffff)) by (bit_vector);
        }
        let ghost mut fake = false;
        let field_count: u32 = if unknown <= -1 {
            if unknown <= -2 {
                take_i32(c, &mut tf, name("data_id_spec"), Ghost(b))?;
                take_u32(c, &mut tf, name("field_count"), Ghost(b))?
            } else {
                tf.push((name("field_count"), Node::U32(0xffff_ffff)));
                proof {
                    fake = true;
                }
                0xffff_ffff
            }
        } else {
            unknown as u32
        };
        let ghost m = c.off as int;
        assert(type_head(c.data@, b) == Some((m, field_count as nat)));
        let (config, cfg_nodes) = read_config(c, field_count)?;
        assert(config@ =~= cfg_of(c.data@, m, field_count as nat));
        proof {
            if ok {
                assert(!fake);
            }
        }
        if field_count > 0 {
            push_field_if(&mut tf, name("type_config"), Node::List(cfg_nodes), Ghost(ok), Ghost(c.data@), Ghost(b), Ghost(m), Ghost(c.off as int));
        }
        let ghost m2 = c.off as int;
        let data_count = c.read_u32()?;
        push_field_if(&mut tf, name("data_count"), Node::U32(data_count), Ghost(ok), Ghost(c.data@), Ghost(b), Ghost(m2), Ghost(c.off as int));
        let ghost mid = c.off as int;
        let mut items = begin_list(c);
        let mut di: u32 = 0;
        while di < data_count
            invariant
                moved(*old(c), *c),
                lprog(items@, mid, *c),
                config@.len() < 0x1_0000_0000,
                di <= data_count,
                ti < type_count,
                type_end(c.data@, b) == type_datas_end(c.data@, c.off as int, (data_count - di) as nat, config@),
                var_db_end(old(c).data@, old(c).off as int) == match type_datas_end(c.data@, c.off as int, (data_count - di) as nat, config@) {
                    Some(q) => types_end(c.data@, q, (type_count - ti - 1) as nat),
                    None => None,
                },
            decreases data_count - di,
        {
            let ghost b2 = c.off as int;
            let sub = parse_type_data(c, &config)?;
            put_item(c, &mut items, Node::Sec(sub), Ghost(mid), Ghost(b2));
            di = di + 1;
        }
        assert(type_end(c.data@, b) == Some(c.off as int));
        push_field_if(&mut tf, name("data"), Node::List(items), Ghost(ok), Ghost(c.data@), Ghost(b), Ghost(mid), Ghost(c.off as int));
        push_field_if(&mut f, numbered("type", ti), Node::Sec(tf), Ghost(ok), Ghost(c.data@), Ghost(start), Ghost(b), Ghost(c.off as int));
        ti = ti + 1;
    }
    Ok(f)
}

/// SavePart7, the last data segment: a flag byte and, when it is 1, a count and
/// that many typed values (a byte value below type 0xFA, else a 32-bit one).
fn parse_save_part7(c: &mut Cursor) -> (r: Result<Vec<(String, Node)>, String>)
    requires
        old(c).off <= old(c).data@.len(),
    ensures
        seg_ok(*old(c), *final(c), r),
        r is Ok <==> part7_end(old(c).data@, old(c).off as int) is Some,
        r is Ok ==> final(c).off == part7_end(old(c).data@, old(c).off as int).unwrap(),
        r matches Ok(f) ==> fits(f@, p7_shape(f@)),
{
    proof {
        reveal(part7_end);
    }
    let ghost start = c.off as int;
    let mut f = begin(c);
    let ghost mut sh: Seq<(Seq<char>, FieldShape)> = seq![];
    let ghost mut f0 = f@;
    proof { lemma_fits_empty(f0); }
    let var1 = take_u8(c, &mut f, name("var1"), Ghost(start))?;
    proof { sh = lemma_fits_push(f0, f@.last(), sh, "var1"@, FieldShape::Num(1)); f0 = f@; }
    let ghost first = f@[0];
    if var1 != 1 {
        assert(sh =~= p7_shape(f@));
        return Ok(f);
    }
    let n = take_u32(c, &mut f, name("var2"), Ghost(start))?;
    proof { sh = lemma_fits_push(f0, f@.last(), sh, "var2"@, FieldShape::Num(4)); f0 = f@; }
    let ghost mid = c.off as int;
    let mut items = begin_list(c);
    let mut i: u32 = 0;
    while i < n
        invariant
            moved(*old(c), *c),
            lprog(items@, mid, *c),
            i <= n,
            p7_items_end(c.data@, c.off as int, (n - i) as nat) == p7_items_end(c.data@, mid, n as nat),
            part7_end(old(c).data@, old(c).off as int) == p7_items_end(c.data@, mid, n as nat),
        decreases n - i,
    {
        let ghost b = c.off as int;
        let mut g = begin(c);
        let v = take_u8(c, &mut g, name("type"), Ghost(b))?;
        if v < 0xFA {
            take_u8(c, &mut g, name("value"), Ghost(b))?;
        } else {
            take_u32(c, &mut g, name("value"), Ghost(b))?;
        }
        put_item(c, &mut items, Node::Sec(g), Ghost(mid), Ghost(b));
        i = i + 1;
    }
    put_field(c, &mut f, name("items"), Node::List(items), Ghost(start), Ghost(mid));
    proof { sh = lemma_fits_push(f0, f@.last(), sh, "items"@, FieldShape::Items); f0 = f@; }
    assert(f@[0] == first);
    assert(sh =~= p7_shape(f@));
    Ok(f)
}


/// Segment index of the variable database.
pub const SEG_VAR_DB: usize = 5;

/// A parsed Wolf RPG save.
#[derive(Debug)]
pub struct WolfSave {
    /// The 0x14 header bytes (seeds and checksum; the checksum is recomputed on saving).
    pub header: Vec<u8>,
    /// Start byte (0x19).
    pub start_byte: u8,
    /// Game name (a string with a 2-byte length prefix).
    pub game_name: Node,
    /// File version.
    pub version: u16,
    /// Strings are UTF-8 (else Shift-JIS).
    pub is_utf8: bool,
    /// Data segments: SavePart1..5, the variable database, SavePart7.
    pub segments: Vec<Vec<(String, Node)>>,
    /// End byte (0x19).
    pub end_byte: u8,
    /// Where the save was read from, when it came from a file.
    pub path: Option<std::path::PathBuf>,
    /// A remark about the parse.
    pub note: Option<String>,
}

/// How the game name is written: a string node with its prefix, raw bytes as
/// they are, nothing for other nodes.
pub open spec fn name_bytes(n: Node) -> Seq<u8> {
    match n {
        Node::Str { width, bytes } => str_bytes(width, bytes@),
        Node::Bytes(b) => b@,
        _ => Seq::empty(),
    }
}

/// The bytes of the data segments, in order.
pub open spec fn segs_bytes(s: Seq<Vec<(String, Node)>>) -> Seq<u8>
    decreases s.len(),
{
    if s.len() == 0 {
        Seq::empty()
    } else {
        segs_bytes(s.drop_last()) + fields_bytes(s.last()@)
    }
}

/// The plain (decrypted) bytes of a save.
pub open spec fn plain_of(s: WolfSave) -> Seq<u8> {
    s.header@ + seq![s.start_byte] + name_bytes(s.game_name) + le16(s.version) + segs_bytes(
        s.segments@,
    ) + seq![s.end_byte]
}

/// Plain bytes with the checksum at offset 2 set.
pub open spec fn with_checksum(d: Seq<u8>) -> Seq<u8> {
    d.update(2, checksum_of(d))
}

/// The file a save is written as: its plain bytes, checksum fixed, encrypted.
pub open spec fn file_of(s: WolfSave) -> Seq<u8> {
    crypt(with_checksum(plain_of(s)))
}

/// The shape every parsed save has.
pub open spec fn save_shape(s: WolfSave) -> bool {
    &&& s.header@.len() == 0x14
    &&& s.start_byte == 0x19
    &&& s.end_byte == 0x19
    &&& s.version <= 0x8E
    &&& s.segments@.len() == 7
    &&& s.game_name matches Node::Str { width, .. } && width == 2
    &&& s.path is None
    &&& s.note is None
}

/// Appends a segment; when `cond` holds, its bytes follow those read so far.
fn push_seg(
    segs: &mut Vec<Vec<(String, Node)>>,
    seg: Vec<(String, Node)>,
    Ghost(cond): Ghost<bool>,
    Ghost(d): Ghost<Seq<u8>>,
    Ghost(a): Ghost<int>,
    Ghost(b): Ghost<int>,
    Ghost(e): Ghost<int>,
)
    requires
        cond ==> 0 <= a <= b <= e <= d.len() && segs_bytes(old(segs)@) == d.subrange(a, b)
            && fields_bytes(seg@) == d.subrange(b, e),
    ensures
        final(segs)@ == old(segs)@.push(seg),
        cond ==> segs_bytes(final(segs)@) == d.subrange(a, e),
{
    let ghost s0 = segs@;
    segs.push(seg);
    proof {
        if cond {
            assert(segs@.drop_last() =~= s0);
            lemma_span(d, a, b, e);
        }
    }
}

/// Parses a plain save.
#[verifier::rlimit(40)]
fn parse_plain(plain: &[u8]) -> (r: Result<WolfSave, String>)
    ensures
        r matches Ok(s) ==> save_shape(s) && s.header@ == plain@.subrange(0, 0x14) && s.is_utf8
            == (plain@[6] == 0x55) && (fake_free(plain@) ==> plain_of(s) == plain@),
        r matches Ok(s) ==> fits(s.segments@[1]@, p2_shape(s.version)) && fits(s.segments@[2]@, p3_shape(s.version, s.segments@[2]@))
            && fits(s.segments@[3]@, p4_shape(s.version)) && part5_fits(s.segments@[4]@, s.version)
            && fits(s.segments@[6]@, p7_shape(s.segments@[6]@)),
        plain@.len() < 0x15 ==> r is Err,
        plain@.len() >= 0x15 && plain@[0x14] != 0x19 ==> r is Err,
        r is Ok <==> plain_ok(plain@),
{
    if plain.len() < START_OFFSET + 1 {
        return Err(name("存档文件过短"));
    }
    let header = crate::util::copy_range(plain, 0, START_OFFSET);
    let is_utf8 = plain[6] == 0x55;
    let mut c = Cursor::new(plain);
    c.off = START_OFFSET;
    let ghost c1 = c;
    let start_byte = c.read_u8()?;
    proof {
        assert(plain@.subrange(0x14, 0x15)[0] == plain@[0x14]);
    }
    if start_byte != 0x19 {
        return Err(fmt_hex("起始字节异常（", start_byte as u64, "，应为 0x19）"));
    }
    let ghost o2 = c.off as int;
    let game_name = c.read_str(2)?;
    let ghost o3 = c.off as int;
    let version = c.read_u16()?;
    if version > 0x8E {
        return Err(fmt_hex("文件版本 ", version as u64, " 超出支持范围（最高 0x8e）"));
    }
    let ghost o4 = c.off as int;
    let mut segments: Vec<Vec<(String, Node)>> = Vec::new();
    proof {
        assert(plain@.subrange(o4, o4) =~= Seq::<u8>::empty());
    }
    let ghost b = c.off as int;
    let p = parse_save_part1(&mut c, version)?;
    push_seg(&mut segments, p, Ghost(true), Ghost(plain@), Ghost(o4), Ghost(b), Ghost(c.off as int));
    let ghost b = c.off as int;
    let p = parse_save_part2(&mut c, version)?;
    let ghost seg2 = p@;
    push_seg(&mut segments, p, Ghost(true), Ghost(plain@), Ghost(o4), Ghost(b), Ghost(c.off as int));
    let ghost b = c.off as int;
    let p = parse_save_part3(&mut c, version)?;
    let ghost seg3 = p@;
    push_seg(&mut segments, p, Ghost(true), Ghost(plain@), Ghost(o4), Ghost(b), Ghost(c.off as int));
    let ghost after3 = segments@;
    assert(after3[1]@ == seg2 && after3[2]@ == seg3);
    let ghost b = c.off as int;
    let p = parse_save_part4(&mut c, version)?;
    let ghost seg4 = p@;
    push_seg(&mut segments, p, Ghost(true), Ghost(plain@), Ghost(o4), Ghost(b), Ghost(c.off as int));
    let ghost b = c.off as int;
    let p = parse_save_part5(&mut c, version)?;
    let ghost seg5 = p@;
    push_seg(&mut segments, p, Ghost(true), Ghost(plain@), Ghost(o4), Ghost(b), Ghost(c.off as int));
    let ghost after5 = segments@;
    assert(after5[4]@ == seg5 && after5[3]@ == seg4);
    let ghost b = c.off as int;
    let ghost ok = !var_db_fake(plain@, b);
    assert(var_db_pos(plain@) == Some(b));
    let p = parse_var_db(&mut c)?;
    push_seg(&mut segments, p, Ghost(ok), Ghost(plain@), Ghost(o4), Ghost(b), Ghost(c.off as int));
    let ghost b = c.off as int;
    let p = parse_save_part7(&mut c)?;
    let ghost seg7 = p@;
    push_seg(&mut segments, p, Ghost(ok), Ghost(plain@), Ghost(o4), Ghost(b), Ghost(c.off as int));
    assert(segments@[6]@ == seg7);
    let ghost o5 = c.off as int;
    if plain.len() - c.off != 1 {
        return Err(name("解析结束位置异常"));
    }
    let end_byte = c.read_u8()?;
    assert(plain@.subrange(o5, o5 + 1)[0] == plain@[o5]);
    if end_byte != 0x19 {
        return Err(fmt_hex("结尾字节异常（", end_byte as u64, "，应为 0x19）"));
    }
    assert(segments@[1] == after3[1] && segments@[2] == after3[2] && segments@[3] == after5[3] && segments@[4] == after5[4]);
    let s = WolfSave {
        header,
        start_byte,
        game_name,
        version,
        is_utf8,
        segments,
        end_byte,
        path: None,
        note: None,
    };
    proof {
        if ok {
            let d = plain@;
            lemma_span(d, 0, 0x14, 0x15);
            lemma_span(d, 0, 0x15, o3);
            lemma_span(d, 0, o3, o4);
            lemma_span(d, 0, o4, o5);
            lemma_span(d, 0, o5, d.len() as int);
            assert(d.subrange(0, d.len() as int) =~= d);
            assert(plain_of(s) =~= d);
        }
    }
    Ok(s)
}

impl WolfSave {
    /// Decrypts and parses a save file.
    pub fn from_bytes(bytes: &[u8]) -> (r: Result<WolfSave, String>)
        ensures
            r matches Ok(s) ==> save_shape(s) && s.header@ == crypt(bytes@).subrange(0, 0x14)
                && s.is_utf8 == (crypt(bytes@)[6] == 0x55) && (fake_free(crypt(bytes@))
                ==> plain_of(s) == crypt(bytes@)),
            r matches Ok(s) ==> fits(s.segments@[1]@, p2_shape(s.version)) && fits(s.segments@[2]@, p3_shape(s.version, s.segments@[2]@))
                && fits(s.segments@[3]@, p4_shape(s.version)) && part5_fits(s.segments@[4]@, s.version)
                && fits(s.segments@[6]@, p7_shape(s.segments@[6]@)),
            bytes@.len() < 0x15 ==> r is Err,
            bytes@.len() >= 0x15 && crypt(bytes@)[0x14] != 0x19 ==> r is Err,
            r is Ok <==> plain_ok(crypt(bytes@)),
    {
        let mut plain = vstd::slice::slice_to_vec(bytes);
        decrypt_bytes(plain.as_mut_slice());
        parse_plain(plain.as_slice())
    }

    /// The plain bytes of the save (no checksum fix, no encryption).
    pub fn plain_bytes(&self) -> (r: Vec<u8>)
        ensures
            r@ == plain_of(*self),
    {
        let mut w: Vec<u8> = Vec::new();
        crate::util::append_bytes(&mut w, self.header.as_slice());
        w.push(self.start_byte);
        match &self.game_name {
            Node::Str { width, bytes } => put_str(&mut w, *width, bytes),
            Node::Bytes(b) => crate::util::append_bytes(&mut w, b.as_slice()),
            _ => {},
        }
        put_u16(&mut w, self.version);
        let ghost before = w@;
        let mut i: usize = 0;
        while i < self.segments.len()
            invariant
                i <= self.segments@.len(),
                w@ == before + segs_bytes(self.segments@.subrange(0, i as int)),
            decreases self.segments@.len() - i,
        {
            write_fields(&mut w, &self.segments[i]);
            proof {
                assert(self.segments@.subrange(0, i + 1).drop_last() =~= self.segments@.subrange(0, i as int));
            }
            i = i + 1;
        }
        assert(self.segments@.subrange(0, self.segments@.len() as int) =~= self.segments@);
        w.push(self.end_byte);
        assert(w@ =~= plain_of(*self));
        w
    }

    /// The save file: plain bytes with the checksum recomputed, encrypted.
    pub fn dump_bytes(&self) -> (r: Vec<u8>)
        requires
            plain_of(*self).len() >= 0x14,
        ensures
            r@ == file_of(*self),
    {
        let mut plain = self.plain_bytes();
        fix_checksum(plain.as_mut_slice());
        encrypt_bytes(plain.as_mut_slice());
        plain
    }

    /// The game name as text (empty when it is not a string node).
    pub fn game_name_display(&self) -> (r: String)
        ensures
            match self.game_name {
                Node::Str { bytes, .. } => r@ == (if self.is_utf8 {
                    crate::text::utf8_lossy(crate::wolf::node::strip_nul(bytes@))
                } else {
                    crate::text::sjis_decoded(crate::wolf::node::strip_nul(bytes@))
                }),
                _ => r@ == Seq::<char>::empty(),
            },
    {
        match self.game_name.str_display(self.is_utf8) {
            Some(s) => s,
            None => String::new(),
        }
    }

    /// The variable database segment, when there is one.
    pub fn var_db(&self) -> (r: Option<&Vec<(String, Node)>>)
        ensures
            self.segments@.len() > SEG_VAR_DB ==> (r matches Some(v) && *v == self.segments@[SEG_VAR_DB as int]),
            self.segments@.len() <= SEG_VAR_DB ==> r is None,
    {
        if self.segments.len() > SEG_VAR_DB {
            Some(&self.segments[SEG_VAR_DB])
        } else {
            None
        }
    }

    /// The variable database segment for editing, when there is one.
    pub fn var_db_mut(&mut self) -> (r: Option<&mut Vec<(String, Node)>>)
        ensures
            old(self).segments@.len() > SEG_VAR_DB ==> r is Some && *r.unwrap() == old(self).segments@[SEG_VAR_DB as int]
                && final(self).segments@ == old(self).segments@.update(SEG_VAR_DB as int, *final(r.unwrap()))
                && final(self).header == old(self).header && final(self).game_name == old(self).game_name
                && final(self).version == old(self).version && final(self).start_byte == old(self).start_byte
                && final(self).end_byte == old(self).end_byte && final(self).is_utf8 == old(self).is_utf8,
            old(self).segments@.len() <= SEG_VAR_DB ==> r is None && *final(self) == *old(self),
    {
        if self.segments.len() > SEG_VAR_DB {
            Some(&mut self.segments[SEG_VAR_DB])
        } else {
            None
        }
    }
}

/// Writing back an unedited save gives the file it was read from, whenever
/// the checksum stored in the file was right.
pub proof fn lemma_save_roundtrip(bytes: Seq<u8>, s: WolfSave)
    requires
        plain_of(s) == crypt(bytes),
        bytes.len() >= 0x14,
        crypt(bytes)[2] == checksum_of(crypt(bytes)),
    ensures
        file_of(s) == bytes,
{
    let p = crypt(bytes);
    assert(with_checksum(p) =~= p);
    crate::wolf::crypt::lemma_crypt_involution(bytes);
}

/// Writing a save, reading the written file back and writing that again
/// gives the same file: the reread save's plain bytes are the written file
/// decrypted (what `from_bytes` gives when no variable type has flag -1), and
/// fixing the checksum of bytes whose checksum is fixed changes nothing.
pub proof fn law_save_rewrite_stable(s: WolfSave, re: WolfSave)
    requires
        plain_of(s).len() >= 0x14,
        plain_of(re) == crypt(file_of(s)),
    ensures
        file_of(re) == file_of(s),
{
    let p = plain_of(s);
    let w = with_checksum(p);
    crate::wolf::crypt::lemma_crypt_involution(w);
    assert(w.subrange(0x14, w.len() as int) =~= p.subrange(0x14, p.len() as int));
    assert(checksum_of(w) == checksum_of(p));
    assert(with_checksum(w) =~= w);
}

} // verus!
