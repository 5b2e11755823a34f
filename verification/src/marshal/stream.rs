//! The Marshal 4.8 stream as spec functions: what reading a stream builds
//! (and whether each part of it is written the way the writer writes it),
//! and what writing a tree produces.
use vstd::prelude::*;
use crate::marshal::long::{long_bytes, read_long};
use crate::marshal::model::{Enc, Kind, Sym, TreeModel, E_SYM, FALSE_NODE, NIL_NODE, TRUE_NODE};
use crate::util::first_index;

verus! {

/// A node as plain values.
pub ghost enum KindV {
    Nil,
    True,
    False,
    Fixnum(i64),
    Bignum { sign: bool, words: Seq<u16> },
    Float(Seq<u8>),
    Str { bytes: Seq<u8>, enc: Option<Seq<(u32, u32)>> },
    Sym(u32),
    Regexp { src: Seq<u8>, enc: Option<Seq<(u32, u32)>>, options: u8 },
    Array(Seq<u32>),
    Hash { pairs: Seq<(u32, u32)>, default: Option<u32> },
    Object { class: u32, ivars: Seq<(u32, u32)> },
    Struct { class: u32, members: Seq<(u32, u32)> },
    Class(Seq<u8>),
    Module { name: Seq<u8>, old: bool },
    Extended { mods: Seq<u32>, inner: u32 },
    UClass { cls: u32, inner: u32 },
    Ival { inner: u32, pairs: Seq<(u32, u32)> },
    UserDef { class: u32, payload: Seq<u8>, enc: Option<Seq<(u32, u32)>> },
    UserMarshal { class: u32, inner: u32 },
    Data { class: u32, inner: u32 },
}

/// The encoding pairs of a string, if it has an `I` wrapper.
pub open spec fn enc_view(e: Enc) -> Option<Seq<(u32, u32)>> {
    match e {
        Enc::Plain => None,
        Enc::Ivar { pairs } => Some(pairs@),
    }
}

/// A node of the arena as plain values.
pub open spec fn kind_view(k: Kind) -> KindV {
    match k {
        Kind::Nil => KindV::Nil,
        Kind::True => KindV::True,
        Kind::False => KindV::False,
        Kind::Fixnum(v) => KindV::Fixnum(v),
        Kind::Bignum { sign, words } => KindV::Bignum { sign, words: words@ },
        Kind::Float(f) => KindV::Float(f.raw@),
        Kind::Str(s) => KindV::Str { bytes: s.bytes@, enc: enc_view(s.enc) },
        Kind::Sym(s) => KindV::Sym(s),
        Kind::Regexp { src, options } => KindV::Regexp { src: src.bytes@, enc: enc_view(src.enc), options },
        Kind::Array(items) => KindV::Array(items@),
        Kind::Hash { pairs, default } => KindV::Hash { pairs: pairs@, default },
        Kind::Object { class, ivars } => KindV::Object { class, ivars: ivars@ },
        Kind::Struct { class, members } => KindV::Struct { class, members: members@ },
        Kind::Class(name) => KindV::Class(name@),
        Kind::Module { name, old } => KindV::Module { name: name@, old },
        Kind::Extended { mods, inner } => KindV::Extended { mods: mods@, inner },
        Kind::UClass { cls, inner } => KindV::UClass { cls, inner },
        Kind::Ival { inner, pairs } => KindV::Ival { inner, pairs: pairs@ },
        Kind::UserDef { class, payload } => KindV::UserDef {
            class,
            payload: payload.bytes@,
            enc: enc_view(payload.enc),
        },
        Kind::UserMarshal { class, inner } => KindV::UserMarshal { class, inner },
        Kind::Data { class, inner } => KindV::Data { class, inner },
    }
}

/// The nodes of a tree as plain values.
pub open spec fn nodes_view(m: TreeModel) -> Seq<KindV> {
    m.nodes.map_values(|k: Kind| kind_view(k))
}

/// The spellings of a tree's symbols.
pub open spec fn syms_view(m: TreeModel) -> Seq<Seq<u8>> {
    m.syms.map_values(|s: Sym| s.bytes@)
}

// ---------------------------------------------------------------------------
// Reading
// ---------------------------------------------------------------------------

/// A read result without its canonical flag.
pub open spec fn strip<A>(o: Option<(A, PState, bool)>) -> Option<(A, PState)> {
    match o {
        Some((a, s, _)) => Some((a, s)),
        None => None,
    }
}

/// `t` is the tree that reading ended with: root `v`, nodes and symbols of `s`.
pub open spec fn reads_as(t: TreeModel, v: u32, s: PState) -> bool {
    t.root == v && nodes_view(t) == s.nodes && syms_view(t) == s.syms
}

/// The reader's state before a value at `p`, with nothing read yet.
pub open spec fn fresh_at(p: int) -> PState {
    PState { pos: p, nodes: seq![], syms: seq![], objs: seq![] }
}

/// Reading a whole stream: the header, then one value.
pub open spec fn read_stream(b: Seq<u8>) -> Option<(u32, PState, bool)> {
    if b.len() >= 2 && b[0] == 4u8 && b[1] == 8u8 {
        p_value(b, start_state())
    } else {
        None
    }
}

/// What the reader holds: its position, the nodes built so far, the symbol
/// table, and the object table that `@` links index.
#[verifier::ext_equal]
pub ghost struct PState {
    pub pos: int,
    pub nodes: Seq<KindV>,
    pub syms: Seq<Seq<u8>>,
    pub objs: Seq<u32>,
}

/// The reader's state before the first value of a stream.
pub open spec fn start_state() -> PState {
    fresh_at(2)
}

pub open spec fn at(s: PState, p: int) -> PState {
    PState { pos: p, ..s }
}

/// Appends a node that does not enter the object table.
pub open spec fn push_node(s: PState, k: KindV) -> PState {
    PState { nodes: s.nodes.push(k), ..s }
}

/// Appends a node and enters it in the object table.
pub open spec fn push_obj(s: PState, k: KindV) -> PState {
    PState { nodes: s.nodes.push(k), objs: s.objs.push(s.nodes.len() as u32), ..s }
}

pub open spec fn set_node(s: PState, i: u32, k: KindV) -> PState {
    PState { nodes: s.nodes.update(i as int, k), ..s }
}

/// The integer at `p` takes the bytes the writer would write for it.
pub open spec fn long_canon(b: Seq<u8>, p: int, v: i64, q: int) -> bool {
    b.subrange(p, q) == long_bytes(v)
}

/// `q` lies after `p` and within the stream.
pub open spec fn adv(b: Seq<u8>, p: int, q: int) -> bool {
    p < q <= b.len()
}

/// A length-prefixed byte chunk at `p`: its bytes, the position after it,
/// and whether its length is written in shortest form.
pub open spec fn p_chunk(b: Seq<u8>, p: int) -> Option<(Seq<u8>, int, bool)> {
    match read_long(b, p) {
        None => None,
        Some((n, q)) => if n < 0 || n > b.len() - q {
            None
        } else {
            Some((b.subrange(q, q + n), q + n, long_canon(b, p, n, q)))
        },
    }
}

/// Spells `name`.
pub open spec fn spells(name: Seq<u8>) -> spec_fn(Seq<u8>) -> bool {
    |x: Seq<u8>| x == name
}

/// The symbol `name`: its index, found or appended, and whether it was new.
pub open spec fn with_sym(s: PState, name: Seq<u8>) -> (u32, PState, bool) {
    match first_index(s.syms, spells(name)) {
        Some(i) => (i as u32, s, false),
        None => (s.syms.len() as u32, PState { syms: s.syms.push(name), ..s }, true),
    }
}

/// A symbol reference: `:` with a name, or `;` with a table index.
pub open spec fn p_symref(b: Seq<u8>, s: PState) -> Option<(u32, PState, bool)> {
    if s.pos < 0 || s.pos >= b.len() {
        None
    } else if b[s.pos] == 58u8 {
        match p_chunk(b, s.pos + 1) {
            None => None,
            Some((name, q, c)) => {
                let (i, s2, fresh) = with_sym(at(s, q), name);
                Some((i, s2, c && fresh))
            },
        }
    } else if b[s.pos] == 59u8 {
        match read_long(b, s.pos + 1) {
            None => None,
            Some((i, q)) => if ((i as u32) as int) < s.syms.len() {
                Some((i as u32, at(s, q), long_canon(b, s.pos + 1, i, q) && 0 <= i <= 0xffff_ffff))
            } else {
                None
            },
        }
    } else {
        None
    }
}

/// One value at `s.pos`: its node (or sentinel), the state after it, and
/// whether it is written the way the writer writes it.
pub open spec fn p_value(b: Seq<u8>, s: PState) -> Option<(u32, PState, bool)>
    decreases b.len() - s.pos, 0int, 0int,
{
    if s.pos < 0 || s.pos >= b.len() {
        None
    } else {
        let t = b[s.pos];
        let p = s.pos + 1;
        let fresh = s.nodes.len() as u32;
        if t == 48u8 {
            Some((NIL_NODE, at(s, p), true))
        } else if t == 84u8 {
            Some((TRUE_NODE, at(s, p), true))
        } else if t == 70u8 {
            Some((FALSE_NODE, at(s, p), true))
        } else if t == 105u8 {
            match read_long(b, p) {
                None => None,
                Some((v, q)) => Some((
                    fresh,
                    push_node(at(s, q), KindV::Fixnum(v)),
                    long_canon(b, p, v, q) && -0x8000_0000 <= v <= 0x7fff_ffff,
                )),
            }
        } else if t == 102u8 {
            match p_chunk(b, p) {
                None => None,
                Some((raw, q, c)) => Some((fresh, push_obj(at(s, q), KindV::Float(raw)), c)),
            }
        } else if t == 34u8 {
            match p_chunk(b, p) {
                None => None,
                Some((bytes, q, c)) => Some((fresh, push_obj(at(s, q), KindV::Str { bytes, enc: None }), c)),
            }
        } else if t == 58u8 {
            match p_chunk(b, p) {
                None => None,
                Some((name, q, c)) => {
                    let (i, s2, new_sym) = with_sym(at(s, q), name);
                    Some((fresh, push_node(s2, KindV::Sym(i)), c && new_sym))
                },
            }
        } else if t == 59u8 {
            match read_long(b, p) {
                None => None,
                Some((i, q)) => if ((i as u32) as int) < s.syms.len() {
                    Some((
                        fresh,
                        push_node(at(s, q), KindV::Sym(i as u32)),
                        long_canon(b, p, i, q) && 0 <= i <= 0xffff_ffff,
                    ))
                } else {
                    None
                },
            }
        } else if t == 91u8 {
            p_array(b, at(s, p))
        } else if t == 123u8 || t == 125u8 {
            p_hash(b, at(s, p), t == 125u8)
        } else if t == 111u8 || t == 83u8 {
            p_object(b, at(s, p), t == 83u8)
        } else if t == 99u8 {
            match p_chunk(b, p) {
                None => None,
                Some((name, q, c)) => Some((fresh, push_obj(at(s, q), KindV::Class(name)), c)),
            }
        } else if t == 109u8 || t == 77u8 {
            match p_chunk(b, p) {
                None => None,
                Some((name, q, c)) => Some((
                    fresh,
                    push_obj(at(s, q), KindV::Module { name, old: t == 77u8 }),
                    c,
                )),
            }
        } else if t == 47u8 {
            match p_chunk(b, p) {
                None => None,
                Some((src, q, c)) => if q < b.len() {
                    Some((
                        fresh,
                        push_obj(at(s, q + 1), KindV::Regexp { src, enc: None, options: b[q] }),
                        c,
                    ))
                } else {
                    None
                },
            }
        } else if t == 108u8 {
            p_bignum(b, at(s, p))
        } else if t == 117u8 {
            match p_symref(b, at(s, p)) {
                None => None,
                Some((class, s2, c1)) => match p_chunk(b, s2.pos) {
                    None => None,
                    Some((payload, q, c2)) => Some((
                        s2.nodes.len() as u32,
                        push_obj(at(s2, q), KindV::UserDef { class, payload, enc: None }),
                        c1 && c2,
                    )),
                },
            }
        } else if t == 85u8 || t == 100u8 {
            p_wrapped(b, at(s, p), t == 100u8)
        } else if t == 73u8 {
            p_ivar(b, at(s, p))
        } else if t == 101u8 {
            p_extended(b, at(s, p))
        } else if t == 67u8 {
            match p_symref(b, at(s, p)) {
                None => None,
                Some((cls, s2, c1)) => if !adv(b, s.pos, s2.pos) {
                    None
                } else {
                    match p_value(b, s2) {
                        None => None,
                        Some((inner, s3, c2)) => Some((
                            s3.nodes.len() as u32,
                            push_node(s3, KindV::UClass { cls, inner }),
                            c1 && c2,
                        )),
                    }
                },
            }
        } else if t == 64u8 {
            match read_long(b, p) {
                None => None,
                Some((i, q)) => if ((i as u32) as int) < s.objs.len() {
                    Some((s.objs[(i as u32) as int], at(s, q), long_canon(b, p, i, q) && 0 <= i <= 0xffff_ffff))
                } else {
                    None
                },
            }
        } else {
            None
        }
    }
}

/// `[` after its tag: the count, then the items.
pub open spec fn p_array(b: Seq<u8>, s: PState) -> Option<(u32, PState, bool)>
    decreases b.len() - s.pos, 1int, 0int,
{
    match read_long(b, s.pos) {
        None => None,
        Some((n, q)) => if n < 0 || !adv(b, s.pos, q) {
            None
        } else {
            let idx = s.nodes.len() as u32;
            match p_items(b, push_obj(at(s, q), KindV::Array(seq![])), n, 0, seq![]) {
                None => None,
                Some((items, s3, c)) => Some((idx, set_node(s3, idx, KindV::Array(items)), c && long_canon(b, s.pos, n, q))),
            }
        },
    }
}

/// Items `i..n` of an array, after those in `acc`.
pub open spec fn p_items(b: Seq<u8>, s: PState, n: i64, i: int, acc: Seq<u32>) -> Option<(Seq<u32>, PState, bool)>
    decreases b.len() - s.pos, 2int, n - i,
{
    if i >= n {
        Some((acc, s, true))
    } else {
        match p_value(b, s) {
            None => None,
            Some((v, s2, c)) => if !adv(b, s.pos, s2.pos) {
                None
            } else {
                match p_items(b, s2, n, i + 1, acc.push(v)) {
                    None => None,
                    Some((a, s3, c2)) => Some((a, s3, c && c2)),
                }
            },
        }
    }
}

/// `{` / `}` after its tag: the count, the pairs, and for `}` the default.
pub open spec fn p_hash(b: Seq<u8>, s: PState, dflt: bool) -> Option<(u32, PState, bool)>
    decreases b.len() - s.pos, 1int, 0int,
{
    match read_long(b, s.pos) {
        None => None,
        Some((n, q)) => if n < 0 || !adv(b, s.pos, q) {
            None
        } else {
            let idx = s.nodes.len() as u32;
            match p_hpairs(b, push_obj(at(s, q), KindV::Hash { pairs: seq![], default: None }), n, 0, seq![]) {
                None => None,
                Some((pairs, s3, c)) => if !dflt {
                    Some((idx, set_node(s3, idx, KindV::Hash { pairs, default: None }), c && long_canon(b, s.pos, n, q)))
                } else if !adv(b, s.pos, s3.pos) {
                    None
                } else {
                    match p_value(b, s3) {
                        None => None,
                        Some((d, s4, c2)) => Some((
                            idx,
                            set_node(s4, idx, KindV::Hash { pairs, default: Some(d) }),
                            c && c2 && long_canon(b, s.pos, n, q),
                        )),
                    }
                },
            }
        },
    }
}

/// Pairs `i..n` of a hash, after those in `acc`.
pub open spec fn p_hpairs(b: Seq<u8>, s: PState, n: i64, i: int, acc: Seq<(u32, u32)>) -> Option<(Seq<(u32, u32)>, PState, bool)>
    decreases b.len() - s.pos, 2int, n - i,
{
    if i >= n {
        Some((acc, s, true))
    } else {
        match p_value(b, s) {
            None => None,
            Some((k, s2, c1)) => if !adv(b, s.pos, s2.pos) {
                None
            } else {
                match p_value(b, s2) {
                    None => None,
                    Some((v, s3, c2)) => if !adv(b, s2.pos, s3.pos) {
                        None
                    } else {
                        match p_hpairs(b, s3, n, i + 1, acc.push((k, v))) {
                            None => None,
                            Some((a, s4, c3)) => Some((a, s4, c1 && c2 && c3)),
                        }
                    },
                }
            },
        }
    }
}

/// `o` / `S` after its tag: class, count, then (symbol, value) pairs.
pub open spec fn p_object(b: Seq<u8>, s: PState, is_struct: bool) -> Option<(u32, PState, bool)>
    decreases b.len() - s.pos, 1int, 0int,
{
    match p_symref(b, s) {
        None => None,
        Some((class, s2, c1)) => match read_long(b, s2.pos) {
            None => None,
            Some((n, q)) => if !adv(b, s.pos, q) {
                None
            } else {
                let idx = s2.nodes.len() as u32;
                let k = if is_struct {
                    KindV::Struct { class, members: seq![] }
                } else {
                    KindV::Object { class, ivars: seq![] }
                };
                match p_spairs(b, push_obj(at(s2, q), k), n, 0, seq![]) {
                    None => None,
                    Some((ps, s3, c2)) => {
                        let k2 = if is_struct {
                            KindV::Struct { class, members: ps }
                        } else {
                            KindV::Object { class, ivars: ps }
                        };
                        Some((idx, set_node(s3, idx, k2), c1 && c2 && n >= 0 && long_canon(b, s2.pos, n, q)))
                    },
                }
            },
        },
    }
}

/// Pairs `i..n` of (symbol, value), after those in `acc`.
pub open spec fn p_spairs(b: Seq<u8>, s: PState, n: i64, i: int, acc: Seq<(u32, u32)>) -> Option<(Seq<(u32, u32)>, PState, bool)>
    decreases b.len() - s.pos, 2int, n - i,
{
    if i >= n {
        Some((acc, s, true))
    } else {
        match p_symref(b, s) {
            None => None,
            Some((k, s2, c1)) => if !adv(b, s.pos, s2.pos) {
                None
            } else {
                match p_value(b, s2) {
                    None => None,
                    Some((v, s3, c2)) => if !adv(b, s2.pos, s3.pos) {
                        None
                    } else {
                        match p_spairs(b, s3, n, i + 1, acc.push((k, v))) {
                            None => None,
                            Some((a, s4, c3)) => Some((a, s4, c1 && c2 && c3)),
                        }
                    },
                }
            },
        }
    }
}

/// The 16-bit words of a bignum: `n` little-endian pairs of bytes at `q`.
pub open spec fn words_at(b: Seq<u8>, q: int, n: nat) -> Seq<u16> {
    Seq::new(n, |i: int| (b[q + 2 * i] as int + b[q + 2 * i + 1] as int * 256) as u16)
}

/// `l` after its tag: sign byte, word count, the words.
pub open spec fn p_bignum(b: Seq<u8>, s: PState) -> Option<(u32, PState, bool)> {
    if s.pos < 0 || s.pos >= b.len() {
        None
    } else {
        match read_long(b, s.pos + 1) {
            None => None,
            Some((n, q)) => if n < 0 || n > (b.len() - q) / 2 {
                None
            } else {
                Some((
                    s.nodes.len() as u32,
                    push_obj(
                        at(s, q + 2 * n),
                        KindV::Bignum { sign: b[s.pos] == 43u8, words: words_at(b, q, n as nat) },
                    ),
                    (b[s.pos] == 43u8 || b[s.pos] == 45u8) && long_canon(b, s.pos + 1, n, q),
                ))
            },
        }
    }
}

/// `U` / `d` after its tag: class, then the wrapped value.
pub open spec fn p_wrapped(b: Seq<u8>, s: PState, is_data: bool) -> Option<(u32, PState, bool)>
    decreases b.len() - s.pos, 1int, 0int,
{
    match p_symref(b, s) {
        None => None,
        Some((class, s2, c1)) => if !adv(b, s.pos, s2.pos) {
            None
        } else {
            let idx = s2.nodes.len() as u32;
            let k = if is_data {
                KindV::Data { class, inner: NIL_NODE }
            } else {
                KindV::UserMarshal { class, inner: NIL_NODE }
            };
            match p_value(b, push_obj(s2, k)) {
                None => None,
                Some((inner, s3, c2)) => {
                    let k2 = if is_data {
                        KindV::Data { class, inner }
                    } else {
                        KindV::UserMarshal { class, inner }
                    };
                    Some((idx, set_node(s3, idx, k2), c1 && c2))
                },
            }
        },
    }
}

/// `I` after its tag: the value, a count, then (symbol, value) pairs; a
/// string takes the pairs as its encoding, anything else is wrapped. It is
/// canonical for a string only when the string was read right there.
pub open spec fn p_ivar(b: Seq<u8>, s: PState) -> Option<(u32, PState, bool)>
    decreases b.len() - s.pos, 1int, 0int,
{
    match p_value(b, s) {
        None => None,
        Some((x, s2, c1)) => if !adv(b, s.pos, s2.pos) {
            None
        } else {
            match read_long(b, s2.pos) {
                None => None,
                Some((n, q)) => if !adv(b, s2.pos, q) {
                    None
                } else {
                    match p_spairs(b, at(s2, q), n, 0, seq![]) {
                        None => None,
                        Some((ps, s3, c2)) => {
                            let c = c1 && c2 && n >= 0 && long_canon(b, s2.pos, n, q);
                            if (x as int) < s3.nodes.len() && s3.nodes[x as int] is Str {
                                Some((
                                    x,
                                    set_node(s3, x, KindV::Str { bytes: s3.nodes[x as int]->Str_bytes, enc: Some(ps) }),
                                    c && b[s.pos] == 34u8,
                                ))
                            } else {
                                Some((s3.nodes.len() as u32, push_node(s3, KindV::Ival { inner: x, pairs: ps }), c))
                            }
                        },
                    }
                },
            }
        },
    }
}

/// `e` after its tag: a module, then the extended value; stacked
/// extensions merge into one node.
pub open spec fn p_extended(b: Seq<u8>, s: PState) -> Option<(u32, PState, bool)>
    decreases b.len() - s.pos, 1int, 0int,
{
    match p_symref(b, s) {
        None => None,
        Some((m, s2, c1)) => if !adv(b, s.pos, s2.pos) {
            None
        } else {
            match p_value(b, s2) {
                None => None,
                Some((x, s3, c2)) => if (x as int) < s3.nodes.len() && s3.nodes[x as int] is Extended {
                    Some((
                        x,
                        set_node(
                            s3,
                            x,
                            KindV::Extended {
                                mods: seq![m] + s3.nodes[x as int]->Extended_mods,
                                inner: s3.nodes[x as int]->Extended_inner,
                            },
                        ),
                        c1 && c2,
                    ))
                } else {
                    Some((s3.nodes.len() as u32, push_node(s3, KindV::Extended { mods: seq![m], inner: x }), c1 && c2))
                },
            }
        },
    }
}

// ---------------------------------------------------------------------------
// Writing
// ---------------------------------------------------------------------------

/// A tree's nodes and symbol spellings.
pub ghost struct TreeV {
    pub nodes: Seq<KindV>,
    pub syms: Seq<Seq<u8>>,
}

/// A tree as plain values.
pub open spec fn tree_view(t: TreeModel) -> TreeV {
    TreeV { nodes: nodes_view(t), syms: syms_view(t) }
}

/// What the writer holds: the output, which symbols it has written, the
/// object-table position of each node written so far, and the next position.
#[verifier::ext_equal]
pub ghost struct DState {
    pub out: Seq<u8>,
    pub written: Seq<bool>,
    pub pos: Seq<Option<u64>>,
    pub count: u64,
}

/// Number of nodes not yet entered in the object table.
pub open spec fn unentered(s: Seq<Option<u64>>) -> nat
    decreases s.len(),
{
    if s.len() == 0 {
        0
    } else {
        unentered(s.drop_last()) + if s.last() is None { 1nat } else { 0nat }
    }
}

pub proof fn lemma_unentered_le(s: Seq<Option<u64>>)
    ensures
        unentered(s) <= s.len(),
    decreases s.len(),
{
    if s.len() > 0 {
        lemma_unentered_le(s.drop_last());
    }
}

pub proof fn lemma_unentered_update(s: Seq<Option<u64>>, i: int, x: u64)
    requires
        0 <= i < s.len(),
        s[i] is None,
    ensures
        unentered(s) >= 1,
        unentered(s.update(i, Some(x))) == unentered(s) - 1,
    decreases s.len(),
{
    let t = s.update(i, Some(x));
    if i == s.len() - 1 {
        assert(t.drop_last() =~= s.drop_last());
    } else {
        assert(t.drop_last() =~= s.drop_last().update(i, Some(x)));
        lemma_unentered_update(s.drop_last(), i, x);
    }
}

/// Nothing entered: every node counts.
pub proof fn lemma_unentered_none(n: nat)
    ensures
        unentered(Seq::new(n, |i: int| None::<u64>)) == n,
    decreases n,
{
    if n > 0 {
        assert(Seq::new(n, |i: int| None::<u64>).drop_last() =~= Seq::new((n - 1) as nat, |i: int| None::<u64>));
        lemma_unentered_none((n - 1) as nat);
    }
}

/// Order on references used for termination: sentinels lowest.
pub open spec fn rank(m: TreeV, idx: u32) -> nat {
    if idx == NIL_NODE || idx == TRUE_NODE || idx == FALSE_NODE {
        0
    } else if (idx as int) < m.nodes.len() {
        idx as nat + 1
    } else {
        0
    }
}

/// `i` is a sentinel or a node below `bound`.
pub open spec fn ref_below(i: u32, bound: nat) -> bool {
    i == NIL_NODE || i == TRUE_NODE || i == FALSE_NODE || (i as nat) < bound
}

pub open spec fn emit(d: DState, bytes: Seq<u8>) -> DState {
    DState { out: d.out + bytes, ..d }
}

/// A length-prefixed chunk.
pub open spec fn chunk_bytes(x: Seq<u8>) -> Seq<u8> {
    long_bytes(x.len() as i64) + x
}

/// Writes symbol `i`: `:name` the first time, `;i` afterwards; the `:E`
/// marker is always spelled out.
pub open spec fn w_sym(m: TreeV, d: DState, i: u32) -> DState {
    if i == E_SYM {
        DState { out: d.out + seq![58u8] + chunk_bytes(seq![69u8]), ..d }
    } else if d.written[i as int] {
        DState { out: d.out + seq![59u8] + long_bytes(i as i64), ..d }
    } else {
        DState { out: d.out + seq![58u8] + chunk_bytes(m.syms[i as int]), written: d.written.update(i as int, true), ..d }
    }
}

/// Writes the symbols `mods[j..]`, each after an `e`.
pub open spec fn w_mods(m: TreeV, d: DState, mods: Seq<u32>, j: int) -> DState
    decreases mods.len() - j,
{
    if j >= mods.len() {
        d
    } else {
        w_mods(m, w_sym(m, emit(d, seq![101u8]), mods[j]), mods, j + 1)
    }
}

/// The 16-bit words of `v`, least significant first.
pub open spec fn nat_words(v: nat) -> Seq<u16>
    decreases v,
{
    if v == 0 {
        seq![]
    } else {
        seq![(v % 0x10000) as u16] + nat_words(v / 0x10000)
    }
}

/// Each word as two bytes, low first.
pub open spec fn words_bytes(w: Seq<u16>) -> Seq<u8>
    decreases w.len(),
{
    if w.len() == 0 {
        seq![]
    } else {
        words_bytes(w.drop_last()) + seq![(w.last() % 256) as u8, (w.last() / 256) as u8]
    }
}

/// `l`, sign, word count, words.
pub open spec fn bignum_bytes(sign: bool, w: Seq<u16>) -> Seq<u8> {
    seq![108u8, if sign { 43u8 } else { 45u8 }] + long_bytes(w.len() as i64) + words_bytes(w)
}

/// An integer outside the 32-bit range, as a bignum.
pub open spec fn wide_int_bytes(x: i64) -> Seq<u8> {
    let a: nat = if x >= 0 { x as nat } else { (-x) as nat };
    let w = if nat_words(a).len() == 0 { seq![0u16] } else { nat_words(a) };
    bignum_bytes(x >= 0, w)
}

/// Kinds that are written without entering the object table.
pub open spec fn unlinked(k: KindV) -> bool {
    k is Fixnum || k is Sym || k is Nil || k is True || k is False || k is Extended || k is UClass || k is Ival
}

/// Writes the value `idx` (Ruby's `w_object`).
pub open spec fn d_node(m: TreeV, d: DState, idx: u32) -> DState
    decreases unentered(d.pos), 2 * rank(m, idx) + 1, 0int,
{
    if idx == TRUE_NODE {
        emit(d, seq![84u8])
    } else if idx == FALSE_NODE {
        emit(d, seq![70u8])
    } else if idx == NIL_NODE {
        emit(d, seq![48u8])
    } else if idx as int >= m.nodes.len() {
        d
    } else {
        match m.nodes[idx as int] {
            KindV::Fixnum(v) => if -0x8000_0000 <= v <= 0x7fff_ffff {
                emit(d, seq![105u8] + long_bytes(v))
            } else {
                emit(d, wide_int_bytes(v))
            },
            KindV::Sym(s) => w_sym(m, d, s),
            KindV::Nil => emit(d, seq![48u8]),
            KindV::True => emit(d, seq![84u8]),
            KindV::False => emit(d, seq![70u8]),
            KindV::Extended { mods, inner } => if !ref_below(inner, idx as nat) {
                d
            } else {
                let d1 = w_mods(m, d, mods, 0);
                d_node(m, DState { pos: d.pos, ..d1 }, inner)
            },
            KindV::UClass { cls, inner } => if !ref_below(inner, idx as nat) {
                d
            } else {
                let d1 = w_sym(m, emit(d, seq![67u8]), cls);
                d_node(m, DState { pos: d.pos, ..d1 }, inner)
            },
            KindV::Ival { inner, pairs } => if !ref_below(inner, idx as nat) {
                d
            } else {
                let d1 = d_node(m, emit(d, seq![73u8]), inner);
                if unentered(d1.pos) > unentered(d.pos) {
                    d1
                } else {
                    d_spairs(m, emit(d1, long_bytes(pairs.len() as i64)), pairs, 0, idx as nat)
                }
            },
            _ => d_link(m, d, idx),
        }
    }
}

/// A value that enters the object table: `@pos` when it was written before.
pub open spec fn d_link(m: TreeV, d: DState, idx: u32) -> DState
    decreases unentered(d.pos), 0int, 0int,
{
    if idx as int >= m.nodes.len() || unlinked(m.nodes[idx as int]) {
        d
    } else {
        match d.pos[idx as int] {
            Some(p) => emit(d, seq![64u8] + long_bytes(p as i64)),
            None => {
                let d1 = DState { pos: d.pos.update(idx as int, Some(d.count)), count: (d.count + 1) as u64, ..d };
                if unentered(d1.pos) >= unentered(d.pos) {
                    d1
                } else {
                    d_body(m, d1, idx)
                }
            },
        }
    }
}

/// The body of a value that was just entered in the object table.
pub open spec fn d_body(m: TreeV, d: DState, idx: u32) -> DState
    decreases unentered(d.pos), 2 * m.nodes.len() + 4, 0int,
{
    let n = m.nodes.len();
    match m.nodes[idx as int] {
        KindV::Float(raw) => emit(d, seq![102u8] + chunk_bytes(raw)),
        KindV::Str { bytes, enc } => d_str(m, d, bytes, enc),
        KindV::Regexp { src, enc, options } => match enc {
            None => emit(d, seq![47u8] + chunk_bytes(src) + seq![options]),
            Some(pairs) => d_spairs(
                m,
                emit(d, seq![73u8, 47u8] + chunk_bytes(src) + seq![options] + long_bytes(pairs.len() as i64)),
                pairs,
                0,
                m.nodes.len(),
            ),
        },
        KindV::Array(items) => d_items(m, emit(d, seq![91u8] + long_bytes(items.len() as i64)), items, 0),
        KindV::Hash { pairs, default } => {
            let d2 = d_hpairs(
                m,
                emit(d, seq![if default is Some { 125u8 } else { 123u8 }] + long_bytes(pairs.len() as i64)),
                pairs,
                0,
            );
            match default {
                Some(x) => if unentered(d2.pos) > unentered(d.pos) || !ref_below(x, n) {
                    d2
                } else {
                    d_node(m, d2, x)
                },
                None => d2,
            }
        },
        KindV::Object { class, ivars } => d_spairs(
            m,
            emit(w_sym(m, emit(d, seq![111u8]), class), long_bytes(ivars.len() as i64)),
            ivars,
            0,
            n,
        ),
        KindV::Struct { class, members } => d_spairs(
            m,
            emit(w_sym(m, emit(d, seq![83u8]), class), long_bytes(members.len() as i64)),
            members,
            0,
            n,
        ),
        KindV::Class(name) => emit(d, seq![99u8] + chunk_bytes(name)),
        KindV::Module { name, old } => emit(d, seq![if old { 77u8 } else { 109u8 }] + chunk_bytes(name)),
        KindV::Bignum { sign, words } => emit(d, bignum_bytes(sign, words)),
        KindV::UserDef { class, payload, enc } => {
            let has = enc matches Some(p) && p.len() > 0;
            let d1 = if has { emit(d, seq![73u8]) } else { d };
            let d2 = emit(w_sym(m, emit(d1, seq![117u8]), class), chunk_bytes(payload));
            if has {
                d_spairs(m, emit(d2, long_bytes(enc->0.len() as i64)), enc->0, 0, n)
            } else {
                d2
            }
        },
        KindV::UserMarshal { class, inner } => if !ref_below(inner, n) {
            d
        } else {
            d_node(m, w_sym(m, emit(d, seq![85u8]), class), inner)
        },
        KindV::Data { class, inner } => if !ref_below(inner, n) {
            d
        } else {
            d_node(m, w_sym(m, emit(d, seq![100u8]), class), inner)
        },
        _ => d,
    }
}

/// A string with its encoding wrapper.
pub open spec fn d_str(m: TreeV, d: DState, bytes: Seq<u8>, enc: Option<Seq<(u32, u32)>>) -> DState
    decreases unentered(d.pos), 2 * m.nodes.len() + 3, 0int,
{
    match enc {
        None => emit(d, seq![34u8] + chunk_bytes(bytes)),
        Some(pairs) => d_spairs(
            m,
            emit(d, seq![73u8, 34u8] + chunk_bytes(bytes) + long_bytes(pairs.len() as i64)),
            pairs,
            0,
            m.nodes.len(),
        ),
    }
}

/// Items `j..` of an array.
pub open spec fn d_items(m: TreeV, d: DState, items: Seq<u32>, j: int) -> DState
    decreases unentered(d.pos), 2 * m.nodes.len() + 3, items.len() - j,
{
    if j >= items.len() || !ref_below(items[j], m.nodes.len()) {
        d
    } else {
        let d1 = d_node(m, d, items[j]);
        if unentered(d1.pos) > unentered(d.pos) {
            d1
        } else {
            d_items(m, d1, items, j + 1)
        }
    }
}

/// Pairs `j..` of a hash.
pub open spec fn d_hpairs(m: TreeV, d: DState, pairs: Seq<(u32, u32)>, j: int) -> DState
    decreases unentered(d.pos), 2 * m.nodes.len() + 3, pairs.len() - j,
{
    if j >= pairs.len() || !ref_below(pairs[j].0, m.nodes.len()) || !ref_below(pairs[j].1, m.nodes.len()) {
        d
    } else {
        let d1 = d_node(m, d, pairs[j].0);
        if unentered(d1.pos) > unentered(d.pos) {
            d1
        } else {
            let d2 = d_node(m, d1, pairs[j].1);
            if unentered(d2.pos) > unentered(d.pos) {
                d2
            } else {
                d_hpairs(m, d2, pairs, j + 1)
            }
        }
    }
}

/// Pairs `j..` of (symbol, value), values below `bound`.
pub open spec fn d_spairs(m: TreeV, d: DState, pairs: Seq<(u32, u32)>, j: int, bound: nat) -> DState
    decreases unentered(d.pos), 2 * bound + 2, pairs.len() - j,
{
    if j >= pairs.len() || !ref_below(pairs[j].1, bound) || bound > m.nodes.len() {
        d
    } else {
        let d1 = w_sym(m, d, pairs[j].0);
        let d2 = d_node(m, DState { pos: d.pos, ..d1 }, pairs[j].1);
        if unentered(d2.pos) > unentered(d.pos) {
            d2
        } else {
            d_spairs(m, d2, pairs, j + 1, bound)
        }
    }
}

/// The writer's state before the root: the header written, nothing entered.
pub open spec fn dump_start(m: TreeV) -> DState {
    DState {
        out: seq![4u8, 8u8],
        written: Seq::new(m.syms.len(), |i: int| false),
        pos: Seq::new(m.nodes.len(), |i: int| None::<u64>),
        count: 0,
    }
}

/// The stream a tree is written as.
pub open spec fn dump_of(m: TreeV, root: u32) -> Seq<u8> {
    d_node(m, dump_start(m), root).out
}

} // verus!
