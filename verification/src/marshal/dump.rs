//! Writing a tree back to a Marshal stream (Ruby's `w_object`).
use vstd::prelude::*;
use crate::marshal::long::w_long;
use crate::marshal::model::{
    Enc, Kind, StrData, TreeModel, E_SYM, FALSE_NODE, MARSHAL_HEADER, NIL_NODE, TRUE_NODE,
    is_wrapper, kind_ok, ref_ok,
};
use crate::marshal::stream::{
    DState, KindV, TreeV, bignum_bytes, chunk_bytes, d_body, d_hpairs, d_items, d_link, d_node,
    d_spairs, d_str, dump_of, dump_start, emit, kind_view, nat_words, tree_view, unentered,
    unlinked, w_mods, w_sym, wide_int_bytes, words_bytes, lemma_unentered_le, lemma_unentered_update,
};
use crate::marshal::tree::Tree;
use crate::util::append_bytes;

verus! {

/// Writer state: output, which symbols were written already (later
/// occurrences become `;` links), and the object-table position of each
/// node written so far (later occurrences become `@` links).
struct Dumper {
    out: Vec<u8>,
    syms_written: Vec<bool>,
    obj_pos: Vec<Option<u64>>,
    obj_count: u64,
}

/// The writer's state as plain values.
spec fn dv(d: Dumper) -> DState {
    DState { out: d.out@, written: d.syms_written@, pos: d.obj_pos@, count: d.obj_count }
}

/// The writer's tables match the tree.
spec fn d_ok(d: Dumper, m: TreeModel) -> bool {
    &&& d.obj_pos@.len() == m.nodes.len()
    &&& d.syms_written@.len() == m.syms.len()
    &&& d.obj_count + unentered(d.obj_pos@) == m.nodes.len()
    &&& m.nodes.len() <= NIL_NODE
}

/// Order on references used to show that writing terminates.
spec fn rank(m: TreeModel, idx: u32) -> nat {
    if (idx as nat) < m.nodes.len() { idx as nat + 1 } else { 0 }
}

/// What a write step does to the writer: it only appends and only enters nodes.
spec fn advances(a: Dumper, b: Dumper) -> bool {
    &&& unentered(b.obj_pos@) <= unentered(a.obj_pos@)
    &&& b.out@.len() >= a.out@.len()
    &&& forall|i: int| 0 <= i < a.out@.len() ==> #[trigger] b.out@[i] == a.out@[i]
}

proof fn lemma_advances_trans(a: Dumper, b: Dumper, c: Dumper)
    requires
        advances(a, b),
        advances(b, c),
    ensures
        advances(a, c),
{
}

fn w_byte(d: &mut Dumper, b: u8)
    ensures
        final(d).out@ == old(d).out@.push(b),
        final(d).syms_written == old(d).syms_written,
        final(d).obj_pos == old(d).obj_pos,
        final(d).obj_count == old(d).obj_count,
        dv(*final(d)) == emit(dv(*old(d)), seq![b]),
{
    d.out.push(b);
    assert(dv(*d) =~= emit(dv(*old(d)), seq![b]));
}

fn w_long_d(d: &mut Dumper, x: i64)
    ensures
        final(d).out@ == old(d).out@ + crate::marshal::long::long_bytes(x),
        final(d).syms_written == old(d).syms_written,
        final(d).obj_pos == old(d).obj_pos,
        final(d).obj_count == old(d).obj_count,
        dv(*final(d)) == emit(dv(*old(d)), crate::marshal::long::long_bytes(x)),
{
    w_long(&mut d.out, x);
    assert(dv(*d) =~= emit(dv(*old(d)), crate::marshal::long::long_bytes(x)));
}

/// A length-prefixed byte chunk.
fn w_chunk(d: &mut Dumper, bytes: &[u8])
    ensures
        final(d).out@ == old(d).out@ + crate::marshal::long::long_bytes(bytes@.len() as i64) + bytes@,
        final(d).syms_written == old(d).syms_written,
        final(d).obj_pos == old(d).obj_pos,
        final(d).obj_count == old(d).obj_count,
        dv(*final(d)) == emit(dv(*old(d)), chunk_bytes(bytes@)),
{
    w_long_d(d, bytes.len() as i64);
    append_bytes(&mut d.out, bytes);
    assert(dv(*d) =~= emit(dv(*old(d)), chunk_bytes(bytes@)));
}

/// A symbol: `:name` the first time, `;index` afterwards; the `:E` marker is always spelled out.
fn w_symbol(d: &mut Dumper, tree: &Tree, idx: u32)
    requires
        tree@.wf(),
        d_ok(*old(d), tree@),
        (idx as nat) < tree@.syms.len() || idx == E_SYM,
    ensures
        d_ok(*final(d), tree@),
        final(d).obj_pos == old(d).obj_pos,
        final(d).obj_count == old(d).obj_count,
        advances(*old(d), *final(d)),
        dv(*final(d)) == w_sym(tree_view(tree@), dv(*old(d)), idx),
{
    let ghost d0 = dv(*d);
    if idx == E_SYM {
        w_byte(d, 58u8);
        let e: [u8; 1] = [69u8];
        w_chunk(d, e.as_slice());
        assert(e@ =~= seq![69u8]);
        assert(dv(*d) =~= w_sym(tree_view(tree@), d0, idx));
    } else if d.syms_written[idx as usize] {
        w_byte(d, 59u8);
        w_long_d(d, idx as i64);
        assert(dv(*d) =~= w_sym(tree_view(tree@), d0, idx));
    } else {
        let s = tree.sym(idx);
        w_byte(d, 58u8);
        w_chunk(d, s.bytes.as_slice());
        d.syms_written.set(idx as usize, true);
        assert(tree_view(tree@).syms[idx as int] == s.bytes@);
        assert(dv(*d) =~= w_sym(tree_view(tree@), d0, idx));
    }
}

/// Writes `@pos` if the node was written before; otherwise enters it in the
/// object table and returns false.
fn link_or_enter(d: &mut Dumper, tree: &Tree, idx: u32) -> (linked: bool)
    requires
        d_ok(*old(d), tree@),
        (idx as nat) < tree@.nodes.len(),
    ensures
        d_ok(*final(d), tree@),
        advances(*old(d), *final(d)),
        linked ==> unentered(final(d).obj_pos@) == unentered(old(d).obj_pos@),
        !linked ==> unentered(final(d).obj_pos@) < unentered(old(d).obj_pos@),
        final(d).syms_written == old(d).syms_written,
        match dv(*old(d)).pos[idx as int] {
            Some(p) => linked && dv(*final(d)) == emit(dv(*old(d)), seq![64u8] + crate::marshal::long::long_bytes(p as i64)),
            None => !linked && dv(*final(d)) == (DState {
                pos: dv(*old(d)).pos.update(idx as int, Some(dv(*old(d)).count)),
                count: (dv(*old(d)).count + 1) as u64,
                ..dv(*old(d))
            }),
        },
{
    let ghost d0 = *d;
    match d.obj_pos[idx as usize] {
        Some(p) => {
            w_byte(d, 64u8);
            w_long_d(d, p as i64);
            assert(dv(*d) =~= emit(dv(d0), seq![64u8] + crate::marshal::long::long_bytes(p as i64)));
            true
        },
        None => {
            proof {
                lemma_unentered_update(d.obj_pos@, idx as int, d.obj_count);
                lemma_unentered_le(d.obj_pos@);
            }
            let c = d.obj_count;
            d.obj_pos.set(idx as usize, Some(c));
            d.obj_count = c + 1;
            false
        },
    }
}

/// `count` followed by (symbol, value) pairs.
fn w_ivar_pairs(d: &mut Dumper, tree: &Tree, pairs: &Vec<(u32, u32)>, Ghost(bound): Ghost<nat>)
    requires
        tree@.wf(),
        d_ok(*old(d), tree@),
        crate::marshal::model::enc_pairs_ok(pairs@, bound, tree@.syms.len()),
        bound <= tree@.nodes.len(),
    ensures
        d_ok(*final(d), tree@),
        advances(*old(d), *final(d)),
        dv(*final(d)) == d_spairs(
            tree_view(tree@),
            emit(dv(*old(d)), crate::marshal::long::long_bytes(pairs@.len() as i64)),
            pairs@,
            0,
            bound,
        ),
    decreases unentered(old(d).obj_pos@), 2 * bound + 2,
{
    let ghost d0 = *d;
    let ghost m = tree_view(tree@);
    w_long_d(d, pairs.len() as i64);
    let ghost e0 = dv(*d);
    let mut j: usize = 0;
    while j < pairs.len()
        invariant
            tree@.wf(),
            d_ok(*d, tree@),
            advances(d0, *d),
            d0 == *old(d),
            m == tree_view(tree@),
            crate::marshal::model::enc_pairs_ok(pairs@, bound, tree@.syms.len()),
            bound <= tree@.nodes.len(),
            d_spairs(m, e0, pairs@, 0, bound) == d_spairs(m, dv(*d), pairs@, j as int, bound),
        decreases pairs@.len() - j,
    {
        let (k, v) = pairs[j];
        let ghost d1 = *d;
        w_symbol(d, tree, k);
        let ghost d2 = *d;
        dump_node(d, tree, v);
        proof {
            lemma_advances_trans(d0, d1, d2);
            lemma_advances_trans(d0, d2, *d);
            assert(DState { pos: dv(d1).pos, ..w_sym(m, dv(d1), k) } == dv(d2));
        }
        j = j + 1;
    }
}

/// A string with its encoding wrapper.
fn w_str(d: &mut Dumper, tree: &Tree, s: &StrData)
    requires
        tree@.wf(),
        d_ok(*old(d), tree@),
        crate::marshal::model::enc_ok(s.enc, tree@.nodes.len(), tree@.syms.len()),
    ensures
        d_ok(*final(d), tree@),
        advances(*old(d), *final(d)),
        dv(*final(d)) == d_str(tree_view(tree@), dv(*old(d)), s.bytes@, crate::marshal::stream::enc_view(s.enc)),
    decreases unentered(old(d).obj_pos@), 2 * tree@.nodes.len() + 3,
{
    let ghost d0 = *d;
    match &s.enc {
        Enc::Plain => {
            w_byte(d, 34u8);
            w_chunk(d, s.bytes.as_slice());
            assert(dv(*d) =~= emit(dv(d0), seq![34u8] + chunk_bytes(s.bytes@)));
        },
        Enc::Ivar { pairs } => {
            w_byte(d, 73u8);
            w_byte(d, 34u8);
            w_chunk(d, s.bytes.as_slice());
            let ghost d1 = *d;
            w_ivar_pairs(d, tree, pairs, Ghost(tree@.nodes.len()));
            proof {
                lemma_advances_trans(d0, d1, *d);
                assert(emit(dv(d1), crate::marshal::long::long_bytes(pairs@.len() as i64)) =~= emit(
                    dv(d0),
                    seq![73u8, 34u8] + chunk_bytes(s.bytes@) + crate::marshal::long::long_bytes(pairs@.len() as i64),
                ));
            }
        },
    }
}

/// `l`, sign, word count, then each 16-bit word little-endian.
fn w_bignum_raw(d: &mut Dumper, sign: bool, words: &[u16])
    ensures
        final(d).syms_written == old(d).syms_written,
        final(d).obj_pos == old(d).obj_pos,
        final(d).obj_count == old(d).obj_count,
        advances(*old(d), *final(d)),
        dv(*final(d)) == emit(dv(*old(d)), bignum_bytes(sign, words@)),
{
    let ghost d0 = *d;
    w_byte(d, 108u8);
    w_byte(d, if sign { 43u8 } else { 45u8 });
    w_long_d(d, words.len() as i64);
    let ghost head = d.out@;
    let mut j: usize = 0;
    while j < words.len()
        invariant
            d.syms_written == d0.syms_written,
            d.obj_pos == d0.obj_pos,
            d.obj_count == d0.obj_count,
            advances(d0, *d),
            j <= words@.len(),
            d.out@ == head + words_bytes(words@.subrange(0, j as int)),
        decreases words@.len() - j,
    {
        let w = words[j];
        w_byte(d, (w % 256) as u8);
        w_byte(d, (w / 256) as u8);
        proof {
            let ws = words@.subrange(0, j + 1);
            assert(ws.drop_last() =~= words@.subrange(0, j as int));
            assert(ws.last() == w);
        }
        j = j + 1;
        assert(d.out@ =~= head + words_bytes(words@.subrange(0, j as int)));
    }
    assert(words@.subrange(0, words@.len() as int) =~= words@);
    assert(dv(*d) =~= emit(dv(d0), bignum_bytes(sign, words@)));
}

/// An integer outside the 32-bit range, written as a Bignum (as 64-bit Ruby does).
fn w_bignum_i64(d: &mut Dumper, x: i64)
    ensures
        final(d).syms_written == old(d).syms_written,
        final(d).obj_pos == old(d).obj_pos,
        final(d).obj_count == old(d).obj_count,
        advances(*old(d), *final(d)),
        dv(*final(d)) == emit(dv(*old(d)), wide_int_bytes(x)),
{
    let mut words: Vec<u16> = Vec::new();
    let mut v: u64 = if x >= 0 { x as u64 } else { (0i128 - x as i128) as u64 };
    let ghost a: nat = if x >= 0 { x as nat } else { (-x) as nat };
    assert(v as nat == a);
    while v > 0
        invariant
            words@ + nat_words(v as nat) =~= nat_words(a),
        decreases v,
    {
        let ghost w0 = words@;
        words.push((v % 0x10000) as u16);
        proof {
            assert(nat_words(v as nat) == seq![((v as nat) % 0x10000) as u16] + nat_words((v as nat) / 0x10000));
        }
        v = v / 0x10000;
        assert(words@ + nat_words(v as nat) =~= w0 + (seq![words@.last()] + nat_words(v as nat)));
    }
    assert(words@ =~= nat_words(a));
    if words.len() == 0 {
        words.push(0);
        assert(words@ =~= seq![0u16]);
    }
    w_bignum_raw(d, x >= 0, words.as_slice());
}

/// Writes the value at `idx` (Ruby's `w_object`).
fn dump_node(d: &mut Dumper, tree: &Tree, idx: u32)
    requires
        tree@.wf(),
        d_ok(*old(d), tree@),
        ref_ok(idx, tree@.nodes.len()),
    ensures
        d_ok(*final(d), tree@),
        advances(*old(d), *final(d)),
        dv(*final(d)) == d_node(tree_view(tree@), dv(*old(d)), idx),
    decreases unentered(old(d).obj_pos@), 2 * rank(tree@, idx) + 1,
{
    let ghost d0 = *d;
    let ghost mv = tree_view(tree@);
    if idx == TRUE_NODE {
        w_byte(d, 84u8);
        return;
    }
    if idx == FALSE_NODE {
        w_byte(d, 70u8);
        return;
    }
    if idx == NIL_NODE {
        w_byte(d, 48u8);
        return;
    }
    let ghost m = tree@;
    assert(kind_ok(m.nodes[idx as int], m.nodes.len(), m.syms.len()));
    let kind = tree.kind(idx);
    assert(mv.nodes[idx as int] == kind_view(*kind));
    match kind {
        Kind::Fixnum(v) => {
            if *v >= -0x8000_0000 && *v <= 0x7fff_ffff {
                w_byte(d, 105u8);
                w_long_d(d, *v);
                assert(dv(*d) =~= emit(dv(d0), seq![105u8] + crate::marshal::long::long_bytes(*v)));
            } else {
                w_bignum_i64(d, *v);
            }
        },
        Kind::Sym(s) => {
            w_symbol(d, tree, *s);
        },
        Kind::Nil => {
            w_byte(d, 48u8);
        },
        Kind::True => {
            w_byte(d, 84u8);
        },
        Kind::False => {
            w_byte(d, 70u8);
        },
        Kind::Extended { mods, inner } => {
            // transparent: not entered in the object table
            assert(is_wrapper(m.nodes[idx as int]));
            assert(kind_ok(m.nodes[idx as int], idx as nat, m.syms.len()));
            let mut j: usize = 0;
            while j < mods.len()
                invariant
                    tree@.wf(),
                    d_ok(*d, tree@),
                    advances(d0, *d),
                    d.obj_pos == d0.obj_pos,
                    d.obj_count == d0.obj_count,
                    mv == tree_view(tree@),
                    crate::marshal::model::syms_below(mods@, tree@.syms.len()),
                    w_mods(mv, dv(d0), mods@, 0) == w_mods(mv, dv(*d), mods@, j as int),
                decreases mods@.len() - j,
            {
                let ghost d1 = *d;
                w_byte(d, 101u8);
                w_symbol(d, tree, mods[j]);
                proof {
                    lemma_advances_trans(d0, d1, *d);
                }
                j = j + 1;
            }
            let ghost d1 = *d;
            assert(DState { pos: dv(d0).pos, ..w_mods(mv, dv(d0), mods@, 0) } == dv(d1));
            dump_node(d, tree, *inner);
            proof {
                lemma_advances_trans(d0, d1, *d);
            }
        },
        Kind::UClass { cls, inner } => {
            assert(is_wrapper(m.nodes[idx as int]));
            assert(kind_ok(m.nodes[idx as int], idx as nat, m.syms.len()));
            w_byte(d, 67u8);
            let ghost d1 = *d;
            w_symbol(d, tree, *cls);
            let ghost d2 = *d;
            assert(DState { pos: dv(d0).pos, ..w_sym(mv, dv(d1), *cls) } == dv(d2));
            dump_node(d, tree, *inner);
            proof {
                lemma_advances_trans(d0, d1, d2);
                lemma_advances_trans(d0, d2, *d);
            }
        },
        Kind::Ival { inner, pairs } => {
            assert(is_wrapper(m.nodes[idx as int]));
            assert(kind_ok(m.nodes[idx as int], idx as nat, m.syms.len()));
            w_byte(d, 73u8);
            let ghost d1 = *d;
            dump_node(d, tree, *inner);
            let ghost d2 = *d;
            w_ivar_pairs(d, tree, pairs, Ghost(idx as nat));
            proof {
                lemma_advances_trans(d0, d1, d2);
                lemma_advances_trans(d0, d2, *d);
            }
        },
        _ => {
            dump_linkable(d, tree, idx);
        },
    }
}

/// Values that enter the object table: a repeated one is written as `@pos`.
fn dump_linkable(d: &mut Dumper, tree: &Tree, idx: u32)
    requires
        tree@.wf(),
        d_ok(*old(d), tree@),
        (idx as nat) < tree@.nodes.len(),
    ensures
        d_ok(*final(d), tree@),
        advances(*old(d), *final(d)),
        dv(*final(d)) == d_link(tree_view(tree@), dv(*old(d)), idx),
    decreases unentered(old(d).obj_pos@), 0nat,
{
    let ghost d0 = *d;
    let ghost m = tree@;
    let ghost mv = tree_view(tree@);
    assert(kind_ok(m.nodes[idx as int], m.nodes.len(), m.syms.len()));
    let kind = tree.kind(idx);
    assert(mv.nodes[idx as int] == kind_view(*kind));
    match kind {
        Kind::Fixnum(_) | Kind::Sym(_) | Kind::Nil | Kind::True | Kind::False | Kind::Extended { .. }
        | Kind::UClass { .. } | Kind::Ival { .. } => {
            return;
        },
        _ => {},
    }
    assert(!unlinked(mv.nodes[idx as int]));
    if link_or_enter(d, tree, idx) {
        return;
    }
    let ghost d1 = *d;
    proof {
        lemma_unentered_update(dv(d0).pos, idx as int, dv(d0).count);
    }
    body_of(d, tree, idx);
}

/// The body of a value just entered in the object table.
#[verifier::loop_isolation(false)]
fn body_of(d: &mut Dumper, tree: &Tree, idx: u32)
    requires
        tree@.wf(),
        d_ok(*old(d), tree@),
        (idx as nat) < tree@.nodes.len(),
        !unlinked(tree_view(tree@).nodes[idx as int]),
    ensures
        d_ok(*final(d), tree@),
        advances(*old(d), *final(d)),
        dv(*final(d)) == d_body(tree_view(tree@), dv(*old(d)), idx),
    decreases unentered(old(d).obj_pos@), 2 * tree@.nodes.len() + 5,
{
    let ghost m = tree@;
    let ghost mv = tree_view(tree@);
    let ghost d1 = *d;
    let ghost n = mv.nodes.len();
    assert(kind_ok(m.nodes[idx as int], m.nodes.len(), m.syms.len()));
    let kind = tree.kind(idx);
    assert(mv.nodes[idx as int] == kind_view(*kind));
    match kind {
        Kind::Float(f) => {
            w_byte(d, 102u8);
            w_chunk(d, f.raw.as_slice());
            assert(dv(*d) =~= emit(dv(d1), seq![102u8] + chunk_bytes(f.raw@)));
        },
        Kind::Str(s) => {
            w_str(d, tree, s);
        },
        Kind::Regexp { src, options } => {
            match &src.enc {
                Enc::Plain => {
                    w_byte(d, 47u8);
                    w_chunk(d, src.bytes.as_slice());
                    w_byte(d, *options);
                    assert(dv(*d) =~= emit(dv(d1), seq![47u8] + chunk_bytes(src.bytes@) + seq![*options]));
                },
                Enc::Ivar { pairs } => {
                    let ghost d0 = *d;
                    w_byte(d, 73u8);
                    w_byte(d, 47u8);
                    w_chunk(d, src.bytes.as_slice());
                    w_byte(d, *options);
                    let ghost d2 = *d;
                    w_ivar_pairs(d, tree, pairs, Ghost(tree@.nodes.len()));
                    proof {
                        lemma_advances_trans(d0, d2, *d);
                        assert(emit(dv(d2), crate::marshal::long::long_bytes(pairs@.len() as i64)) =~= emit(
                            dv(d0),
                            seq![73u8, 47u8] + chunk_bytes(src.bytes@) + seq![*options]
                                + crate::marshal::long::long_bytes(pairs@.len() as i64),
                        ));
                    }
                },
            }
        },
        Kind::Array(items) => {
            w_byte(d, 91u8);
            w_long_d(d, items.len() as i64);
            let ghost e0 = dv(*d);
            assert(e0 =~= emit(dv(d1), seq![91u8] + crate::marshal::long::long_bytes(items@.len() as i64)));
            let mut j: usize = 0;
            while j < items.len()
                invariant
                    tree@.wf(),
                    d_ok(*d, tree@),
                    advances(d1, *d),
                    crate::marshal::model::refs_below(items@, tree@.nodes.len()),
                    d_items(mv, e0, items@, 0) == d_items(mv, dv(*d), items@, j as int),
                decreases items@.len() - j,
            {
                let ghost d2 = *d;
                dump_node(d, tree, items[j]);
                proof {
                    lemma_advances_trans(d1, d2, *d);
                }
                j = j + 1;
            }
        },
        Kind::Hash { pairs, default } => {
            w_byte(d, if default.is_some() { 125u8 } else { 123u8 });
            w_long_d(d, pairs.len() as i64);
            let ghost e0 = dv(*d);
            assert(e0 =~= emit(
                dv(d1),
                seq![if default is Some { 125u8 } else { 123u8 }] + crate::marshal::long::long_bytes(pairs@.len() as i64),
            ));
            let mut j: usize = 0;
            while j < pairs.len()
                invariant
                    tree@.wf(),
                    d_ok(*d, tree@),
                    advances(d1, *d),
                    crate::marshal::model::pairs_below(pairs@, tree@.nodes.len()),
                    d_hpairs(mv, e0, pairs@, 0) == d_hpairs(mv, dv(*d), pairs@, j as int),
                decreases pairs@.len() - j,
            {
                let ghost d2 = *d;
                let (k, v) = pairs[j];
                dump_node(d, tree, k);
                let ghost d3 = *d;
                dump_node(d, tree, v);
                proof {
                    lemma_advances_trans(d1, d2, d3);
                    lemma_advances_trans(d1, d3, *d);
                }
                j = j + 1;
            }
            if let Some(def) = default {
                let ghost d2 = *d;
                dump_node(d, tree, *def);
                proof {
                    lemma_advances_trans(d1, d2, *d);
                }
            }
        },
        Kind::Object { class, ivars } => {
            w_byte(d, 111u8);
            let ghost da = dv(*d);
            w_symbol(d, tree, *class);
            w_long_d(d, ivars.len() as i64);
            let ghost e0 = dv(*d);
            let mut j: usize = 0;
            while j < ivars.len()
                invariant
                    tree@.wf(),
                    d_ok(*d, tree@),
                    advances(d1, *d),
                    crate::marshal::model::sym_pairs_ok(ivars@, tree@.nodes.len(), tree@.syms.len()),
                    d_spairs(mv, e0, ivars@, 0, n) == d_spairs(mv, dv(*d), ivars@, j as int, n),
                decreases ivars@.len() - j,
            {
                let ghost d2 = *d;
                let (k, v) = ivars[j];
                w_symbol(d, tree, k);
                let ghost d3 = *d;
                dump_node(d, tree, v);
                proof {
                    lemma_advances_trans(d1, d2, d3);
                    lemma_advances_trans(d1, d3, *d);
                    assert(DState { pos: dv(d2).pos, ..w_sym(mv, dv(d2), k) } == dv(d3));
                }
                j = j + 1;
            }
        },
        Kind::Struct { class, members: ivars } => {
            w_byte(d, 83u8);
            w_symbol(d, tree, *class);
            w_long_d(d, ivars.len() as i64);
            let ghost e0 = dv(*d);
            let mut j: usize = 0;
            while j < ivars.len()
                invariant
                    tree@.wf(),
                    d_ok(*d, tree@),
                    advances(d1, *d),
                    crate::marshal::model::sym_pairs_ok(ivars@, tree@.nodes.len(), tree@.syms.len()),
                    d_spairs(mv, e0, ivars@, 0, n) == d_spairs(mv, dv(*d), ivars@, j as int, n),
                decreases ivars@.len() - j,
            {
                let ghost d2 = *d;
                let (k, v) = ivars[j];
                w_symbol(d, tree, k);
                let ghost d3 = *d;
                dump_node(d, tree, v);
                proof {
                    lemma_advances_trans(d1, d2, d3);
                    lemma_advances_trans(d1, d3, *d);
                    assert(DState { pos: dv(d2).pos, ..w_sym(mv, dv(d2), k) } == dv(d3));
                }
                j = j + 1;
            }
        },
        Kind::Class(name) => {
            w_byte(d, 99u8);
            w_chunk(d, name.as_slice());
            assert(dv(*d) =~= emit(dv(d1), seq![99u8] + chunk_bytes(name@)));
        },
        Kind::Module { name, old } => {
            w_byte(d, if *old { 77u8 } else { 109u8 });
            w_chunk(d, name.as_slice());
            assert(dv(*d) =~= emit(dv(d1), seq![if *old { 77u8 } else { 109u8 }] + chunk_bytes(name@)));
        },
        Kind::Bignum { sign, words } => {
            w_bignum_raw(d, *sign, words.as_slice());
        },
        Kind::UserDef { class, payload } => {
            let has_ivars = match &payload.enc {
                Enc::Ivar { pairs } => pairs.len() > 0,
                Enc::Plain => false,
            };
            if has_ivars {
                w_byte(d, 73u8);
            }
            w_byte(d, 117u8);
            w_symbol(d, tree, *class);
            w_chunk(d, payload.bytes.as_slice());
            if let Enc::Ivar { pairs } = &payload.enc {
                if pairs.len() > 0 {
                    w_ivar_pairs(d, tree, pairs, Ghost(m.nodes.len()));
                }
            }
        },
        Kind::UserMarshal { class, inner } => {
            w_byte(d, 85u8);
            w_symbol(d, tree, *class);
            dump_node(d, tree, *inner);
        },
        Kind::Data { class, inner } => {
            w_byte(d, 100u8);
            w_symbol(d, tree, *class);
            dump_node(d, tree, *inner);
        },
        _ => {},
    }
}

/// Writes a whole tree as a Marshal 4.8 stream.
pub fn dump(tree: &Tree) -> (r: Vec<u8>)
    requires
        tree@.wf(),
    ensures
        r@.len() >= 2,
        r@[0] == 4u8 && r@[1] == 8u8,
        r@ == dump_of(tree_view(tree@), tree@.root),
{
    let ns = tree.node_count();
    let mut syms_written: Vec<bool> = Vec::new();
    let mut i: usize = 0;
    while i < tree.sym_count()
        invariant
            i <= tree@.syms.len(),
            syms_written@ =~= Seq::new(i as nat, |k: int| false),
        decreases tree@.syms.len() - i,
    {
        syms_written.push(false);
        i = i + 1;
    }
    let mut obj_pos: Vec<Option<u64>> = Vec::new();
    let mut k: usize = 0;
    while k < ns
        invariant
            k <= ns,
            ns == tree@.nodes.len(),
            obj_pos@ =~= Seq::new(k as nat, |j: int| None::<u64>),
            unentered(obj_pos@) == k,
        decreases ns - k,
    {
        let ghost prev = obj_pos@;
        obj_pos.push(None);
        proof {
            assert(obj_pos@.drop_last() =~= prev);
        }
        k = k + 1;
    }
    let mut out: Vec<u8> = Vec::new();
    out.push(MARSHAL_HEADER[0]);
    out.push(MARSHAL_HEADER[1]);
    let mut d = Dumper { out, syms_written, obj_pos, obj_count: 0 };
    assert(dv(d) =~= dump_start(tree_view(tree@)));
    dump_node(&mut d, tree, tree.root());
    proof {
        assert(d.out@[0] == 4u8);
    }
    d.out
}

/// The streams of the trees, one after another.
pub open spec fn dumps_of(trees: Seq<Tree>) -> Seq<u8>
    decreases trees.len(),
{
    if trees.len() == 0 {
        Seq::empty()
    } else {
        dumps_of(trees.drop_last()) + dump_of(tree_view(trees.last()@), trees.last()@.root)
    }
}

/// Writes several trees one after another, each as its own stream.
pub fn dump_multi(trees: &[Tree]) -> (r: Vec<u8>)
    requires
        forall|i: int| 0 <= i < trees@.len() ==> (#[trigger] trees@[i])@.wf(),
    ensures
        r@ == dumps_of(trees@),
{
    let mut out: Vec<u8> = Vec::new();
    let mut i: usize = 0;
    while i < trees.len()
        invariant
            i <= trees@.len(),
            forall|i: int| 0 <= i < trees@.len() ==> (#[trigger] trees@[i])@.wf(),
            out@ == dumps_of(trees@.subrange(0, i as int)),
        decreases trees@.len() - i,
    {
        let b = dump(&trees[i]);
        append_bytes(&mut out, b.as_slice());
        proof {
            assert(trees@.subrange(0, i + 1).drop_last() =~= trees@.subrange(0, i as int));
        }
        i = i + 1;
    }
    assert(trees@.subrange(0, trees@.len() as int) =~= trees@);
    out
}

} // verus!
