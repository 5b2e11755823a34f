//! Writing a tree read from a stream gives the stream back, whenever every
//! part of the stream is written the way the writer writes it.
use vstd::prelude::*;
use crate::marshal::long::{long_bytes, read_long};
use crate::marshal::model::{TreeModel, FALSE_NODE, NIL_NODE, TRUE_NODE};
use crate::marshal::stream::{
    DState, KindV, PState, TreeV, at, bignum_bytes, chunk_bytes, d_body, d_hpairs, d_items,
    d_link, d_node, d_spairs, dump_of, dump_start, emit, lemma_unentered_none,
    lemma_unentered_update, p_array, p_bignum, p_chunk, p_extended, p_hash, p_hpairs, p_items,
    p_ivar, p_object, p_spairs, p_symref, p_value, p_wrapped, push_node, push_obj, read_stream,
    reads_as, ref_below, set_node, spells, start_state, tree_view, unentered, unlinked, w_mods,
    w_sym, with_sym, words_at, words_bytes,
};
use crate::util::{first_index, lemma_first_index_some};
use crate::marshal::dump::dumps_of;
use crate::marshal::load::{has_header, segments_from};
use crate::marshal::stream::fresh_at;
use crate::marshal::tree::Tree;

verus! {

/// `x` is a sentinel or a node below `n`.
pub open spec fn ref_in(x: u32, n: int) -> bool {
    x == NIL_NODE || x == TRUE_NODE || x == FALSE_NODE || (x as int) < n
}

/// Every entry of the object table is a node that enters it.
pub open spec fn objs_ok(s: PState) -> bool {
    forall|j: int|
        0 <= j < s.objs.len() ==> (#[trigger] s.objs[j] as int) < s.nodes.len() && !unlinked(
            s.nodes[s.objs[j] as int],
        )
}

/// A reader state reachable on a stream that fits the node indices.
pub open spec fn rd_ok(b: Seq<u8>, s: PState) -> bool {
    &&& 0 <= s.pos <= b.len()
    &&& s.nodes.len() <= s.pos
    &&& s.syms.len() <= s.pos
    &&& b.len() < NIL_NODE
    &&& objs_ok(s)
}

/// What a canonical read step does: it moves forward, only appends symbols
/// and object-table entries, appends at most one node per byte, and leaves
/// the nodes it found as they were.
pub open spec fn grows_to(b: Seq<u8>, s: PState, t: PState) -> bool {
    &&& s.pos <= t.pos <= b.len()
    &&& s.syms.len() <= t.syms.len()
    &&& t.syms.len() - s.syms.len() <= t.pos - s.pos
    &&& forall|i: int| 0 <= i < s.syms.len() ==> #[trigger] t.syms[i] == s.syms[i]
    &&& s.objs.len() <= t.objs.len()
    &&& forall|i: int| 0 <= i < s.objs.len() ==> #[trigger] t.objs[i] == s.objs[i]
    &&& s.nodes.len() <= t.nodes.len()
    &&& t.nodes.len() - s.nodes.len() <= t.pos - s.pos
    &&& forall|k: int| 0 <= k < s.nodes.len() ==> #[trigger] t.nodes[k] == s.nodes[k]
}

proof fn lemma_grows_trans(b: Seq<u8>, s: PState, t: PState, u: PState)
    requires
        grows_to(b, s, t),
        grows_to(b, t, u),
    ensures
        grows_to(b, s, u),
{
    assert forall|i: int| 0 <= i < s.syms.len() implies #[trigger] u.syms[i] == s.syms[i] by {
        assert(t.syms[i] == s.syms[i]);
    }
    assert forall|i: int| 0 <= i < s.objs.len() implies #[trigger] u.objs[i] == s.objs[i] by {
        assert(t.objs[i] == s.objs[i]);
    }
    assert forall|k: int| 0 <= k < s.nodes.len() implies #[trigger] u.nodes[k] == s.nodes[k] by {
        assert(t.nodes[k] == s.nodes[k]);
    }
}

/// An integer read at `p` ends after `p` and within the stream.
pub proof fn lemma_read_long_adv(b: Seq<u8>, p: int)
    ensures
        read_long(b, p) matches Some((_, q)) ==> p < q <= b.len(),
{
}

proof fn lemma_chunk_adv(b: Seq<u8>, p: int)
    ensures
        p_chunk(b, p) matches Some((_, q, _)) ==> p < q <= b.len(),
{
    lemma_read_long_adv(b, p);
}

/// Moving the position forward keeps a reader state reachable.
proof fn lemma_at(b: Seq<u8>, s: PState, q: int)
    requires
        rd_ok(b, s),
        s.pos <= q <= b.len(),
    ensures
        rd_ok(b, at(s, q)),
        grows_to(b, s, at(s, q)),
{
}

/// Appending a node (entered in the object table or not) in a step from
/// `s0` that has consumed more bytes than it appended nodes.
proof fn lemma_push(b: Seq<u8>, s0: PState, s: PState, k: KindV, obj: bool)
    requires
        rd_ok(b, s0),
        rd_ok(b, s),
        grows_to(b, s0, s),
        s.nodes.len() - s0.nodes.len() < s.pos - s0.pos,
        obj ==> !unlinked(k),
    ensures
        obj ==> rd_ok(b, push_obj(s, k)) && grows_to(b, s0, push_obj(s, k)),
        !obj ==> rd_ok(b, push_node(s, k)) && grows_to(b, s0, push_node(s, k)),
{
    if obj {
        let t = push_obj(s, k);
        assert forall|j: int| 0 <= j < t.objs.len() implies (#[trigger] t.objs[j] as int) < t.nodes.len()
            && !unlinked(t.nodes[t.objs[j] as int]) by {
            if j < s.objs.len() {
                assert(s.objs[j] == t.objs[j]);
            }
        }
        assert forall|i: int| 0 <= i < s0.objs.len() implies #[trigger] t.objs[i] == s0.objs[i] by {
            assert(s.objs[i] == s0.objs[i]);
        }
        assert forall|i: int| 0 <= i < s0.nodes.len() implies #[trigger] t.nodes[i] == s0.nodes[i] by {
            assert(s.nodes[i] == s0.nodes[i]);
        }
    } else {
        let t = push_node(s, k);
        assert forall|j: int| 0 <= j < t.objs.len() implies (#[trigger] t.objs[j] as int) < t.nodes.len()
            && !unlinked(t.nodes[t.objs[j] as int]) by {
            assert(s.objs[j] == t.objs[j]);
        }
        assert forall|i: int| 0 <= i < s0.nodes.len() implies #[trigger] t.nodes[i] == s0.nodes[i] by {
            assert(s.nodes[i] == s0.nodes[i]);
        }
    }
}

/// Replacing a node appended since `s0` by one of the same standing in the
/// object table.
proof fn lemma_set(b: Seq<u8>, s0: PState, s: PState, i: u32, k: KindV)
    requires
        rd_ok(b, s),
        grows_to(b, s0, s),
        s0.nodes.len() <= i < s.nodes.len(),
        unlinked(k) == unlinked(s.nodes[i as int]),
    ensures
        rd_ok(b, set_node(s, i, k)),
        grows_to(b, s0, set_node(s, i, k)),
{
    let t = set_node(s, i, k);
    assert forall|j: int| 0 <= j < t.objs.len() implies (#[trigger] t.objs[j] as int) < t.nodes.len()
        && !unlinked(t.nodes[t.objs[j] as int]) by {
        assert(s.objs[j] == t.objs[j]);
    }
}

/// A canonical symbol reference.
proof fn g_symref(b: Seq<u8>, s: PState)
    requires
        rd_ok(b, s),
        p_symref(b, s) matches Some((_, _, c)) && c,
    ensures
        p_symref(b, s) matches Some((k, t, _)) && rd_ok(b, t) && grows_to(b, s, t) && s.pos < t.pos
            && (k as int) < t.syms.len() && t.nodes == s.nodes && t.objs == s.objs,
{
    if b[s.pos] == 58u8 {
        lemma_chunk_adv(b, s.pos + 1);
        let (name, q, c) = p_chunk(b, s.pos + 1).unwrap();
        if first_index(at(s, q).syms, spells(name)) is Some {
            lemma_first_index_some(at(s, q).syms, spells(name));
        }
    } else {
        lemma_read_long_adv(b, s.pos + 1);
    }
}

/// What a canonical value read guarantees: the state grows, the result is
/// a sentinel or a node, a node found before the read is one that enters the
/// object table, and only an `e` read gives an extension node.
pub open spec fn value_read(b: Seq<u8>, s: PState, x: u32, t: PState) -> bool {
    &&& rd_ok(b, t)
    &&& grows_to(b, s, t)
    &&& s.pos < t.pos
    &&& ref_in(x, t.nodes.len() as int)
    &&& (x as int) < s.nodes.len() ==> !unlinked(s.nodes[x as int])
    &&& ((x as int) < t.nodes.len() && t.nodes[x as int] is Extended) ==> b[s.pos] == 101u8
}

/// What a canonical list read guarantees: `acc` is extended by `n - i`
/// references that resolve in the final state.
pub open spec fn list_read(b: Seq<u8>, s: PState, n: i64, i: int, acc: Seq<u32>, items: Seq<u32>, t: PState) -> bool {
    &&& rd_ok(b, t)
    &&& grows_to(b, s, t)
    &&& items.len() == acc.len() + (if i < n { n - i } else { 0 })
    &&& items.subrange(0, acc.len() as int) == acc
    &&& forall|j: int| 0 <= j < items.len() ==> ref_in(#[trigger] items[j], t.nodes.len() as int)
}

/// As `list_read`, for pairs whose values are references.
pub open spec fn pairs_read(
    b: Seq<u8>,
    s: PState,
    n: i64,
    i: int,
    acc: Seq<(u32, u32)>,
    ps: Seq<(u32, u32)>,
    t: PState,
    keys_too: bool,
) -> bool {
    &&& rd_ok(b, t)
    &&& grows_to(b, s, t)
    &&& ps.len() == acc.len() + (if i < n { n - i } else { 0 })
    &&& ps.subrange(0, acc.len() as int) == acc
    &&& forall|j: int| 0 <= j < ps.len() ==> ref_in((#[trigger] ps[j]).1, t.nodes.len() as int)
        && (keys_too ==> ref_in(ps[j].0, t.nodes.len() as int))
}

proof fn g_value(b: Seq<u8>, s: PState)
    requires
        rd_ok(b, s),
        p_value(b, s) matches Some((_, _, c)) && c,
    ensures
        p_value(b, s) matches Some((x, t, _)) && value_read(b, s, x, t),
    decreases b.len() - s.pos, 1int, 0int,
{
    let tag = b[s.pos];
    if tag == 91u8 {
        g_array(b, s);
    } else if tag == 123u8 || tag == 125u8 {
        g_hash(b, s);
    } else if tag == 111u8 || tag == 83u8 {
        g_object(b, s);
    } else if tag == 85u8 || tag == 100u8 {
        g_wrapped(b, s);
    } else if tag == 73u8 {
        g_ivar(b, s);
    } else if tag == 101u8 {
        g_ext(b, s);
    } else if tag == 67u8 {
        g_uclass(b, s);
    } else {
        g_leaf(b, s);
    }
}

proof fn g_uclass(b: Seq<u8>, s: PState)
    requires
        rd_ok(b, s),
        p_value(b, s) matches Some((_, _, c)) && c,
        b[s.pos] == 67u8,
    ensures
        p_value(b, s) matches Some((x, t, _)) && value_read(b, s, x, t),
    decreases b.len() - s.pos, 0int, 0int,
{
    let p = s.pos + 1;
    g_symref(b, at(s, p));
    lemma_at(b, s, p);
    let (cls, s2, c1) = p_symref(b, at(s, p)).unwrap();
    lemma_grows_trans(b, s, at(s, p), s2);
    g_value(b, s2);
    let (inner, s3, c2) = p_value(b, s2).unwrap();
    lemma_grows_trans(b, s, s2, s3);
    lemma_push(b, s, s3, KindV::UClass { cls, inner }, false);
}

/// The values without nested values.
#[verifier::spinoff_prover]
#[verifier::rlimit(40)]
proof fn g_leaf(b: Seq<u8>, s: PState)
    requires
        rd_ok(b, s),
        p_value(b, s) matches Some((_, _, c)) && c,
        b[s.pos] != 91u8 && b[s.pos] != 123u8 && b[s.pos] != 125u8 && b[s.pos] != 111u8 && b[s.pos] != 83u8
            && b[s.pos] != 85u8 && b[s.pos] != 100u8 && b[s.pos] != 73u8 && b[s.pos] != 101u8 && b[s.pos] != 67u8,
    ensures
        p_value(b, s) matches Some((x, t, _)) && value_read(b, s, x, t),
{
    let tag = b[s.pos];
    let p = s.pos + 1;
    lemma_at(b, s, p);
    lemma_read_long_adv(b, p);
    lemma_chunk_adv(b, p);
    let (x, t, c) = p_value(b, s).unwrap();
    if tag == 48u8 || tag == 84u8 || tag == 70u8 {
    } else if tag == 105u8 || tag == 59u8 {
        let q = read_long(b, p).unwrap().1;
        lemma_at(b, s, q);
        let k = t.nodes.last();
        lemma_push(b, s, at(s, q), k, false);
        assert(t == push_node(at(s, q), k));
    } else if tag == 102u8 || tag == 34u8 || tag == 99u8 || tag == 109u8 || tag == 77u8 {
        let q = p_chunk(b, p).unwrap().1;
        lemma_at(b, s, q);
        let k = t.nodes.last();
        lemma_push(b, s, at(s, q), k, true);
        assert(t == push_obj(at(s, q), k));
    } else if tag == 47u8 {
        let q = p_chunk(b, p).unwrap().1;
        lemma_at(b, s, q + 1);
        let k = t.nodes.last();
        lemma_push(b, s, at(s, q + 1), k, true);
        assert(t == push_obj(at(s, q + 1), k));
    } else if tag == 58u8 {
        let (name, q, c1) = p_chunk(b, p).unwrap();
        lemma_at(b, s, q);
        let (i, s2, f) = with_sym(at(s, q), name);
        assert(f);
        assert(s2 == PState { syms: at(s, q).syms.push(name), ..at(s, q) });
        lemma_push(b, s, s2, KindV::Sym(i), false);
    } else if tag == 108u8 {
        g_bignum(b, s);
    } else if tag == 117u8 {
        g_symref(b, at(s, p));
        let (class, s2, c1) = p_symref(b, at(s, p)).unwrap();
        lemma_chunk_adv(b, s2.pos);
        let q = p_chunk(b, s2.pos).unwrap().1;
        lemma_grows_trans(b, s, at(s, p), s2);
        lemma_at(b, s2, q);
        lemma_grows_trans(b, s, s2, at(s2, q));
        let k = t.nodes.last();
        lemma_push(b, s, at(s2, q), k, true);
        assert(t == push_obj(at(s2, q), k));
    } else if tag == 64u8 {
        let (i, q) = read_long(b, p).unwrap();
        lemma_at(b, s, q);
        assert(s.objs[(i as u32) as int] == x);
    } else {
    }
}

proof fn g_array(b: Seq<u8>, s: PState)
    requires
        rd_ok(b, s),
        p_value(b, s) matches Some((_, _, c)) && c,
        b[s.pos] == 91u8,
    ensures
        p_value(b, s) matches Some((x, t, _)) && value_read(b, s, x, t),
    decreases b.len() - s.pos, 0int, 1int,
{
    assert(p_value(b, s) == p_array(b, at(s, s.pos + 1)));
    let s1 = at(s, s.pos + 1);
    lemma_read_long_adv(b, s1.pos);
    let (n, q) = read_long(b, s1.pos).unwrap();
    lemma_at(b, s, q);
    let s2 = push_obj(at(s, q), KindV::Array(seq![]));
    lemma_push(b, s, at(s, q), KindV::Array(seq![]), true);
    g_items(b, s2, n, 0, seq![]);
    let (items, s3, c) = p_items(b, s2, n, 0, seq![]).unwrap();
    lemma_grows_trans(b, s, s2, s3);
    lemma_set(b, s, s3, s.nodes.len() as u32, KindV::Array(items));
}

proof fn g_items(b: Seq<u8>, s: PState, n: i64, i: int, acc: Seq<u32>)
    requires
        rd_ok(b, s),
        p_items(b, s, n, i, acc) matches Some((_, _, c)) && c,
        forall|j: int| 0 <= j < acc.len() ==> ref_in(#[trigger] acc[j], s.nodes.len() as int),
    ensures
        p_items(b, s, n, i, acc) matches Some((items, t, _)) && list_read(b, s, n, i, acc, items, t),
    decreases b.len() - s.pos, 2int, n - i,
{
    if i >= n {
        assert(acc.subrange(0, acc.len() as int) =~= acc);
    } else {
        g_value(b, s);
        let (v, s2, c1) = p_value(b, s).unwrap();
        g_items(b, s2, n, i + 1, acc.push(v));
        let (items, t, c2) = p_items(b, s2, n, i + 1, acc.push(v)).unwrap();
        lemma_grows_trans(b, s, s2, t);
        assert(items.subrange(0, acc.len() as int) =~= acc.push(v).subrange(0, acc.len() as int));
        assert(acc.push(v).subrange(0, acc.len() as int) =~= acc);
    }
}

proof fn g_hash(b: Seq<u8>, s: PState)
    requires
        rd_ok(b, s),
        p_value(b, s) matches Some((_, _, c)) && c,
        b[s.pos] == 123u8 || b[s.pos] == 125u8,
    ensures
        p_value(b, s) matches Some((x, t, _)) && value_read(b, s, x, t),
    decreases b.len() - s.pos, 0int, 1int,
{
    let dflt = b[s.pos] == 125u8;
    assert(p_value(b, s) == p_hash(b, at(s, s.pos + 1), dflt));
    let s1 = at(s, s.pos + 1);
    lemma_read_long_adv(b, s1.pos);
    let (n, q) = read_long(b, s1.pos).unwrap();
    lemma_at(b, s, q);
    let k0 = KindV::Hash { pairs: seq![], default: None };
    let s2 = push_obj(at(s, q), k0);
    lemma_push(b, s, at(s, q), k0, true);
    g_hpairs(b, s2, n, 0, seq![]);
    let (pairs, s3, c) = p_hpairs(b, s2, n, 0, seq![]).unwrap();
    lemma_grows_trans(b, s, s2, s3);
    if dflt {
        g_value(b, s3);
        let (d, s4, c2) = p_value(b, s3).unwrap();
        lemma_grows_trans(b, s, s3, s4);
        lemma_set(b, s, s4, s.nodes.len() as u32, KindV::Hash { pairs, default: Some(d) });
    } else {
        lemma_set(b, s, s3, s.nodes.len() as u32, KindV::Hash { pairs, default: None });
    }
}

proof fn g_hpairs(b: Seq<u8>, s: PState, n: i64, i: int, acc: Seq<(u32, u32)>)
    requires
        rd_ok(b, s),
        p_hpairs(b, s, n, i, acc) matches Some((_, _, c)) && c,
        forall|j: int| 0 <= j < acc.len() ==> ref_in((#[trigger] acc[j]).1, s.nodes.len() as int) && ref_in(acc[j].0, s.nodes.len() as int),
    ensures
        p_hpairs(b, s, n, i, acc) matches Some((ps, t, _)) && pairs_read(b, s, n, i, acc, ps, t, true),
    decreases b.len() - s.pos, 2int, n - i,
{
    if i >= n {
        assert(acc.subrange(0, acc.len() as int) =~= acc);
    } else {
        g_value(b, s);
        let (k, s2, c1) = p_value(b, s).unwrap();
        g_value(b, s2);
        let (v, s3, c2) = p_value(b, s2).unwrap();
        lemma_grows_trans(b, s, s2, s3);
        g_hpairs(b, s3, n, i + 1, acc.push((k, v)));
        let (ps, t, c3) = p_hpairs(b, s3, n, i + 1, acc.push((k, v))).unwrap();
        lemma_grows_trans(b, s, s3, t);
        assert(ps.subrange(0, acc.len() as int) =~= acc.push((k, v)).subrange(0, acc.len() as int));
        assert(acc.push((k, v)).subrange(0, acc.len() as int) =~= acc);
    }
}

proof fn g_object(b: Seq<u8>, s: PState)
    requires
        rd_ok(b, s),
        p_value(b, s) matches Some((_, _, c)) && c,
        b[s.pos] == 111u8 || b[s.pos] == 83u8,
    ensures
        p_value(b, s) matches Some((x, t, _)) && value_read(b, s, x, t),
    decreases b.len() - s.pos, 0int, 1int,
{
    let is_struct = b[s.pos] == 83u8;
    assert(p_value(b, s) == p_object(b, at(s, s.pos + 1), is_struct));
    let s1 = at(s, s.pos + 1);
    lemma_at(b, s, s1.pos);
    g_symref(b, s1);
    let (class, s2, c1) = p_symref(b, s1).unwrap();
    lemma_grows_trans(b, s, s1, s2);
    lemma_read_long_adv(b, s2.pos);
    let (n, q) = read_long(b, s2.pos).unwrap();
    lemma_at(b, s2, q);
    lemma_grows_trans(b, s, s2, at(s2, q));
    let k = if is_struct {
        KindV::Struct { class, members: seq![] }
    } else {
        KindV::Object { class, ivars: seq![] }
    };
    let s3 = push_obj(at(s2, q), k);
    lemma_push(b, s, at(s2, q), k, true);
    g_spairs(b, s3, n, 0, seq![]);
    let (ps, s4, c2) = p_spairs(b, s3, n, 0, seq![]).unwrap();
    lemma_grows_trans(b, s, s3, s4);
    let k2 = if is_struct {
        KindV::Struct { class, members: ps }
    } else {
        KindV::Object { class, ivars: ps }
    };
    lemma_set(b, s, s4, s.nodes.len() as u32, k2);
}

proof fn g_spairs(b: Seq<u8>, s: PState, n: i64, i: int, acc: Seq<(u32, u32)>)
    requires
        rd_ok(b, s),
        p_spairs(b, s, n, i, acc) matches Some((_, _, c)) && c,
        forall|j: int| 0 <= j < acc.len() ==> ref_in((#[trigger] acc[j]).1, s.nodes.len() as int),
    ensures
        p_spairs(b, s, n, i, acc) matches Some((ps, t, _)) && pairs_read(b, s, n, i, acc, ps, t, false),
    decreases b.len() - s.pos, 2int, n - i,
{
    if i >= n {
        assert(acc.subrange(0, acc.len() as int) =~= acc);
    } else {
        g_symref(b, s);
        let (k, s2, c1) = p_symref(b, s).unwrap();
        g_value(b, s2);
        let (v, s3, c2) = p_value(b, s2).unwrap();
        lemma_grows_trans(b, s, s2, s3);
        g_spairs(b, s3, n, i + 1, acc.push((k, v)));
        let (ps, t, c3) = p_spairs(b, s3, n, i + 1, acc.push((k, v))).unwrap();
        lemma_grows_trans(b, s, s3, t);
        assert(ps.subrange(0, acc.len() as int) =~= acc.push((k, v)).subrange(0, acc.len() as int));
        assert(acc.push((k, v)).subrange(0, acc.len() as int) =~= acc);
    }
}

proof fn g_bignum(b: Seq<u8>, s: PState)
    requires
        rd_ok(b, s),
        p_value(b, s) matches Some((_, _, c)) && c,
        b[s.pos] == 108u8,
    ensures
        p_value(b, s) matches Some((x, t, _)) && value_read(b, s, x, t),
{
    assert(p_value(b, s) == p_bignum(b, at(s, s.pos + 1)));
    let s1 = at(s, s.pos + 1);
    lemma_read_long_adv(b, s1.pos + 1);
    let (n, q) = read_long(b, s1.pos + 1).unwrap();
    lemma_at(b, s, q + 2 * n);
    let (x, t, c) = p_bignum(b, s1).unwrap();
    let k = t.nodes.last();
    lemma_push(b, s, at(s, q + 2 * n), k, true);
    assert(t == push_obj(at(s, q + 2 * n), k));
}

proof fn g_wrapped(b: Seq<u8>, s: PState)
    requires
        rd_ok(b, s),
        p_value(b, s) matches Some((_, _, c)) && c,
        b[s.pos] == 85u8 || b[s.pos] == 100u8,
    ensures
        p_value(b, s) matches Some((x, t, _)) && value_read(b, s, x, t),
    decreases b.len() - s.pos, 0int, 1int,
{
    let is_data = b[s.pos] == 100u8;
    assert(p_value(b, s) == p_wrapped(b, at(s, s.pos + 1), is_data));
    let s1 = at(s, s.pos + 1);
    lemma_at(b, s, s1.pos);
    g_symref(b, s1);
    let (class, s2, c1) = p_symref(b, s1).unwrap();
    lemma_grows_trans(b, s, s1, s2);
    let k = if is_data {
        KindV::Data { class, inner: NIL_NODE }
    } else {
        KindV::UserMarshal { class, inner: NIL_NODE }
    };
    let s3 = push_obj(s2, k);
    lemma_push(b, s, s2, k, true);
    g_value(b, s3);
    let (inner, s4, c2) = p_value(b, s3).unwrap();
    lemma_grows_trans(b, s, s3, s4);
    let k2 = if is_data {
        KindV::Data { class, inner }
    } else {
        KindV::UserMarshal { class, inner }
    };
    lemma_set(b, s, s4, s.nodes.len() as u32, k2);
}

proof fn g_ivar(b: Seq<u8>, s: PState)
    requires
        rd_ok(b, s),
        p_value(b, s) matches Some((_, _, c)) && c,
        b[s.pos] == 73u8,
    ensures
        p_value(b, s) matches Some((x, t, _)) && value_read(b, s, x, t),
    decreases b.len() - s.pos, 0int, 1int,
{
    assert(p_value(b, s) == p_ivar(b, at(s, s.pos + 1)));
    let s1 = at(s, s.pos + 1);
    lemma_at(b, s, s1.pos);
    g_value(b, s1);
    let (x, s2, c1) = p_value(b, s1).unwrap();
    lemma_grows_trans(b, s, s1, s2);
    lemma_read_long_adv(b, s2.pos);
    let (n, q) = read_long(b, s2.pos).unwrap();
    lemma_at(b, s2, q);
    lemma_grows_trans(b, s, s2, at(s2, q));
    g_spairs(b, at(s2, q), n, 0, seq![]);
    let (ps, s3, c2) = p_spairs(b, at(s2, q), n, 0, seq![]).unwrap();
    lemma_grows_trans(b, s, at(s2, q), s3);
    if (x as int) < s3.nodes.len() && s3.nodes[x as int] is Str {
        assert(b[s1.pos] == 34u8);
        assert(x as int == s1.nodes.len());
        lemma_set(b, s, s3, x, KindV::Str { bytes: s3.nodes[x as int]->Str_bytes, enc: Some(ps) });
    } else {
        lemma_push(b, s, s3, KindV::Ival { inner: x, pairs: ps }, false);
    }
}

proof fn g_ext(b: Seq<u8>, s: PState)
    requires
        rd_ok(b, s),
        p_value(b, s) matches Some((_, _, c)) && c,
        b[s.pos] == 101u8,
    ensures
        p_value(b, s) matches Some((x, t, _)) && value_read(b, s, x, t),
    decreases b.len() - s.pos, 0int, 1int,
{
    assert(p_value(b, s) == p_extended(b, at(s, s.pos + 1)));
    let s1 = at(s, s.pos + 1);
    lemma_at(b, s, s1.pos);
    g_symref(b, s1);
    let (m, s2, c1) = p_symref(b, s1).unwrap();
    lemma_grows_trans(b, s, s1, s2);
    g_value(b, s2);
    let (x, s3, c2) = p_value(b, s2).unwrap();
    lemma_grows_trans(b, s, s2, s3);
    if (x as int) < s3.nodes.len() && s3.nodes[x as int] is Extended {
        assert(x as int >= s2.nodes.len());
        lemma_set(
            b,
            s,
            s3,
            x,
            KindV::Extended { mods: seq![m] + s3.nodes[x as int]->Extended_mods, inner: s3.nodes[x as int]->Extended_inner },
        );
    } else {
        lemma_push(b, s, s3, KindV::Extended { mods: seq![m], inner: x }, false);
    }
}

// ---------------------------------------------------------------------------
// The writer follows the reader
// ---------------------------------------------------------------------------

/// The writer's symbol table matches the reader's: the symbols the reader
/// has met are the ones the writer has written.
pub open spec fn corr_syms(f: TreeV, s: PState, d: DState) -> bool {
    &&& d.written.len() == f.syms.len()
    &&& s.syms.len() <= f.syms.len() <= NIL_NODE
    &&& forall|i: int| 0 <= i < s.syms.len() ==> #[trigger] f.syms[i] == s.syms[i]
    &&& forall|i: int| 0 <= i < f.syms.len() ==> #[trigger] d.written[i] == (i < s.syms.len())
}

/// The writer's object table matches the reader's.
pub open spec fn corr_objs(f: TreeV, s: PState, d: DState) -> bool {
    &&& d.pos.len() == f.nodes.len()
    &&& s.nodes.len() <= f.nodes.len() <= NIL_NODE
    &&& d.count as int == s.objs.len()
    &&& unentered(d.pos) + s.objs.len() == f.nodes.len()
    &&& forall|j: int| 0 <= j < s.objs.len() ==> d.pos[#[trigger] s.objs[j] as int] == Some(j as u64)
    &&& forall|k: int|
        0 <= k < f.nodes.len() ==> (#[trigger] d.pos[k] matches Some(p) ==> (p as int) < s.objs.len()
            && s.objs[p as int] as int == k)
    &&& forall|j: int|
        0 <= j < s.objs.len() ==> (#[trigger] s.objs[j] as int) < s.nodes.len() && !unlinked(
            f.nodes[s.objs[j] as int],
        )
}

pub open spec fn corr(f: TreeV, s: PState, d: DState) -> bool {
    corr_syms(f, s, d) && corr_objs(f, s, d)
}

/// `f` holds the symbols of `t`.
pub open spec fn syms_in(f: TreeV, t: PState) -> bool {
    &&& t.syms.len() <= f.syms.len()
    &&& forall|i: int| 0 <= i < t.syms.len() ==> #[trigger] f.syms[i] == t.syms[i]
}

/// `f` holds the symbols of `t`, and the nodes a step from `s` to `t`
/// appended, as `t` has them.
pub open spec fn frozen(f: TreeV, s: PState, t: PState) -> bool {
    &&& t.nodes.len() <= f.nodes.len()
    &&& syms_in(f, t)
    &&& forall|k: int| s.nodes.len() <= k < t.nodes.len() ==> #[trigger] f.nodes[k] == t.nodes[k]
}

proof fn lemma_syms_sub(b: Seq<u8>, f: TreeV, a: PState, c: PState)
    requires
        syms_in(f, c),
        grows_to(b, a, c),
    ensures
        syms_in(f, a),
{
    assert forall|i: int| 0 <= i < a.syms.len() implies #[trigger] f.syms[i] == a.syms[i] by {
        assert(c.syms[i] == a.syms[i]);
    }
}

proof fn lemma_split(b: Seq<u8>, a: int, m: int, c: int)
    requires
        0 <= a <= m <= c <= b.len(),
    ensures
        b.subrange(a, c) == b.subrange(a, m) + b.subrange(m, c),
{
    assert(b.subrange(a, c) =~= b.subrange(a, m) + b.subrange(m, c));
}

proof fn lemma_byte(b: Seq<u8>, a: int)
    requires
        0 <= a < b.len(),
    ensures
        b.subrange(a, a + 1) == seq![b[a]],
{
    assert(b.subrange(a, a + 1) =~= seq![b[a]]);
}

/// A state with the same object table and at least as many nodes keeps the
/// object-table correspondence.
proof fn lemma_objs_more(f: TreeV, s: PState, u: PState, d: DState)
    requires
        corr_objs(f, s, d),
        u.objs == s.objs,
        s.nodes.len() <= u.nodes.len() <= f.nodes.len(),
    ensures
        corr_objs(f, u, d),
{
    assert forall|j: int| 0 <= j < u.objs.len() implies (#[trigger] u.objs[j] as int) < u.nodes.len()
        && !unlinked(f.nodes[u.objs[j] as int]) by {
        assert(s.objs[j] == u.objs[j]);
    }
}

/// Entering a fresh node in the writer's table matches appending it to the
/// reader's object table.
proof fn lemma_enter(f: TreeV, s: PState, u: PState, d: DState, x: u32)
    requires
        corr_objs(f, s, d),
        x as int == s.nodes.len(),
        u.objs == s.objs.push(x),
        s.nodes.len() < u.nodes.len() <= f.nodes.len(),
        !unlinked(f.nodes[x as int]),
    ensures
        d.pos[x as int] is None,
        unentered(d.pos.update(x as int, Some(d.count))) < unentered(d.pos),
        corr_objs(f, u, DState { pos: d.pos.update(x as int, Some(d.count)), count: (d.count + 1) as u64, ..d }),
{
    if d.pos[x as int] is Some {
        let p = d.pos[x as int]->0;
        assert(s.objs[p as int] as int == x as int);
        assert((s.objs[p as int] as int) < s.nodes.len());
    }
    lemma_unentered_update(d.pos, x as int, d.count);
    let d1 = DState { pos: d.pos.update(x as int, Some(d.count)), count: (d.count + 1) as u64, ..d };
    assert forall|j: int| 0 <= j < u.objs.len() implies d1.pos[#[trigger] u.objs[j] as int] == Some(j as u64) by {
        if j < s.objs.len() {
            assert(u.objs[j] == s.objs[j]);
            assert((s.objs[j] as int) < s.nodes.len());
        }
    }
    assert forall|k: int| 0 <= k < f.nodes.len() implies (#[trigger] d1.pos[k] matches Some(p) ==> (p as int)
        < u.objs.len() && u.objs[p as int] as int == k) by {
        if k != x as int {
            if d.pos[k] is Some {
                let p = d.pos[k]->0;
                assert(u.objs[p as int] == s.objs[p as int]);
            }
        }
    }
    assert forall|j: int| 0 <= j < u.objs.len() implies (#[trigger] u.objs[j] as int) < u.nodes.len() && !unlinked(
        f.nodes[u.objs[j] as int],
    ) by {
        if j < s.objs.len() {
            assert(u.objs[j] == s.objs[j]);
        }
    }
}

/// A canonical symbol reference is written back as it was read.
proof fn l_symref(b: Seq<u8>, f: TreeV, s: PState, d: DState)
    requires
        rd_ok(b, s),
        p_symref(b, s) matches Some((_, t, c)) && c && syms_in(f, t),
        corr_syms(f, s, d),
    ensures
        p_symref(b, s) matches Some((k, t, _)) && w_sym(f, d, k).out == d.out + b.subrange(s.pos, t.pos)
            && w_sym(f, d, k).pos == d.pos && w_sym(f, d, k).count == d.count && corr_syms(f, t, w_sym(f, d, k)),
{
    g_symref(b, s);
    let (k, t, c) = p_symref(b, s).unwrap();
    if b[s.pos] == 58u8 {
        let (name, q, c1) = p_chunk(b, s.pos + 1).unwrap();
        lemma_read_long_adv(b, s.pos + 1);
        let (n, q0) = read_long(b, s.pos + 1).unwrap();
        let (i, s2, fresh) = with_sym(at(s, q), name);
        assert(fresh);
        assert(k as int == s.syms.len());
        assert(f.syms[k as int] == name);
        assert(!d.written[k as int]);
        lemma_byte(b, s.pos);
        lemma_split(b, s.pos, s.pos + 1, q0);
        lemma_split(b, s.pos, q0, q);
        assert(chunk_bytes(name) == long_bytes(n) + name);
        assert(w_sym(f, d, k).out =~= d.out + b.subrange(s.pos, t.pos));
        let d2 = w_sym(f, d, k);
        assert forall|j: int| 0 <= j < f.syms.len() implies #[trigger] d2.written[j] == (j < t.syms.len()) by {
        }
    } else {
        let (i, q) = read_long(b, s.pos + 1).unwrap();
        assert(d.written[k as int]);
        assert(k as i64 == i);
        lemma_byte(b, s.pos);
        lemma_split(b, s.pos, s.pos + 1, q);
        assert(w_sym(f, d, k).out =~= d.out + b.subrange(s.pos, t.pos));
    }
}

/// What the simulation of one value concludes.
pub open spec fn writes_back(b: Seq<u8>, f: TreeV, s: PState, d: DState, x: u32, t: PState) -> bool {
    d_node(f, d, x).out == d.out + b.subrange(s.pos, t.pos) && corr(f, t, d_node(f, d, x))
}

/// What the simulation of one value needs.
pub open spec fn sim_pre(b: Seq<u8>, f: TreeV, s: PState, d: DState) -> bool {
    &&& rd_ok(b, s)
    &&& corr(f, s, d)
    &&& p_value(b, s) matches Some((_, t, c)) && c && frozen(f, s, t)
}

/// `nil`, `true`, `false`.
proof fn l_const(b: Seq<u8>, f: TreeV, s: PState, d: DState)
    requires
        sim_pre(b, f, s, d),
        b[s.pos] == 48u8 || b[s.pos] == 84u8 || b[s.pos] == 70u8,
    ensures
        p_value(b, s) matches Some((x, t, _)) && writes_back(b, f, s, d, x, t),
{
    lemma_byte(b, s.pos);
    let (x, t, c) = p_value(b, s).unwrap();
    lemma_objs_more(f, s, t, d);
}

/// `i`: an integer in the 32-bit range, in shortest form.
proof fn l_fixnum(b: Seq<u8>, f: TreeV, s: PState, d: DState)
    requires
        sim_pre(b, f, s, d),
        b[s.pos] == 105u8,
    ensures
        p_value(b, s) matches Some((x, t, _)) && writes_back(b, f, s, d, x, t),
{
    g_value(b, s);
    let (x, t, c) = p_value(b, s).unwrap();
    let (v, q) = read_long(b, s.pos + 1).unwrap();
    assert(f.nodes[x as int] == KindV::Fixnum(v));
    lemma_byte(b, s.pos);
    lemma_split(b, s.pos, s.pos + 1, q);
    assert(d_node(f, d, x).out =~= d.out + b.subrange(s.pos, t.pos));
    lemma_objs_more(f, s, t, d_node(f, d, x));
}

/// `:` and `;` as values.
proof fn l_symval(b: Seq<u8>, f: TreeV, s: PState, d: DState)
    requires
        sim_pre(b, f, s, d),
        b[s.pos] == 58u8 || b[s.pos] == 59u8,
    ensures
        p_value(b, s) matches Some((x, t, _)) && writes_back(b, f, s, d, x, t),
{
    g_value(b, s);
    let (x, t, c) = p_value(b, s).unwrap();
    assert(p_symref(b, s) matches Some((k, t2, c2)) && c2 && t == push_node(t2, KindV::Sym(k)));
    let (k, t2, c2) = p_symref(b, s).unwrap();
    l_symref(b, f, s, d);
    assert(f.nodes[x as int] == KindV::Sym(k));
    assert(d_node(f, d, x) == w_sym(f, d, k));
    lemma_objs_more(f, s, t, d_node(f, d, x));
}

/// `@`: a link to an object read before.
proof fn l_link(b: Seq<u8>, f: TreeV, s: PState, d: DState)
    requires
        sim_pre(b, f, s, d),
        b[s.pos] == 64u8,
    ensures
        p_value(b, s) matches Some((x, t, _)) && writes_back(b, f, s, d, x, t),
{
    let (x, t, c) = p_value(b, s).unwrap();
    let (i, q) = read_long(b, s.pos + 1).unwrap();
    let j = (i as u32) as int;
    assert(s.objs[j] == x);
    assert(d.pos[x as int] == Some(j as u64));
    assert(!unlinked(f.nodes[x as int]));
    assert((x as int) < s.nodes.len());
    assert(d_node(f, d, x) == d_link(f, d, x));
    assert(j as u64 as i64 == i);
    lemma_byte(b, s.pos);
    lemma_split(b, s.pos, s.pos + 1, q);
    assert(d_node(f, d, x).out =~= d.out + b.subrange(s.pos, t.pos));
    lemma_objs_more(f, s, t, d_node(f, d, x));
}

/// `f`, `"`, `c`, `m`, `M`: a tag and a byte chunk, entered in the object table.
proof fn l_chunked(b: Seq<u8>, f: TreeV, s: PState, d: DState)
    requires
        sim_pre(b, f, s, d),
        b[s.pos] == 102u8 || b[s.pos] == 34u8 || b[s.pos] == 99u8 || b[s.pos] == 109u8 || b[s.pos] == 77u8,
    ensures
        p_value(b, s) matches Some((x, t, _)) && writes_back(b, f, s, d, x, t),
{
    g_value(b, s);
    let (x, t, c) = p_value(b, s).unwrap();
    let (bytes, q, c1) = p_chunk(b, s.pos + 1).unwrap();
    let (n, q0) = read_long(b, s.pos + 1).unwrap();
    assert(x as int == s.nodes.len());
    let k = t.nodes[x as int];
    assert(t == push_obj(at(s, q), k));
    assert(f.nodes[x as int] == k);
    lemma_enter(f, s, t, d, x);
    let d1 = DState { pos: d.pos.update(x as int, Some(d.count)), count: (d.count + 1) as u64, ..d };
    assert(d_node(f, d, x) == d_link(f, d, x));
    assert(d_link(f, d, x) == d_body(f, d1, x));
    lemma_byte(b, s.pos);
    lemma_split(b, s.pos, s.pos + 1, q0);
    lemma_split(b, s.pos, q0, q);
    assert(chunk_bytes(bytes) == long_bytes(n) + bytes);
    assert(d_node(f, d, x).out =~= d.out + b.subrange(s.pos, t.pos));
}

/// `/`: a regexp's source chunk and its options byte, entered in the object table.
proof fn l_regexp(b: Seq<u8>, f: TreeV, s: PState, d: DState)
    requires
        sim_pre(b, f, s, d),
        b[s.pos] == 47u8,
    ensures
        p_value(b, s) matches Some((x, t, _)) && writes_back(b, f, s, d, x, t),
{
    g_value(b, s);
    let (x, t, c) = p_value(b, s).unwrap();
    let (bytes, q, c1) = p_chunk(b, s.pos + 1).unwrap();
    let (n, q0) = read_long(b, s.pos + 1).unwrap();
    assert(x as int == s.nodes.len());
    let k = t.nodes[x as int];
    assert(t == push_obj(at(s, q + 1), k));
    assert(k == KindV::Regexp { src: bytes, enc: None, options: b[q] });
    assert(f.nodes[x as int] == k);
    lemma_enter(f, s, t, d, x);
    let d1 = DState { pos: d.pos.update(x as int, Some(d.count)), count: (d.count + 1) as u64, ..d };
    assert(d_node(f, d, x) == d_link(f, d, x));
    assert(d_link(f, d, x) == d_body(f, d1, x));
    lemma_byte(b, s.pos);
    lemma_split(b, s.pos, s.pos + 1, q0);
    lemma_split(b, s.pos, q0, q);
    lemma_byte(b, q);
    lemma_split(b, s.pos, q, q + 1);
    assert(chunk_bytes(bytes) == long_bytes(n) + bytes);
    assert(d_node(f, d, x).out =~= d.out + b.subrange(s.pos, t.pos));
}

proof fn lemma_words(b: Seq<u8>, q: int, n: nat)
    requires
        0 <= q,
        q + 2 * n <= b.len(),
    ensures
        words_bytes(words_at(b, q, n)) == b.subrange(q, q + 2 * n),
    decreases n,
{
    if n > 0 {
        let w = words_at(b, q, n);
        assert(w.drop_last() =~= words_at(b, q, (n - 1) as nat));
        lemma_words(b, q, (n - 1) as nat);
        let lo = b[q + 2 * (n - 1)];
        let hi = b[q + 2 * (n - 1) + 1];
        assert(w.last() == (lo as int + hi as int * 256) as u16);
        assert((w.last() % 256) as u8 == lo && (w.last() / 256) as u8 == hi) by {
            assert((lo as int + hi as int * 256) % 256 == lo as int) by (nonlinear_arith)
                requires lo < 256, hi < 256;
            assert((lo as int + hi as int * 256) / 256 == hi as int) by (nonlinear_arith)
                requires lo < 256, hi < 256;
        }
        assert(b.subrange(q, q + 2 * n) =~= b.subrange(q, q + 2 * (n - 1)) + seq![lo, hi]);
    } else {
        assert(b.subrange(q, q) =~= Seq::<u8>::empty());
    }
}

/// `l`: sign, word count, words.
proof fn l_bignum(b: Seq<u8>, f: TreeV, s: PState, d: DState)
    requires
        sim_pre(b, f, s, d),
        b[s.pos] == 108u8,
    ensures
        p_value(b, s) matches Some((x, t, _)) && writes_back(b, f, s, d, x, t),
{
    g_value(b, s);
    let (x, t, c) = p_value(b, s).unwrap();
    let p = s.pos + 1;
    let (n, q) = read_long(b, p + 1).unwrap();
    let words = words_at(b, q, n as nat);
    let k = KindV::Bignum { sign: b[p] == 43u8, words };
    assert(t == push_obj(at(s, q + 2 * n), k));
    assert(f.nodes[x as int] == k);
    lemma_enter(f, s, t, d, x);
    let d1 = DState { pos: d.pos.update(x as int, Some(d.count)), count: (d.count + 1) as u64, ..d };
    assert(d_node(f, d, x) == d_link(f, d, x));
    assert(d_link(f, d, x) == d_body(f, d1, x));
    lemma_words(b, q, n as nat);
    lemma_byte(b, s.pos);
    lemma_byte(b, p);
    lemma_split(b, s.pos, p, p + 1);
    lemma_split(b, s.pos, p + 1, q);
    lemma_split(b, s.pos, q, q + 2 * n);
    assert(bignum_bytes(b[p] == 43u8, words) =~= b.subrange(s.pos, t.pos));
    assert(d_node(f, d, x).out =~= d.out + b.subrange(s.pos, t.pos));
}

/// `u`: class symbol and payload chunk.
proof fn l_userdef(b: Seq<u8>, f: TreeV, s: PState, d: DState)
    requires
        sim_pre(b, f, s, d),
        b[s.pos] == 117u8,
    ensures
        p_value(b, s) matches Some((x, t, _)) && writes_back(b, f, s, d, x, t),
{
    g_value(b, s);
    let (x, t, c) = p_value(b, s).unwrap();
    let s1 = at(s, s.pos + 1);
    lemma_at(b, s, s1.pos);
    g_symref(b, s1);
    let (class, s2, c1) = p_symref(b, s1).unwrap();
    let (payload, q, c2) = p_chunk(b, s2.pos).unwrap();
    let (n, q0) = read_long(b, s2.pos).unwrap();
    let k = KindV::UserDef { class, payload, enc: None };
    assert(t == push_obj(at(s2, q), k));
    assert(x as int == s.nodes.len());
    assert(f.nodes[x as int] == k);
    lemma_enter(f, s, t, d, x);
    let d1 = DState { pos: d.pos.update(x as int, Some(d.count)), count: (d.count + 1) as u64, ..d };
    assert(d_node(f, d, x) == d_link(f, d, x));
    assert(d_link(f, d, x) == d_body(f, d1, x));
    let e = emit(d1, seq![117u8]);
    l_symref(b, f, s1, e);
    let e2 = w_sym(f, e, class);
    assert(d_body(f, d1, x) == emit(e2, chunk_bytes(payload)));
    lemma_byte(b, s.pos);
    lemma_split(b, s.pos, s1.pos, s2.pos);
    lemma_split(b, s2.pos, q0, q);
    lemma_split(b, s.pos, s2.pos, q);
    assert(chunk_bytes(payload) == long_bytes(n) + payload);
    assert(d_node(f, d, x).out =~= d.out + b.subrange(s.pos, t.pos));
}

proof fn lemma_frozen_prefix(b: Seq<u8>, f: TreeV, s: PState, s2: PState, t: PState)
    requires
        frozen(f, s, t),
        grows_to(b, s2, t),
    ensures
        frozen(f, s, s2),
{
    assert forall|i: int| 0 <= i < s2.syms.len() implies #[trigger] f.syms[i] == s2.syms[i] by {
        assert(t.syms[i] == s2.syms[i]);
    }
    assert forall|k: int| s.nodes.len() <= k < s2.nodes.len() implies #[trigger] f.nodes[k] == s2.nodes[k] by {
        assert(t.nodes[k] == s2.nodes[k]);
    }
}

proof fn lemma_frozen_set(f: TreeV, s: PState, s2: PState, s3: PState, x: u32, k: KindV)
    requires
        frozen(f, s, set_node(s3, x, k)),
        s.nodes.len() <= s2.nodes.len() <= s3.nodes.len(),
        (x as int) < s2.nodes.len(),
    ensures
        frozen(f, s2, s3),
{
    let t = set_node(s3, x, k);
    assert(t.syms == s3.syms);
    assert(syms_in(f, s3));
    assert(s3.nodes.len() == t.nodes.len());
    assert forall|j: int| s2.nodes.len() <= j < s3.nodes.len() implies #[trigger] f.nodes[j] == s3.nodes[j] by {
        assert(s.nodes.len() <= j < t.nodes.len());
        assert(f.nodes[j] == t.nodes[j]);
        assert(t.nodes[j] == s3.nodes[j]);
    }
}

proof fn lemma_frozen_push(f: TreeV, s: PState, s3: PState, k: KindV)
    requires
        frozen(f, s, push_node(s3, k)),
        s.nodes.len() <= s3.nodes.len(),
    ensures
        frozen(f, s, s3),
{
    let t = push_node(s3, k);
    assert forall|j: int| s.nodes.len() <= j < s3.nodes.len() implies #[trigger] f.nodes[j] == s3.nodes[j] by {
        assert(t.nodes[j] == s3.nodes[j]);
    }
}

/// A state whose object table the writer has caught up with keeps the
/// correspondence when only its nodes change.
proof fn lemma_corr_nodes(f: TreeV, s: PState, t: PState, d: DState)
    requires
        corr(f, s, d),
        t.objs == s.objs,
        t.syms == s.syms,
        s.nodes.len() <= t.nodes.len() <= f.nodes.len(),
    ensures
        corr(f, t, d),
{
    lemma_objs_more(f, s, t, d);
}

/// One value (Ruby's `r_object0` against `w_object`).
proof fn l_value(b: Seq<u8>, f: TreeV, s: PState, d: DState)
    requires
        sim_pre(b, f, s, d),
    ensures
        p_value(b, s) matches Some((x, t, _)) && writes_back(b, f, s, d, x, t),
    decreases b.len() - s.pos, 1int, 0int,
{
    let tag = b[s.pos];
    if tag == 48u8 || tag == 84u8 || tag == 70u8 {
        l_const(b, f, s, d);
    } else if tag == 105u8 {
        l_fixnum(b, f, s, d);
    } else if tag == 58u8 || tag == 59u8 {
        l_symval(b, f, s, d);
    } else if tag == 64u8 {
        l_link(b, f, s, d);
    } else if tag == 102u8 || tag == 34u8 || tag == 99u8 || tag == 109u8 || tag == 77u8 {
        l_chunked(b, f, s, d);
    } else if tag == 47u8 {
        l_regexp(b, f, s, d);
    } else if tag == 108u8 {
        l_bignum(b, f, s, d);
    } else if tag == 117u8 {
        l_userdef(b, f, s, d);
    } else if tag == 91u8 {
        l_array(b, f, s, d);
    } else if tag == 123u8 || tag == 125u8 {
        l_hash(b, f, s, d);
    } else if tag == 111u8 || tag == 83u8 {
        l_object(b, f, s, d);
    } else if tag == 85u8 || tag == 100u8 {
        l_wrapped(b, f, s, d);
    } else if tag == 73u8 {
        l_ivar(b, f, s, d);
    } else if tag == 101u8 {
        l_ext(b, f, s, d);
    } else if tag == 67u8 {
        l_uclass(b, f, s, d);
    } else {
        l_none(b, f, s, d);
    }
}

/// No other tag reads as a canonical value.
proof fn l_none(b: Seq<u8>, f: TreeV, s: PState, d: DState)
    requires
        sim_pre(b, f, s, d),
        !(b[s.pos] == 48u8 || b[s.pos] == 84u8 || b[s.pos] == 70u8 || b[s.pos] == 105u8 || b[s.pos] == 58u8
            || b[s.pos] == 59u8 || b[s.pos] == 64u8 || b[s.pos] == 102u8 || b[s.pos] == 34u8 || b[s.pos] == 99u8
            || b[s.pos] == 109u8 || b[s.pos] == 77u8 || b[s.pos] == 108u8 || b[s.pos] == 117u8 || b[s.pos] == 91u8
            || b[s.pos] == 123u8 || b[s.pos] == 125u8 || b[s.pos] == 111u8 || b[s.pos] == 83u8 || b[s.pos] == 85u8
            || b[s.pos] == 100u8 || b[s.pos] == 73u8 || b[s.pos] == 101u8 || b[s.pos] == 67u8
            || b[s.pos] == 47u8),
    ensures
        p_value(b, s) matches Some((x, t, _)) && writes_back(b, f, s, d, x, t),
{
}

/// `[`: count and items.
#[verifier::spinoff_prover]
#[verifier::rlimit(60)]
proof fn l_array(b: Seq<u8>, f: TreeV, s: PState, d: DState)
    requires
        sim_pre(b, f, s, d),
        b[s.pos] == 91u8,
    ensures
        p_value(b, s) matches Some((x, t, _)) && writes_back(b, f, s, d, x, t),
    decreases b.len() - s.pos, 0int, 1int,
{
    g_value(b, s);
    let (x, t, c) = p_value(b, s).unwrap();
    assert(p_value(b, s) == p_array(b, at(s, s.pos + 1)));
    let s1 = at(s, s.pos + 1);
    lemma_read_long_adv(b, s1.pos);
    let (n, q) = read_long(b, s1.pos).unwrap();
    lemma_at(b, s, q);
    let s2 = push_obj(at(s, q), KindV::Array(seq![]));
    lemma_push(b, s, at(s, q), KindV::Array(seq![]), true);
    g_items(b, s2, n, 0, seq![]);
    let (items, s3, c2) = p_items(b, s2, n, 0, seq![]).unwrap();
    assert(x as int == s.nodes.len());
    assert(t == set_node(s3, x, KindV::Array(items)));
    assert(f.nodes[x as int] == KindV::Array(items));
    lemma_enter(f, s, s2, d, x);
    let d1 = DState { pos: d.pos.update(x as int, Some(d.count)), count: (d.count + 1) as u64, ..d };
    assert(d_node(f, d, x) == d_link(f, d, x));
    assert(d_link(f, d, x) == d_body(f, d1, x));
    let e = emit(d1, seq![91u8] + long_bytes(items.len() as i64));
    assert(items.len() == n);
    lemma_frozen_set(f, s, s2, s3, x, KindV::Array(items));
    l_items(b, f, s2, e, n, 0, seq![]);
    lemma_byte(b, s.pos);
    lemma_split(b, s.pos, s1.pos, q);
    lemma_split(b, s.pos, q, s3.pos);
    assert(d_node(f, d, x).out =~= d.out + b.subrange(s.pos, t.pos));
    lemma_corr_nodes(f, s3, t, d_node(f, d, x));
}

proof fn l_items(b: Seq<u8>, f: TreeV, s: PState, d: DState, n: i64, i: int, acc: Seq<u32>)
    requires
        rd_ok(b, s),
        corr(f, s, d),
        p_items(b, s, n, i, acc) matches Some((_, t, c)) && c && frozen(f, s, t),
        acc.len() == i,
        forall|j: int| 0 <= j < acc.len() ==> ref_in(#[trigger] acc[j], s.nodes.len() as int),
    ensures
        p_items(b, s, n, i, acc) matches Some((items, t, _)) && d_items(f, d, items, i).out == d.out + b.subrange(
            s.pos,
            t.pos,
        ) && corr(f, t, d_items(f, d, items, i)),
    decreases b.len() - s.pos, 2int, n - i,
{
    g_items(b, s, n, i, acc);
    let (items, t, c) = p_items(b, s, n, i, acc).unwrap();
    if i >= n {
        assert(b.subrange(s.pos, s.pos) =~= Seq::<u8>::empty());
        assert(d.out + b.subrange(s.pos, t.pos) =~= d.out);
    } else {
        g_value(b, s);
        let (v, s2, c1) = p_value(b, s).unwrap();
        g_items(b, s2, n, i + 1, acc.push(v));
        assert(items == p_items(b, s2, n, i + 1, acc.push(v)).unwrap().0);
        assert(items[i] == v) by {
            assert(items.subrange(0, acc.len() + 1int) == acc.push(v));
            assert(items.subrange(0, acc.len() + 1int)[i] == items[i]);
        }
        lemma_frozen_prefix(b, f, s, s2, t);
        l_value(b, f, s, d);
        let d1 = d_node(f, d, v);
        assert(d_items(f, d, items, i) == d_items(f, d1, items, i + 1));
        l_items(b, f, s2, d1, n, i + 1, acc.push(v));
        lemma_split(b, s.pos, s2.pos, t.pos);
    }
}

/// `{` / `}`: count, pairs, and the default.
#[verifier::spinoff_prover]
#[verifier::rlimit(60)]
proof fn l_hash(b: Seq<u8>, f: TreeV, s: PState, d: DState)
    requires
        sim_pre(b, f, s, d),
        b[s.pos] == 123u8 || b[s.pos] == 125u8,
    ensures
        p_value(b, s) matches Some((x, t, _)) && writes_back(b, f, s, d, x, t),
    decreases b.len() - s.pos, 0int, 1int,
{
    let dflt = b[s.pos] == 125u8;
    g_value(b, s);
    let (x, t, c) = p_value(b, s).unwrap();
    assert(p_value(b, s) == p_hash(b, at(s, s.pos + 1), dflt));
    let s1 = at(s, s.pos + 1);
    lemma_read_long_adv(b, s1.pos);
    let (n, q) = read_long(b, s1.pos).unwrap();
    lemma_at(b, s, q);
    let k0 = KindV::Hash { pairs: seq![], default: None };
    let s2 = push_obj(at(s, q), k0);
    lemma_push(b, s, at(s, q), k0, true);
    g_hpairs(b, s2, n, 0, seq![]);
    let (pairs, s3, c2) = p_hpairs(b, s2, n, 0, seq![]).unwrap();
    assert(x as int == s.nodes.len());
    assert(pairs.len() == n);
    let d1 = DState { pos: d.pos.update(x as int, Some(d.count)), count: (d.count + 1) as u64, ..d };
    if dflt {
        g_value(b, s3);
        let (dv, s4, c3) = p_value(b, s3).unwrap();
        let k = KindV::Hash { pairs, default: Some(dv) };
        assert(t == set_node(s4, x, k));
        assert(f.nodes[x as int] == k);
        lemma_enter(f, s, s2, d, x);
        assert(d_node(f, d, x) == d_link(f, d, x));
        assert(d_link(f, d, x) == d_body(f, d1, x));
        let e = emit(d1, seq![125u8] + long_bytes(pairs.len() as i64));
        lemma_frozen_set(f, s, s2, s4, x, k);
        lemma_frozen_prefix(b, f, s2, s3, s4);
        l_hpairs(b, f, s2, e, n, 0, seq![]);
        let d2 = d_hpairs(f, e, pairs, 0);
        lemma_frozen_set(f, s, s3, s4, x, k);
        l_value(b, f, s3, d2);
        assert(d_body(f, d1, x) == d_node(f, d2, dv));
        lemma_byte(b, s.pos);
        lemma_split(b, s.pos, s1.pos, q);
        lemma_split(b, s.pos, q, s3.pos);
        lemma_split(b, s.pos, s3.pos, s4.pos);
        assert(d_node(f, d, x).out =~= d.out + b.subrange(s.pos, t.pos));
        lemma_corr_nodes(f, s4, t, d_node(f, d, x));
    } else {
        let k = KindV::Hash { pairs, default: None };
        assert(t == set_node(s3, x, k));
        assert(f.nodes[x as int] == k);
        lemma_enter(f, s, s2, d, x);
        assert(d_node(f, d, x) == d_link(f, d, x));
        assert(d_link(f, d, x) == d_body(f, d1, x));
        let e = emit(d1, seq![123u8] + long_bytes(pairs.len() as i64));
        lemma_frozen_set(f, s, s2, s3, x, k);
        l_hpairs(b, f, s2, e, n, 0, seq![]);
        lemma_byte(b, s.pos);
        lemma_split(b, s.pos, s1.pos, q);
        lemma_split(b, s.pos, q, s3.pos);
        assert(d_node(f, d, x).out =~= d.out + b.subrange(s.pos, t.pos));
        lemma_corr_nodes(f, s3, t, d_node(f, d, x));
    }
}

proof fn l_hpairs(b: Seq<u8>, f: TreeV, s: PState, d: DState, n: i64, i: int, acc: Seq<(u32, u32)>)
    requires
        rd_ok(b, s),
        corr(f, s, d),
        p_hpairs(b, s, n, i, acc) matches Some((_, t, c)) && c && frozen(f, s, t),
        acc.len() == i,
        forall|j: int| 0 <= j < acc.len() ==> ref_in((#[trigger] acc[j]).1, s.nodes.len() as int) && ref_in(acc[j].0, s.nodes.len() as int),
    ensures
        p_hpairs(b, s, n, i, acc) matches Some((ps, t, _)) && d_hpairs(f, d, ps, i).out == d.out + b.subrange(
            s.pos,
            t.pos,
        ) && corr(f, t, d_hpairs(f, d, ps, i)),
    decreases b.len() - s.pos, 2int, n - i,
{
    g_hpairs(b, s, n, i, acc);
    let (ps, t, c) = p_hpairs(b, s, n, i, acc).unwrap();
    if i >= n {
        assert(d.out + b.subrange(s.pos, t.pos) =~= d.out);
    } else {
        g_value(b, s);
        let (k, s2, c1) = p_value(b, s).unwrap();
        g_value(b, s2);
        let (v, s3, c2) = p_value(b, s2).unwrap();
        lemma_grows_trans(b, s, s2, s3);
        g_hpairs(b, s3, n, i + 1, acc.push((k, v)));
        assert(ps[i] == (k, v)) by {
            assert(ps.subrange(0, acc.len() + 1int) == acc.push((k, v)));
            assert(ps.subrange(0, acc.len() + 1int)[i] == ps[i]);
        }
        lemma_frozen_prefix(b, f, s, s3, t);
        lemma_frozen_prefix(b, f, s, s2, s3);
        l_value(b, f, s, d);
        let d1 = d_node(f, d, k);
        lemma_frozen_prefix(b, f, s2, s3, t);
        l_value(b, f, s2, d1);
        let d2 = d_node(f, d1, v);
        assert(d_hpairs(f, d, ps, i) == d_hpairs(f, d2, ps, i + 1));
        l_hpairs(b, f, s3, d2, n, i + 1, acc.push((k, v)));
        lemma_split(b, s.pos, s2.pos, s3.pos);
        lemma_split(b, s.pos, s3.pos, t.pos);
    }
}

/// `o` / `S`: class, count, (symbol, value) pairs.
#[verifier::spinoff_prover]
#[verifier::rlimit(60)]
proof fn l_object(b: Seq<u8>, f: TreeV, s: PState, d: DState)
    requires
        sim_pre(b, f, s, d),
        b[s.pos] == 111u8 || b[s.pos] == 83u8,
    ensures
        p_value(b, s) matches Some((x, t, _)) && writes_back(b, f, s, d, x, t),
    decreases b.len() - s.pos, 0int, 1int,
{
    let is_struct = b[s.pos] == 83u8;
    g_value(b, s);
    let (x, t, c) = p_value(b, s).unwrap();
    assert(p_value(b, s) == p_object(b, at(s, s.pos + 1), is_struct));
    let s1 = at(s, s.pos + 1);
    lemma_at(b, s, s1.pos);
    g_symref(b, s1);
    let (class, s2, c1) = p_symref(b, s1).unwrap();
    lemma_grows_trans(b, s, s1, s2);
    lemma_read_long_adv(b, s2.pos);
    let (n, q) = read_long(b, s2.pos).unwrap();
    lemma_at(b, s2, q);
    lemma_grows_trans(b, s, s2, at(s2, q));
    let k = if is_struct {
        KindV::Struct { class, members: seq![] }
    } else {
        KindV::Object { class, ivars: seq![] }
    };
    let s3 = push_obj(at(s2, q), k);
    lemma_push(b, s, at(s2, q), k, true);
    g_spairs(b, s3, n, 0, seq![]);
    let (ps, s4, c2) = p_spairs(b, s3, n, 0, seq![]).unwrap();
    let k2 = if is_struct {
        KindV::Struct { class, members: ps }
    } else {
        KindV::Object { class, ivars: ps }
    };
    assert(x as int == s.nodes.len());
    assert(t == set_node(s4, x, k2));
    assert(f.nodes[x as int] == k2);
    assert(ps.len() == n);
    lemma_enter(f, s, s3, d, x);
    let d1 = DState { pos: d.pos.update(x as int, Some(d.count)), count: (d.count + 1) as u64, ..d };
    assert(d_node(f, d, x) == d_link(f, d, x));
    assert(d_link(f, d, x) == d_body(f, d1, x));
    let ea = emit(d1, seq![if is_struct { 83u8 } else { 111u8 }]);
    lemma_frozen_set(f, s, s3, s4, x, k2);
    lemma_push(b, s2, at(s2, q), k, true);
    lemma_grows_trans(b, s2, s3, s4);
    lemma_syms_sub(b, f, s2, s4);
    l_symref(b, f, s1, ea);
    let eb = emit(w_sym(f, ea, class), long_bytes(ps.len() as i64));
    l_spairs(b, f, s3, eb, n, 0, seq![], f.nodes.len());
    assert(d_body(f, d1, x) == d_spairs(f, eb, ps, 0, f.nodes.len()));
    lemma_byte(b, s.pos);
    lemma_split(b, s.pos, s1.pos, s2.pos);
    lemma_split(b, s.pos, s2.pos, q);
    lemma_split(b, s.pos, q, s4.pos);
    assert(d_node(f, d, x).out =~= d.out + b.subrange(s.pos, t.pos));
    lemma_corr_nodes(f, s4, t, d_node(f, d, x));
}

proof fn l_spairs(b: Seq<u8>, f: TreeV, s: PState, d: DState, n: i64, i: int, acc: Seq<(u32, u32)>, bound: nat)
    requires
        rd_ok(b, s),
        corr(f, s, d),
        p_spairs(b, s, n, i, acc) matches Some((_, t, c)) && c && frozen(f, s, t) && t.nodes.len() <= bound,
        bound <= f.nodes.len(),
        acc.len() == i,
        forall|j: int| 0 <= j < acc.len() ==> ref_in((#[trigger] acc[j]).1, s.nodes.len() as int),
    ensures
        p_spairs(b, s, n, i, acc) matches Some((ps, t, _)) && d_spairs(f, d, ps, i, bound).out == d.out
            + b.subrange(s.pos, t.pos) && corr(f, t, d_spairs(f, d, ps, i, bound)),
    decreases b.len() - s.pos, 2int, n - i,
{
    g_spairs(b, s, n, i, acc);
    let (ps, t, c) = p_spairs(b, s, n, i, acc).unwrap();
    if i >= n {
        assert(d.out + b.subrange(s.pos, t.pos) =~= d.out);
    } else {
        g_symref(b, s);
        let (k, s2, c1) = p_symref(b, s).unwrap();
        g_value(b, s2);
        let (v, s3, c2) = p_value(b, s2).unwrap();
        lemma_grows_trans(b, s, s2, s3);
        g_spairs(b, s3, n, i + 1, acc.push((k, v)));
        assert(ps[i] == (k, v)) by {
            assert(ps.subrange(0, acc.len() + 1int) == acc.push((k, v)));
            assert(ps.subrange(0, acc.len() + 1int)[i] == ps[i]);
        }
        lemma_frozen_prefix(b, f, s, s3, t);
        lemma_frozen_prefix(b, f, s, s2, s3);
        l_symref(b, f, s, d);
        let d1 = w_sym(f, d, k);
        assert(DState { pos: d.pos, ..d1 } == d1);
        lemma_frozen_prefix(b, f, s2, s3, t);
        l_value(b, f, s2, d1);
        let d2 = d_node(f, d1, v);
        assert(d_spairs(f, d, ps, i, bound) == d_spairs(f, d2, ps, i + 1, bound));
        l_spairs(b, f, s3, d2, n, i + 1, acc.push((k, v)), bound);
        lemma_split(b, s.pos, s2.pos, s3.pos);
        lemma_split(b, s.pos, s3.pos, t.pos);
    }
}

/// `U` / `d`: class, then the wrapped value.
#[verifier::spinoff_prover]
#[verifier::rlimit(60)]
proof fn l_wrapped(b: Seq<u8>, f: TreeV, s: PState, d: DState)
    requires
        sim_pre(b, f, s, d),
        b[s.pos] == 85u8 || b[s.pos] == 100u8,
    ensures
        p_value(b, s) matches Some((x, t, _)) && writes_back(b, f, s, d, x, t),
    decreases b.len() - s.pos, 0int, 1int,
{
    let is_data = b[s.pos] == 100u8;
    g_value(b, s);
    let (x, t, c) = p_value(b, s).unwrap();
    assert(p_value(b, s) == p_wrapped(b, at(s, s.pos + 1), is_data));
    let s1 = at(s, s.pos + 1);
    lemma_at(b, s, s1.pos);
    g_symref(b, s1);
    let (class, s2, c1) = p_symref(b, s1).unwrap();
    lemma_grows_trans(b, s, s1, s2);
    let k = if is_data {
        KindV::Data { class, inner: NIL_NODE }
    } else {
        KindV::UserMarshal { class, inner: NIL_NODE }
    };
    let s3 = push_obj(s2, k);
    lemma_push(b, s, s2, k, true);
    g_value(b, s3);
    let (inner, s4, c2) = p_value(b, s3).unwrap();
    let k2 = if is_data {
        KindV::Data { class, inner }
    } else {
        KindV::UserMarshal { class, inner }
    };
    assert(x as int == s.nodes.len());
    assert(t == set_node(s4, x, k2));
    assert(f.nodes[x as int] == k2);
    lemma_enter(f, s, s3, d, x);
    let d1 = DState { pos: d.pos.update(x as int, Some(d.count)), count: (d.count + 1) as u64, ..d };
    assert(d_node(f, d, x) == d_link(f, d, x));
    assert(d_link(f, d, x) == d_body(f, d1, x));
    let ea = emit(d1, seq![if is_data { 100u8 } else { 85u8 }]);
    lemma_frozen_set(f, s, s3, s4, x, k2);
    assert(s3.syms == s2.syms);
    lemma_syms_sub(b, f, s3, s4);
    l_symref(b, f, s1, ea);
    let eb = w_sym(f, ea, class);
    l_value(b, f, s3, eb);
    assert(d_body(f, d1, x) == d_node(f, eb, inner));
    lemma_byte(b, s.pos);
    lemma_split(b, s.pos, s1.pos, s2.pos);
    lemma_split(b, s.pos, s2.pos, s4.pos);
    assert(d_node(f, d, x).out =~= d.out + b.subrange(s.pos, t.pos));
    lemma_corr_nodes(f, s4, t, d_node(f, d, x));
}

/// `C`: class, then the value.
proof fn l_uclass(b: Seq<u8>, f: TreeV, s: PState, d: DState)
    requires
        sim_pre(b, f, s, d),
        b[s.pos] == 67u8,
    ensures
        p_value(b, s) matches Some((x, t, _)) && writes_back(b, f, s, d, x, t),
    decreases b.len() - s.pos, 0int, 1int,
{
    g_value(b, s);
    let (x, t, c) = p_value(b, s).unwrap();
    let s1 = at(s, s.pos + 1);
    lemma_at(b, s, s1.pos);
    g_symref(b, s1);
    let (cls, s2, c1) = p_symref(b, s1).unwrap();
    lemma_grows_trans(b, s, s1, s2);
    g_value(b, s2);
    let (inner, s3, c2) = p_value(b, s2).unwrap();
    let k = KindV::UClass { cls, inner };
    assert(t == push_node(s3, k));
    assert(x as int == s3.nodes.len());
    assert(f.nodes[x as int] == k);
    lemma_frozen_push(f, s, s3, k);
    lemma_syms_sub(b, f, s2, s3);
    let ea = emit(d, seq![67u8]);
    l_symref(b, f, s1, ea);
    let eb = w_sym(f, ea, cls);
    assert(DState { pos: d.pos, ..eb } == eb);
    lemma_objs_more(f, s, s2, eb);
    l_value(b, f, s2, eb);
    assert(d_node(f, d, x) == d_node(f, eb, inner));
    lemma_byte(b, s.pos);
    lemma_split(b, s.pos, s1.pos, s2.pos);
    lemma_split(b, s.pos, s2.pos, s3.pos);
    assert(d_node(f, d, x).out =~= d.out + b.subrange(s.pos, t.pos));
    lemma_corr_nodes(f, s3, t, d_node(f, d, x));
}

/// The value after an `I` is a string (it takes the pairs as its encoding).
pub open spec fn ivar_on_str(b: Seq<u8>, s: PState) -> bool {
    match p_value(b, at(s, s.pos + 1)) {
        Some((xi, s2, _)) => match read_long(b, s2.pos) {
            Some((n, q)) => match p_spairs(b, at(s2, q), n, 0, seq![]) {
                Some((_, s3, _)) => (xi as int) < s3.nodes.len() && s3.nodes[xi as int] is Str,
                None => false,
            },
            None => false,
        },
        None => false,
    }
}

/// `I`: a value, a count, (symbol, value) pairs; a string read right there
/// takes the pairs as its encoding.
proof fn l_ivar(b: Seq<u8>, f: TreeV, s: PState, d: DState)
    requires
        sim_pre(b, f, s, d),
        b[s.pos] == 73u8,
    ensures
        p_value(b, s) matches Some((x, t, _)) && writes_back(b, f, s, d, x, t),
    decreases b.len() - s.pos, 0int, 1int,
{
    if ivar_on_str(b, s) {
        l_ivar_str(b, f, s, d);
    } else {
        l_ivar_wrap(b, f, s, d);
    }
}

#[verifier::spinoff_prover]
#[verifier::rlimit(60)]
proof fn l_ivar_str(b: Seq<u8>, f: TreeV, s: PState, d: DState)
    requires
        sim_pre(b, f, s, d),
        b[s.pos] == 73u8,
        ivar_on_str(b, s),
    ensures
        p_value(b, s) matches Some((x, t, _)) && writes_back(b, f, s, d, x, t),
    decreases b.len() - s.pos, 0int, 0int,
{
    g_value(b, s);
    let (x, t, c) = p_value(b, s).unwrap();
    assert(p_value(b, s) == p_ivar(b, at(s, s.pos + 1)));
    let s1 = at(s, s.pos + 1);
    lemma_at(b, s, s1.pos);
    g_value(b, s1);
    let (xi, s2, c1) = p_value(b, s1).unwrap();
    lemma_grows_trans(b, s, s1, s2);
    lemma_read_long_adv(b, s2.pos);
    let (n, q) = read_long(b, s2.pos).unwrap();
    lemma_at(b, s2, q);
    lemma_grows_trans(b, s, s2, at(s2, q));
    g_spairs(b, at(s2, q), n, 0, seq![]);
    let (ps, s3, c2) = p_spairs(b, at(s2, q), n, 0, seq![]).unwrap();
    lemma_grows_trans(b, s, at(s2, q), s3);
    assert(ps.len() == n);
    lemma_byte(b, s.pos);
    assert((xi as int) < s3.nodes.len() && s3.nodes[xi as int] is Str);
    // the string was read right there: `I"` chunk count pairs
    assert(b[s1.pos] == 34u8);
    let (bytes, q0, c0) = p_chunk(b, s1.pos + 1).unwrap();
    let (m, qm) = read_long(b, s1.pos + 1).unwrap();
    assert(xi as int == s1.nodes.len());
    assert(s2 == push_obj(at(s1, q0), KindV::Str { bytes, enc: None }));
    assert(s3.nodes[xi as int] == s2.nodes[xi as int]);
    let k = KindV::Str { bytes, enc: Some(ps) };
    assert(t == set_node(s3, xi, k));
    assert(x == xi);
    assert(f.nodes[x as int] == k);
    lemma_enter(f, s, s2, d, x);
    let d1 = DState { pos: d.pos.update(x as int, Some(d.count)), count: (d.count + 1) as u64, ..d };
    assert(d_node(f, d, x) == d_link(f, d, x));
    assert(d_link(f, d, x) == d_body(f, d1, x));
    let e = emit(d1, seq![73u8, 34u8] + chunk_bytes(bytes) + long_bytes(ps.len() as i64));
    assert(d_body(f, d1, x) == d_spairs(f, e, ps, 0, f.nodes.len()));
    lemma_frozen_set(f, s, s2, s3, x, k);
    lemma_corr_nodes(f, s2, at(s2, q), e);
    l_spairs(b, f, at(s2, q), e, n, 0, seq![], f.nodes.len());
    lemma_byte(b, s1.pos);
    lemma_split(b, s.pos, s1.pos, s1.pos + 1);
    lemma_split(b, s.pos, s1.pos + 1, qm);
    lemma_split(b, s.pos, qm, q0);
    lemma_split(b, s.pos, q0, q);
    lemma_split(b, s.pos, q, s3.pos);
    assert(chunk_bytes(bytes) == long_bytes(m) + bytes);
    assert(d_node(f, d, x).out =~= d.out + b.subrange(s.pos, t.pos));
    lemma_corr_nodes(f, s3, t, d_node(f, d, x));
}

#[verifier::spinoff_prover]
#[verifier::rlimit(60)]
proof fn l_ivar_wrap(b: Seq<u8>, f: TreeV, s: PState, d: DState)
    requires
        sim_pre(b, f, s, d),
        b[s.pos] == 73u8,
        !ivar_on_str(b, s),
    ensures
        p_value(b, s) matches Some((x, t, _)) && writes_back(b, f, s, d, x, t),
    decreases b.len() - s.pos, 0int, 0int,
{
    g_value(b, s);
    let (x, t, c) = p_value(b, s).unwrap();
    assert(p_value(b, s) == p_ivar(b, at(s, s.pos + 1)));
    let s1 = at(s, s.pos + 1);
    lemma_at(b, s, s1.pos);
    g_value(b, s1);
    let (xi, s2, c1) = p_value(b, s1).unwrap();
    lemma_grows_trans(b, s, s1, s2);
    lemma_read_long_adv(b, s2.pos);
    let (n, q) = read_long(b, s2.pos).unwrap();
    lemma_at(b, s2, q);
    lemma_grows_trans(b, s, s2, at(s2, q));
    g_spairs(b, at(s2, q), n, 0, seq![]);
    let (ps, s3, c2) = p_spairs(b, at(s2, q), n, 0, seq![]).unwrap();
    lemma_grows_trans(b, s, at(s2, q), s3);
    assert(ps.len() == n);
    lemma_byte(b, s.pos);
    let k = KindV::Ival { inner: xi, pairs: ps };
    assert(t == push_node(s3, k));
    assert(x as int == s3.nodes.len());
    assert(f.nodes[x as int] == k);
    lemma_frozen_push(f, s, s3, k);
    lemma_frozen_prefix(b, f, s1, s2, s3);
    let ea = emit(d, seq![73u8]);
    l_value(b, f, s1, ea);
    let d1 = d_node(f, ea, xi);
    let e = emit(d1, long_bytes(ps.len() as i64));
    assert(d_node(f, d, x) == d_spairs(f, e, ps, 0, x as nat));
    lemma_corr_nodes(f, s2, at(s2, q), e);
    l_spairs(b, f, at(s2, q), e, n, 0, seq![], x as nat);
    lemma_split(b, s.pos, s1.pos, s2.pos);
    lemma_split(b, s.pos, s2.pos, q);
    lemma_split(b, s.pos, q, s3.pos);
    assert(d_node(f, d, x).out =~= d.out + b.subrange(s.pos, t.pos));
    lemma_corr_nodes(f, s3, t, d_node(f, d, x));
}

/// Writing `[m] + mods` from `j + 1` is writing `mods` from `j`.
proof fn lemma_mods_shift(f: TreeV, d: DState, m: u32, mods: Seq<u32>, j: int)
    requires
        0 <= j <= mods.len(),
    ensures
        w_mods(f, d, seq![m] + mods, j + 1) == w_mods(f, d, mods, j),
    decreases mods.len() - j,
{
    if j < mods.len() {
        assert((seq![m] + mods)[j + 1] == mods[j]);
        lemma_mods_shift(f, w_sym(f, emit(d, seq![101u8]), mods[j]), m, mods, j + 1);
    }
}

/// `w_mods` leaves the object table alone.
proof fn lemma_mods_pos(f: TreeV, d: DState, mods: Seq<u32>, j: int)
    ensures
        w_mods(f, d, mods, j).pos == d.pos,
        w_mods(f, d, mods, j).count == d.count,
    decreases mods.len() - j,
{
    if j < mods.len() {
        lemma_mods_pos(f, w_sym(f, emit(d, seq![101u8]), mods[j]), mods, j + 1);
    }
}

/// `e`: the extension node a chain of `e` tags reads is written as all its
/// modules and then the extended value.
#[verifier::spinoff_prover]
#[verifier::rlimit(60)]
proof fn l_ext_chain(b: Seq<u8>, f: TreeV, s: PState, d: DState)
    requires
        rd_ok(b, s),
        corr(f, s, d),
        b[s.pos] == 101u8,
        p_value(b, s) matches Some((x, t, c)) && c && t.nodes.len() <= f.nodes.len() && t.syms.len() <= f.syms.len()
            && (forall|i: int| 0 <= i < t.syms.len() ==> #[trigger] f.syms[i] == t.syms[i])
            && (forall|k: int| s.nodes.len() <= k < t.nodes.len() && k != x ==> #[trigger] f.nodes[k] == t.nodes[k]),
    ensures
        p_value(b, s) matches Some((x, t, _)) && s.nodes.len() <= x < t.nodes.len() && t.nodes[x as int] is Extended
            && ref_below(t.nodes[x as int]->Extended_inner, x as nat) && ({
            let d1 = w_mods(f, d, t.nodes[x as int]->Extended_mods, 0);
            let d2 = d_node(f, DState { pos: d.pos, ..d1 }, t.nodes[x as int]->Extended_inner);
            d2.out == d.out + b.subrange(s.pos, t.pos) && corr(f, t, d2)
        }),
    decreases b.len() - s.pos, 0int, 0int,
{
    g_value(b, s);
    let (x, t, c) = p_value(b, s).unwrap();
    assert(p_value(b, s) == p_extended(b, at(s, s.pos + 1)));
    let s1 = at(s, s.pos + 1);
    lemma_at(b, s, s1.pos);
    g_symref(b, s1);
    let (m, s2, c1) = p_symref(b, s1).unwrap();
    lemma_grows_trans(b, s, s1, s2);
    g_value(b, s2);
    let (xi, s3, c2) = p_value(b, s2).unwrap();
    lemma_grows_trans(b, s, s2, s3);
    let ea = emit(d, seq![101u8]);
    lemma_byte(b, s.pos);
    if (xi as int) < s3.nodes.len() && s3.nodes[xi as int] is Extended {
        // stacked: the inner `e` chain merges into the same node
        assert(b[s2.pos] == 101u8);
        assert(xi as int >= s2.nodes.len()) by {
            if (xi as int) < s2.nodes.len() {
                assert(s3.nodes[xi as int] == s2.nodes[xi as int]);
            }
        }
        let mods2 = s3.nodes[xi as int]->Extended_mods;
        let inner2 = s3.nodes[xi as int]->Extended_inner;
        let k = KindV::Extended { mods: seq![m] + mods2, inner: inner2 };
        assert(t == set_node(s3, xi, k));
        assert(x == xi);
        assert forall|j: int| s2.nodes.len() <= j < s3.nodes.len() && j != xi implies #[trigger] f.nodes[j] == s3.nodes[j] by {
            assert(t.nodes[j] == s3.nodes[j]);
        }
        lemma_syms_sub(b, f, s2, s3);
        l_symref(b, f, s1, ea);
        let eb = w_sym(f, ea, m);
        lemma_objs_more(f, s, s2, eb);
        l_ext_chain(b, f, s2, eb);
        lemma_mods_shift(f, eb, m, mods2, 0);
        assert(w_mods(f, d, seq![m] + mods2, 0) == w_mods(f, eb, seq![m] + mods2, 1));
        lemma_mods_pos(f, eb, mods2, 0);
        lemma_split(b, s.pos, s1.pos, s2.pos);
        lemma_split(b, s.pos, s2.pos, s3.pos);
        let d1 = w_mods(f, d, t.nodes[x as int]->Extended_mods, 0);
        let d2 = d_node(f, DState { pos: d.pos, ..d1 }, t.nodes[x as int]->Extended_inner);
        assert(DState { pos: d.pos, ..d1 } == DState { pos: eb.pos, ..w_mods(f, eb, mods2, 0) });
        assert(d2.out =~= d.out + b.subrange(s.pos, t.pos));
        lemma_corr_nodes(f, s3, t, d2);
    } else {
        let k = KindV::Extended { mods: seq![m], inner: xi };
        assert(t == push_node(s3, k));
        assert(x as int == s3.nodes.len());
        assert forall|j: int| s2.nodes.len() <= j < s3.nodes.len() implies #[trigger] f.nodes[j] == s3.nodes[j] by {
            assert(t.nodes[j] == s3.nodes[j]);
        }
        lemma_syms_sub(b, f, s2, s3);
        l_symref(b, f, s1, ea);
        let eb = w_sym(f, ea, m);
        lemma_objs_more(f, s, s2, eb);
        l_value(b, f, s2, eb);
        assert(w_mods(f, d, seq![m], 0) == w_mods(f, eb, seq![m], 1));
        assert(w_mods(f, eb, seq![m], 1) == eb);
        assert(DState { pos: d.pos, ..eb } == eb);
        lemma_split(b, s.pos, s1.pos, s2.pos);
        lemma_split(b, s.pos, s2.pos, s3.pos);
        let d2 = d_node(f, eb, xi);
        assert(d2.out =~= d.out + b.subrange(s.pos, t.pos));
        lemma_corr_nodes(f, s3, t, d2);
    }
}

/// `e` as a value: the chain, written as one extension node.
proof fn l_ext(b: Seq<u8>, f: TreeV, s: PState, d: DState)
    requires
        sim_pre(b, f, s, d),
        b[s.pos] == 101u8,
    ensures
        p_value(b, s) matches Some((x, t, _)) && writes_back(b, f, s, d, x, t),
    decreases b.len() - s.pos, 0int, 1int,
{
    l_ext_chain(b, f, s, d);
    let (x, t, c) = p_value(b, s).unwrap();
    assert(f.nodes[x as int] == t.nodes[x as int]);
    let mods = t.nodes[x as int]->Extended_mods;
    let inner = t.nodes[x as int]->Extended_inner;
    assert(d_node(f, d, x) == d_node(f, DState { pos: d.pos, ..w_mods(f, d, mods, 0) }, inner));
}

/// The stream is read whole and every part of it is written the way the
/// writer writes it: integers in shortest form, a symbol spelled out only
/// the first time, an `I` on a string only right before it.
pub open spec fn canonical(b: Seq<u8>) -> bool {
    &&& b.len() < NIL_NODE
    &&& read_stream(b) matches Some((_, s, c)) && c && s.pos == b.len()
}

/// Writing the tree read from a stream gives the stream back, byte for
/// byte, for every stream written the way the writer writes it.
pub proof fn law_marshal_roundtrip(b: Seq<u8>, m: TreeModel)
    requires
        canonical(b),
        read_stream(b) matches Some((v, s, _)) && reads_as(m, v, s),
    ensures
        dump_of(tree_view(m), m.root) == b,
{
    let s0 = start_state();
    assert(rd_ok(b, s0));
    g_value(b, s0);
    let (v, t, c) = p_value(b, s0).unwrap();
    let f = tree_view(m);
    assert(f.nodes == t.nodes && f.syms == t.syms);
    let d0 = dump_start(f);
    lemma_unentered_none(f.nodes.len());
    assert(corr(f, s0, d0));
    assert(frozen(f, s0, t));
    l_value(b, f, s0, d0);
    assert(b =~= seq![4u8, 8u8] + b.subrange(2, b.len() as int));
}

/// A stream read from its header at `p`, inside a larger buffer, is written
/// back as the bytes it was read from, when it was written the way the writer
/// writes it.
proof fn lemma_segment_roundtrip(b: Seq<u8>, p: int, m: TreeModel)
    requires
        b.len() < NIL_NODE,
        has_header(b, p),
        p_value(b, fresh_at(p + 2)) matches Some((v, s, c)) && c && reads_as(m, v, s),
    ensures
        p_value(b, fresh_at(p + 2)) matches Some((_, s, _)) && dump_of(tree_view(m), m.root) == b.subrange(p, s.pos),
{
    let s0 = fresh_at(p + 2);
    assert(rd_ok(b, s0));
    g_value(b, s0);
    let (v, t, c) = p_value(b, s0).unwrap();
    let f = tree_view(m);
    assert(f.nodes == t.nodes && f.syms == t.syms);
    let d0 = dump_start(f);
    lemma_unentered_none(f.nodes.len());
    assert(corr(f, s0, d0));
    assert(frozen(f, s0, t));
    l_value(b, f, s0, d0);
    assert(b.subrange(p, t.pos) =~= seq![4u8, 8u8] + b.subrange(p + 2, t.pos));
}

/// Every stream of `b` from `p` on was written the way the writer writes it.
pub open spec fn canonical_segments(b: Seq<u8>, p: int) -> bool
    decreases b.len() - p,
{
    if p < 0 || p >= b.len() {
        true
    } else if !has_header(b, p) {
        false
    } else {
        match p_value(b, fresh_at(p + 2)) {
            Some((_, s, c)) => c && p < s.pos <= b.len() && canonical_segments(b, s.pos),
            None => false,
        }
    }
}

/// A file of streams written one after another, each the way the writer writes it.
pub open spec fn canonical_multi(b: Seq<u8>) -> bool {
    b.len() < NIL_NODE && canonical_segments(b, 0)
}

proof fn lemma_dumps_cons(t: Tree, rest: Seq<Tree>)
    ensures
        dumps_of(seq![t] + rest) == dump_of(tree_view(t@), t@.root) + dumps_of(rest),
    decreases rest.len(),
{
    if rest.len() == 0 {
        assert(seq![t] + rest =~= seq![t]);
        assert(seq![t].drop_last() =~= Seq::<Tree>::empty());
        assert(seq![t].last() == t);
        assert(dumps_of(Seq::<Tree>::empty()) == Seq::<u8>::empty());
        assert(Seq::<u8>::empty() + dump_of(tree_view(t@), t@.root) =~= dump_of(tree_view(t@), t@.root));
        assert(dumps_of(seq![t]) =~= dump_of(tree_view(t@), t@.root));
        assert(dumps_of(rest) == Seq::<u8>::empty());
        assert(dump_of(tree_view(t@), t@.root) + dumps_of(rest) =~= dump_of(tree_view(t@), t@.root));
    } else {
        let all = seq![t] + rest;
        assert(all.drop_last() =~= seq![t] + rest.drop_last());
        assert(all.last() == rest.last());
        lemma_dumps_cons(t, rest.drop_last());
    }
}

proof fn lemma_multi_from(b: Seq<u8>, p: int, ts: Seq<Tree>)
    requires
        b.len() < NIL_NODE,
        0 <= p <= b.len(),
        canonical_segments(b, p),
        segments_from(b, p) matches Some(segs) && ts.len() == segs.len() && forall|i: int|
            0 <= i < segs.len() ==> reads_as(#[trigger] ts[i]@, segs[i].0, segs[i].1),
    ensures
        dumps_of(ts) == b.subrange(p, b.len() as int),
    decreases b.len() - p,
{
    let segs = segments_from(b, p).unwrap();
    if p >= b.len() {
        assert(ts.len() == 0);
        assert(b.subrange(p, b.len() as int) =~= Seq::<u8>::empty());
    } else {
        let (v, s, c) = p_value(b, fresh_at(p + 2)).unwrap();
        let rest = segments_from(b, s.pos).unwrap();
        assert(segs == seq![(v, s)] + rest);
        assert(segs[0] == (v, s));
        assert(reads_as(ts[0]@, v, s));
        lemma_segment_roundtrip(b, p, ts[0]@);
        let tail = ts.drop_first();
        assert forall|i: int| 0 <= i < rest.len() implies reads_as(#[trigger] tail[i]@, rest[i].0, rest[i].1) by {
            assert(tail[i] == ts[i + 1]);
            assert(segs[i + 1] == rest[i]);
        }
        lemma_multi_from(b, s.pos, tail);
        assert(ts =~= seq![ts[0]] + tail);
        lemma_dumps_cons(ts[0], tail);
        assert(b.subrange(p, b.len() as int) =~= b.subrange(p, s.pos) + b.subrange(s.pos, b.len() as int));
    }
}

/// Writing, one after another, the trees read from a file of several streams
/// gives the file back, byte for byte, when every stream in it was written the
/// way the writer writes it.
pub proof fn law_marshal_multi_roundtrip(b: Seq<u8>, ts: Seq<Tree>)
    requires
        canonical_multi(b),
        segments_from(b, 0) matches Some(segs) && ts.len() == segs.len() && forall|i: int|
            0 <= i < segs.len() ==> reads_as(#[trigger] ts[i]@, segs[i].0, segs[i].1),
    ensures
        dumps_of(ts) == b,
{
    lemma_multi_from(b, 0, ts);
    assert(b.subrange(0, b.len() as int) =~= b);
}

/// Where stream `i` of the streams read from `p` begins.
pub open spec fn seg_start(p: int, segs: Seq<(u32, PState)>, i: int) -> int {
    if i == 0 { p } else { segs[i - 1].1.pos }
}

/// The bytes of stream `i` of a file read from its start.
pub open spec fn seg_bytes(b: Seq<u8>, segs: Seq<(u32, PState)>, i: int) -> Seq<u8> {
    b.subrange(seg_start(0, segs, i), segs[i].1.pos)
}

proof fn lemma_seg_at(b: Seq<u8>, p: int, i: int)
    requires
        0 <= p <= b.len(),
        canonical_segments(b, p),
        segments_from(b, p) matches Some(segs) && 0 <= i < segs.len(),
    ensures
        ({
            let segs = segments_from(b, p)->0;
            let st = seg_start(p, segs, i);
            &&& has_header(b, st)
            &&& p_value(b, fresh_at(st + 2)) == Some((segs[i].0, segs[i].1, true))
            &&& st < segs[i].1.pos <= b.len()
        }),
    decreases i,
{
    let segs = segments_from(b, p)->0;
    let (v, s, c) = p_value(b, fresh_at(p + 2)).unwrap();
    let rest = segments_from(b, s.pos)->0;
    assert(segs == seq![(v, s)] + rest);
    if i > 0 {
        assert(segs[i] == rest[i - 1]);
        if i > 1 {
            assert(segs[i - 1] == rest[i - 2]);
        } else {
            assert(segs[0] == (v, s));
        }
        assert(seg_start(p, segs, i) == seg_start(s.pos, rest, i - 1));
        lemma_seg_at(b, s.pos, i - 1);
    }
}

/// Each tree read from a file of several streams is written as the tree
/// that reading that stream on its own gives, when every stream was written
/// the way the writer writes it.
pub proof fn law_multi_segments_as_streams(b: Seq<u8>, ts: Seq<Tree>, i: int, m: TreeModel)
    requires
        canonical_multi(b),
        segments_from(b, 0) matches Some(segs) && ts.len() == segs.len() && (forall|k: int|
            0 <= k < segs.len() ==> reads_as(#[trigger] ts[k]@, segs[k].0, segs[k].1)) && 0 <= i < segs.len()
            && canonical(seg_bytes(b, segs, i)) && (read_stream(seg_bytes(b, segs, i)) matches Some((v, s, _))
            && reads_as(m, v, s)),
    ensures
        dump_of(tree_view(m), m.root) == dump_of(tree_view(ts[i]@), ts[i]@.root),
        dump_of(tree_view(m), m.root) == seg_bytes(b, segments_from(b, 0)->0, i),
{
    let segs = segments_from(b, 0)->0;
    lemma_seg_at(b, 0, i);
    let st = seg_start(0, segs, i);
    assert(reads_as(ts[i]@, segs[i].0, segs[i].1));
    lemma_segment_roundtrip(b, st, ts[i]@);
    law_marshal_roundtrip(seg_bytes(b, segs, i), m);
}

} // verus!
