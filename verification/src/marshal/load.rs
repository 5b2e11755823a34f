//! Reading a Marshal stream into a tree (Ruby's `r_object0`).
use vstd::prelude::*;
use crate::marshal::long::{r_long, read_long};
use crate::marshal::model::{
    Enc, Error, Kind, Node, StrData, Sym, TreeModel, FALSE_NODE, MARSHAL_HEADER, NIL_NODE,
    TRUE_NODE, enc_pairs_ok, is_wrapper, kind_ok, lemma_push_sym, lemma_refs_ok_push,
    lemma_refs_ok_replace, ref_ok,
};
use crate::marshal::stream::{
    PState, kind_view, nodes_view, syms_view, strip, at, push_node, push_obj, set_node, spells,
    with_sym, p_chunk, p_symref, p_value, p_array, p_items, p_hash, p_hpairs, p_object, p_spairs,
    p_bignum, words_at, p_wrapped, p_ivar, p_extended, start_state, read_stream, reads_as, fresh_at,
    adv, KindV,
};
use crate::marshal::tree::Tree;
use crate::util::{bytes_eq, copy_range, lemma_first_index_at, lemma_first_index_none};

verus! {

/// Why a read fails: the stream ends early, a byte breaks the format, an `@`
/// link names no object read so far, or a `;` link names no symbol read so far.
pub enum Fault {
    Eof,
    Format,
    Link(u32),
    Symlink(u32),
}

/// The error `e` is the one for fault `f`.
pub open spec fn fault_is(e: Error, f: Fault) -> bool {
    match (e, f) {
        (Error::UnexpectedEof, Fault::Eof) => true,
        (Error::BadFormat(_), Fault::Format) => true,
        (Error::BadLink(i), Fault::Link(j)) => i == j,
        (Error::BadSymlink(i), Fault::Symlink(j)) => i == j,
        _ => false,
    }
}

/// Why a length-prefixed chunk at `p` cannot be read: a negative length
/// breaks the format, anything else is the end of the stream.
pub open spec fn f_chunk(b: Seq<u8>, p: int) -> Fault {
    match read_long(b, p) {
        Some((n, _)) => if n < 0 { Fault::Format } else { Fault::Eof },
        None => Fault::Eof,
    }
}

/// Why a symbol reference cannot be read.
pub open spec fn f_symref(b: Seq<u8>, s: PState) -> Fault {
    if s.pos < 0 || s.pos >= b.len() {
        Fault::Eof
    } else if b[s.pos] == 58u8 {
        f_chunk(b, s.pos + 1)
    } else if b[s.pos] == 59u8 {
        match read_long(b, s.pos + 1) {
            Some((i, _)) => Fault::Symlink(i as u32),
            None => Fault::Eof,
        }
    } else {
        Fault::Format
    }
}

/// Why the value at `s.pos` cannot be read (meaningful where `p_value` fails).
pub open spec fn f_value(b: Seq<u8>, s: PState) -> Fault
    decreases b.len() - s.pos, 0int, 0int,
{
    if s.pos < 0 || s.pos >= b.len() {
        Fault::Eof
    } else {
        let t = b[s.pos];
        let p = s.pos + 1;
        if t == 102u8 || t == 34u8 || t == 58u8 || t == 99u8 || t == 109u8 || t == 77u8 {
            f_chunk(b, p)
        } else if t == 59u8 {
            match read_long(b, p) {
                Some((i, _)) => Fault::Symlink(i as u32),
                None => Fault::Eof,
            }
        } else if t == 91u8 {
            f_array(b, at(s, p))
        } else if t == 123u8 || t == 125u8 {
            f_hash(b, at(s, p), t == 125u8)
        } else if t == 111u8 || t == 83u8 {
            f_object(b, at(s, p), t == 83u8)
        } else if t == 47u8 {
            match p_chunk(b, p) {
                None => f_chunk(b, p),
                Some(_) => Fault::Eof,
            }
        } else if t == 108u8 {
            f_bignum(b, at(s, p))
        } else if t == 117u8 {
            match p_symref(b, at(s, p)) {
                None => f_symref(b, at(s, p)),
                Some((_, s2, _)) => f_chunk(b, s2.pos),
            }
        } else if t == 85u8 || t == 100u8 {
            f_wrapped(b, at(s, p), t == 100u8)
        } else if t == 73u8 {
            f_ivar(b, at(s, p))
        } else if t == 101u8 {
            f_extended(b, at(s, p))
        } else if t == 67u8 {
            match p_symref(b, at(s, p)) {
                None => f_symref(b, at(s, p)),
                Some((_, s2, _)) => if !adv(b, s.pos, s2.pos) { Fault::Eof } else { f_value(b, s2) },
            }
        } else if t == 64u8 {
            match read_long(b, p) {
                Some((i, _)) => Fault::Link(i as u32),
                None => Fault::Eof,
            }
        } else if t == 48u8 || t == 84u8 || t == 70u8 || t == 105u8 {
            Fault::Eof
        } else {
            Fault::Format
        }
    }
}

/// Why an array after its tag cannot be read.
pub open spec fn f_array(b: Seq<u8>, s: PState) -> Fault
    decreases b.len() - s.pos, 1int, 0int,
{
    match read_long(b, s.pos) {
        None => Fault::Eof,
        Some((n, q)) => if n < 0 {
            Fault::Format
        } else if !adv(b, s.pos, q) {
            Fault::Eof
        } else {
            f_items(b, push_obj(at(s, q), KindV::Array(seq![])), n, 0)
        },
    }
}

/// Why items `i..n` of an array cannot be read: the first item that fails.
pub open spec fn f_items(b: Seq<u8>, s: PState, n: i64, i: int) -> Fault
    decreases b.len() - s.pos, 2int, n - i,
{
    if i >= n {
        Fault::Eof
    } else {
        match p_value(b, s) {
            None => f_value(b, s),
            Some((_, s2, _)) => if !adv(b, s.pos, s2.pos) { Fault::Eof } else { f_items(b, s2, n, i + 1) },
        }
    }
}

/// Why a hash after its tag cannot be read.
pub open spec fn f_hash(b: Seq<u8>, s: PState, dflt: bool) -> Fault
    decreases b.len() - s.pos, 1int, 0int,
{
    match read_long(b, s.pos) {
        None => Fault::Eof,
        Some((n, q)) => if n < 0 {
            Fault::Format
        } else if !adv(b, s.pos, q) {
            Fault::Eof
        } else {
            let s1 = push_obj(at(s, q), KindV::Hash { pairs: seq![], default: None });
            match p_hpairs(b, s1, n, 0, seq![]) {
                None => f_hpairs(b, s1, n, 0),
                Some((_, s3, _)) => if !dflt || !adv(b, s.pos, s3.pos) { Fault::Eof } else { f_value(b, s3) },
            }
        },
    }
}

/// Why pairs `i..n` of a hash cannot be read.
pub open spec fn f_hpairs(b: Seq<u8>, s: PState, n: i64, i: int) -> Fault
    decreases b.len() - s.pos, 2int, n - i,
{
    if i >= n {
        Fault::Eof
    } else {
        match p_value(b, s) {
            None => f_value(b, s),
            Some((_, s2, _)) => if !adv(b, s.pos, s2.pos) {
                Fault::Eof
            } else {
                match p_value(b, s2) {
                    None => f_value(b, s2),
                    Some((_, s3, _)) => if !adv(b, s2.pos, s3.pos) { Fault::Eof } else { f_hpairs(b, s3, n, i + 1) },
                }
            },
        }
    }
}

/// Why an object or struct after its tag cannot be read.
pub open spec fn f_object(b: Seq<u8>, s: PState, is_struct: bool) -> Fault
    decreases b.len() - s.pos, 1int, 0int,
{
    match p_symref(b, s) {
        None => f_symref(b, s),
        Some((class, s2, _)) => match read_long(b, s2.pos) {
            None => Fault::Eof,
            Some((n, q)) => if !adv(b, s.pos, q) {
                Fault::Eof
            } else {
                let k = if is_struct {
                    KindV::Struct { class, members: seq![] }
                } else {
                    KindV::Object { class, ivars: seq![] }
                };
                f_spairs(b, push_obj(at(s2, q), k), n, 0)
            },
        },
    }
}

/// Why (symbol, value) pairs `i..n` cannot be read.
pub open spec fn f_spairs(b: Seq<u8>, s: PState, n: i64, i: int) -> Fault
    decreases b.len() - s.pos, 2int, n - i,
{
    if i >= n {
        Fault::Eof
    } else {
        match p_symref(b, s) {
            None => f_symref(b, s),
            Some((_, s2, _)) => if !adv(b, s.pos, s2.pos) {
                Fault::Eof
            } else {
                match p_value(b, s2) {
                    None => f_value(b, s2),
                    Some((_, s3, _)) => if !adv(b, s2.pos, s3.pos) { Fault::Eof } else { f_spairs(b, s3, n, i + 1) },
                }
            },
        }
    }
}

/// Why a bignum after its tag cannot be read.
pub open spec fn f_bignum(b: Seq<u8>, s: PState) -> Fault {
    if s.pos < 0 || s.pos >= b.len() {
        Fault::Eof
    } else {
        match read_long(b, s.pos + 1) {
            Some((n, _)) => if n < 0 { Fault::Format } else { Fault::Eof },
            None => Fault::Eof,
        }
    }
}

/// Why a `U` / `d` value after its tag cannot be read.
pub open spec fn f_wrapped(b: Seq<u8>, s: PState, is_data: bool) -> Fault
    decreases b.len() - s.pos, 1int, 0int,
{
    match p_symref(b, s) {
        None => f_symref(b, s),
        Some((class, s2, _)) => if !adv(b, s.pos, s2.pos) {
            Fault::Eof
        } else {
            let k = if is_data {
                KindV::Data { class, inner: NIL_NODE }
            } else {
                KindV::UserMarshal { class, inner: NIL_NODE }
            };
            f_value(b, push_obj(s2, k))
        },
    }
}

/// Why an `I` value after its tag cannot be read.
pub open spec fn f_ivar(b: Seq<u8>, s: PState) -> Fault
    decreases b.len() - s.pos, 1int, 0int,
{
    match p_value(b, s) {
        None => f_value(b, s),
        Some((_, s2, _)) => if !adv(b, s.pos, s2.pos) {
            Fault::Eof
        } else {
            match read_long(b, s2.pos) {
                None => Fault::Eof,
                Some((n, q)) => if !adv(b, s2.pos, q) { Fault::Eof } else { f_spairs(b, at(s2, q), n, 0) },
            }
        },
    }
}

/// Why an `e` value after its tag cannot be read.
pub open spec fn f_extended(b: Seq<u8>, s: PState) -> Fault
    decreases b.len() - s.pos, 1int, 0int,
{
    match p_symref(b, s) {
        None => f_symref(b, s),
        Some((_, s2, _)) => if !adv(b, s.pos, s2.pos) { Fault::Eof } else { f_value(b, s2) },
    }
}

/// Reader state: position in the stream, the arena being built, the symbol
/// table, and the object table that `@` links index.
struct LoadState {
    pos: usize,
    nodes: Vec<Node>,
    syms: Vec<Sym>,
    objs: Vec<u32>,
}

/// The arena and symbol table read so far, as a tree model.
spec fn lm(st: LoadState) -> TreeModel {
    TreeModel { nodes: st.nodes@.map_values(|n: Node| n.kind), syms: st.syms@, root: NIL_NODE }
}

/// The reader state as plain values.
spec fn ps(st: LoadState) -> PState {
    PState { pos: st.pos as int, nodes: nodes_view(lm(st)), syms: syms_view(lm(st)), objs: st.objs@ }
}

/// The reader state is consistent with the stream.
spec fn st_ok(buf: Seq<u8>, st: LoadState) -> bool {
    &&& st.pos <= buf.len()
    &&& buf.len() < NIL_NODE
    &&& lm(st).wf()
    &&& st.nodes@.len() <= st.pos
    &&& st.syms@.len() <= st.pos
    &&& forall|j: int| 0 <= j < st.objs@.len() ==> (#[trigger] st.objs@[j] as nat) < st.nodes@.len()
}

/// What a read step may do to the state: move forward, and add at most one
/// node and one symbol per byte consumed.
spec fn grows(a: LoadState, b: LoadState) -> bool {
    &&& a.pos <= b.pos
    &&& a.nodes@.len() <= b.nodes@.len()
    &&& a.syms@.len() <= b.syms@.len()
    &&& b.nodes@.len() - a.nodes@.len() <= b.pos - a.pos
    &&& b.syms@.len() - a.syms@.len() <= b.pos - a.pos
}

/// Appends a node to the arena.
fn st_alloc(Ghost(buf): Ghost<Seq<u8>>, st: &mut LoadState, kind: Kind) -> (r: u32)
    requires
        st_ok(buf, *old(st)),
        old(st).nodes@.len() < old(st).pos,
        kind_ok(kind, old(st).nodes@.len(), old(st).syms@.len()),
    ensures
        st_ok(buf, *final(st)),
        r as nat == old(st).nodes@.len(),
        final(st).pos == old(st).pos,
        final(st).syms@ == old(st).syms@,
        final(st).objs@ == old(st).objs@,
        final(st).nodes@.len() == old(st).nodes@.len() + 1,
        lm(*final(st)).nodes == lm(*old(st)).nodes.push(kind),
        ps(*final(st)) == push_node(ps(*old(st)), kind_view(kind)),
{
    let ghost m = lm(*st);
    let ghost p0 = ps(*st);
    proof {
        lemma_refs_ok_push(m, kind);
    }
    let idx = st.nodes.len() as u32;
    st.nodes.push(Node { kind });
    assert(lm(*st) =~= (TreeModel { nodes: m.nodes.push(kind), ..m }));
    assert(ps(*st).nodes =~= p0.nodes.push(kind_view(kind)));
    idx
}

/// Replaces a node of the arena.
fn st_set(Ghost(buf): Ghost<Seq<u8>>, st: &mut LoadState, idx: u32, kind: Kind)
    requires
        st_ok(buf, *old(st)),
        (idx as nat) < old(st).nodes@.len(),
        kind_ok(kind, old(st).nodes@.len(), old(st).syms@.len()),
        is_wrapper(kind) ==> kind_ok(kind, idx as nat, old(st).syms@.len()),
    ensures
        st_ok(buf, *final(st)),
        final(st).pos == old(st).pos,
        final(st).syms@ == old(st).syms@,
        final(st).objs@ == old(st).objs@,
        final(st).nodes@.len() == old(st).nodes@.len(),
        lm(*final(st)).nodes == lm(*old(st)).nodes.update(idx as int, kind),
        ps(*final(st)) == set_node(ps(*old(st)), idx, kind_view(kind)),
{
    let ghost m = lm(*st);
    let ghost p0 = ps(*st);
    proof {
        lemma_refs_ok_replace(m, idx as int, kind);
    }
    st.nodes.set(idx as usize, Node { kind });
    assert(lm(*st) =~= (TreeModel { nodes: m.nodes.update(idx as int, kind), ..m }));
    assert(ps(*st).nodes =~= p0.nodes.update(idx as int, kind_view(kind)));
}

/// Index of the symbol spelled `bytes`, added to the table if absent.
fn st_sym(Ghost(buf): Ghost<Seq<u8>>, st: &mut LoadState, bytes: Vec<u8>) -> (r: u32)
    requires
        st_ok(buf, *old(st)),
        old(st).syms@.len() < old(st).pos,
    ensures
        st_ok(buf, *final(st)),
        (r as nat) < final(st).syms@.len(),
        final(st).syms@[r as int].bytes@ == bytes@,
        final(st).pos == old(st).pos,
        final(st).nodes@ == old(st).nodes@,
        final(st).objs@ == old(st).objs@,
        old(st).syms@.len() <= final(st).syms@.len() <= old(st).syms@.len() + 1,
        r == with_sym(ps(*old(st)), bytes@).0,
        ps(*final(st)) == with_sym(ps(*old(st)), bytes@).1,
{
    let ghost p0 = ps(*st);
    let mut i: usize = 0;
    while i < st.syms.len()
        invariant
            i <= st.syms@.len(),
            *st == *old(st),
            p0 == ps(*st),
            st_ok(buf, *st),
            forall|k: int| 0 <= k < i ==> !spells(bytes@)(#[trigger] p0.syms[k]),
        decreases st.syms@.len() - i,
    {
        if bytes_eq(st.syms[i].bytes.as_slice(), bytes.as_slice()) {
            proof {
                assert(p0.syms[i as int] == st.syms@[i as int].bytes@);
                lemma_first_index_at(p0.syms, spells(bytes@), i as int);
            }
            return i as u32;
        }
        i = i + 1;
    }
    proof {
        lemma_first_index_none(p0.syms, spells(bytes@));
    }
    let ghost m = lm(*st);
    let s = Sym { bytes, enc: Enc::Plain };
    proof {
        lemma_push_sym(m, s);
    }
    let idx = st.syms.len() as u32;
    st.syms.push(s);
    assert(lm(*st) =~= (TreeModel { syms: m.syms.push(s), ..m }));
    assert(ps(*st).syms =~= p0.syms.push(s.bytes@));
    idx
}

fn r_byte(buf: &[u8], st: &mut LoadState) -> (r: Result<u8, Error>)
    ensures
        final(st).nodes@ == old(st).nodes@ && final(st).syms@ == old(st).syms@ && final(st).objs@
            == old(st).objs@,
        match r {
            Ok(b) => (old(st).pos as nat) < buf@.len() && b == buf@[old(st).pos as int]
                && final(st).pos == old(st).pos + 1,
            Err(e) => (old(st).pos as nat) >= buf@.len() && e is UnexpectedEof && final(st).pos
                == old(st).pos,
        },
{
    if st.pos >= buf.len() {
        return Err(Error::UnexpectedEof);
    }
    let b = buf[st.pos];
    st.pos = st.pos + 1;
    Ok(b)
}

fn st_long(buf: &[u8], st: &mut LoadState) -> (r: Result<i64, Error>)
    ensures
        final(st).nodes@ == old(st).nodes@ && final(st).syms@ == old(st).syms@ && final(st).objs@
            == old(st).objs@,
        match r {
            Ok(v) => read_long(buf@, old(st).pos as int) == Some((v, final(st).pos as int)),
            Err(e) => read_long(buf@, old(st).pos as int) is None && final(st).pos == old(st).pos
                && e is UnexpectedEof,
        },
        r is Ok ==> old(st).pos < final(st).pos <= buf@.len(),
{
    let mut p = st.pos;
    let r = r_long(buf, &mut p);
    st.pos = p;
    r
}

/// A length-prefixed byte chunk (Ruby's `r_bytes`).
fn r_chunk(buf: &[u8], st: &mut LoadState) -> (r: Result<Vec<u8>, Error>)
    ensures
        final(st).nodes@ == old(st).nodes@ && final(st).syms@ == old(st).syms@ && final(st).objs@
            == old(st).objs@,
        old(st).pos <= buf@.len() ==> old(st).pos <= final(st).pos <= buf@.len(),
        r is Ok ==> old(st).pos < final(st).pos <= buf@.len(),
        r matches Ok(v) ==> read_long(buf@, old(st).pos as int) matches Some((n, p)) && n >= 0
            && v@ == buf@.subrange(p, p + n) && final(st).pos == p + n,
        match r {
            Ok(v) => p_chunk(buf@, old(st).pos as int) matches Some((bytes, q, _)) && v@ == bytes
                && final(st).pos == q,
            Err(e) => p_chunk(buf@, old(st).pos as int) is None && fault_is(e, f_chunk(buf@, old(st).pos as int)),
        },
{
    let n = st_long(buf, st)?;
    if n < 0 {
        return Err(Error::BadFormat("negative chunk length"));
    }
    if n as u64 > (buf.len() - st.pos) as u64 {
        return Err(Error::UnexpectedEof);
    }
    let start = st.pos;
    let end = st.pos + n as usize;
    let v = copy_range(buf, start, end);
    st.pos = end;
    Ok(v)
}

/// A symbol reference, `:` with a name or `;` with a table index.
fn r_symbol_ref(buf: &[u8], st: &mut LoadState) -> (r: Result<u32, Error>)
    requires
        st_ok(buf@, *old(st)),
    ensures
        st_ok(buf@, *final(st)),
        grows(*old(st), *final(st)),
        final(st).nodes@ == old(st).nodes@,
        r matches Ok(s) ==> (s as nat) < final(st).syms@.len(),
        match r {
            Ok(x) => strip(p_symref(buf@, ps(*old(st)))) == Some((x, ps(*final(st)))),
            Err(e) => p_symref(buf@, ps(*old(st))) is None && fault_is(e, f_symref(buf@, ps(*old(st)))),
        },
        r is Ok ==> old(st).pos < final(st).pos,
{
    let t = r_byte(buf, st)?;
    if t == 58u8 {
        let name = r_chunk(buf, st)?;
        let s = st_sym(Ghost(buf@), st, name);
        Ok(s)
    } else if t == 59u8 {
        let i = st_long(buf, st)? as u32;
        if i as usize >= st.syms.len() {
            return Err(Error::BadSymlink(i));
        }
        Ok(i)
    } else {
        Err(Error::BadFormat("expected symbol"))
    }
}

/// `n` pairs of (symbol, value).
fn r_sym_pairs(buf: &[u8], st: &mut LoadState, n: i64) -> (r: Result<Vec<(u32, u32)>, Error>)
    requires
        st_ok(buf@, *old(st)),
    ensures
        st_ok(buf@, *final(st)),
        grows(*old(st), *final(st)),
        r matches Ok(pairs) ==> crate::marshal::model::sym_pairs_ok(
            pairs@,
            final(st).nodes@.len(),
            final(st).syms@.len(),
        ),
        match r {
            Ok(v) => strip(p_spairs(buf@, ps(*old(st)), n, 0, seq![])) == Some((v@, ps(*final(st)))),
            Err(e) => p_spairs(buf@, ps(*old(st)), n, 0, seq![]) is None && fault_is(e, f_spairs(buf@, ps(*old(st)), n, 0)),
        },
    decreases buf@.len() - old(st).pos, 1nat,
{
    let mut pairs: Vec<(u32, u32)> = Vec::new();
    let mut i: i64 = 0;
    let ghost st0 = *st;
    while i < n
        invariant
            st_ok(buf@, *st),
            grows(st0, *st),
            st0 == *old(st),
            crate::marshal::model::sym_pairs_ok(pairs@, st.nodes@.len(), st.syms@.len()),
            i >= 0,
            strip(p_spairs(buf@, ps(st0), n, 0, seq![])) == strip(p_spairs(buf@, ps(*st), n, i as int, pairs@)),
            f_spairs(buf@, ps(st0), n, 0) == f_spairs(buf@, ps(*st), n, i as int),
        decreases n - i,
    {
        let ghost before = *st;
        let k = r_symbol_ref(buf, st)?;
        let v = r_value(buf, st)?;
        pairs.push((k, v));
        i = i + 1;
        proof {
            assert forall|j: int| 0 <= j < pairs@.len() implies ((#[trigger] pairs@[j]).0 as nat) < st.syms@.len()
                && ref_ok(pairs@[j].1, st.nodes@.len()) by {
                if j < pairs@.len() - 1 {
                    assert(ref_ok(pairs@[j].1, before.nodes@.len()));
                }
            }
        }
    }
    Ok(pairs)
}

/// Like `grows`, but the step may add one node and one symbol more: the
/// type tag was consumed before the step began.
spec fn grows1(a: LoadState, b: LoadState) -> bool {
    &&& a.pos <= b.pos
    &&& a.nodes@.len() <= b.nodes@.len()
    &&& a.syms@.len() <= b.syms@.len()
    &&& b.nodes@.len() - a.nodes@.len() <= b.pos - a.pos + 1
    &&& b.syms@.len() - a.syms@.len() <= b.pos - a.pos + 1
}

/// State right after a type tag: there is room for one more node and symbol.
spec fn after_tag(buf: Seq<u8>, st: LoadState) -> bool {
    st_ok(buf, st) && st.nodes@.len() < st.pos && st.syms@.len() < st.pos
}

/// One value (Ruby's `r_object0`); returns its node or sentinel index.
#[verifier::rlimit(40)]
fn r_value(buf: &[u8], st: &mut LoadState) -> (r: Result<u32, Error>)
    requires
        st_ok(buf@, *old(st)),
    ensures
        st_ok(buf@, *final(st)),
        grows(*old(st), *final(st)),
        r is Ok ==> old(st).pos < final(st).pos,
        r matches Ok(v) ==> ref_ok(v, final(st).nodes@.len()),
        match r {
            Ok(v) => strip(p_value(buf@, ps(*old(st)))) == Some((v, ps(*final(st)))),
            Err(e) => p_value(buf@, ps(*old(st))) is None && fault_is(e, f_value(buf@, ps(*old(st)))),
        },
    decreases buf@.len() - old(st).pos, 0nat,
{
    let t = r_byte(buf, st)?;
    if t == 48u8 {
        // '0'
        Ok(NIL_NODE)
    } else if t == 84u8 {
        // 'T'
        Ok(TRUE_NODE)
    } else if t == 70u8 {
        // 'F'
        Ok(FALSE_NODE)
    } else if t == 105u8 {
        // 'i'
        let v = st_long(buf, st)?;
        Ok(st_alloc(Ghost(buf@), st, Kind::Fixnum(v)))
    } else if t == 102u8 {
        // 'f': floats enter the object table
        let raw = r_chunk(buf, st)?;
        let idx = st_alloc(Ghost(buf@), st, Kind::Float(crate::marshal::model::FloatData { raw }));
        st.objs.push(idx);
        Ok(idx)
    } else if t == 34u8 {
        // '"'
        let bytes = r_chunk(buf, st)?;
        let idx = st_alloc(Ghost(buf@), st, Kind::Str(StrData { bytes, enc: Enc::Plain }));
        st.objs.push(idx);
        Ok(idx)
    } else if t == 58u8 {
        // ':'
        let name = r_chunk(buf, st)?;
        let s = st_sym(Ghost(buf@), st, name);
        Ok(st_alloc(Ghost(buf@), st, Kind::Sym(s)))
    } else if t == 59u8 {
        // ';'
        let i = st_long(buf, st)? as u32;
        if i as usize >= st.syms.len() {
            return Err(Error::BadSymlink(i));
        }
        Ok(st_alloc(Ghost(buf@), st, Kind::Sym(i)))
    } else if t == 91u8 {
        r_array(buf, st)
    } else if t == 123u8 || t == 125u8 {
        r_hash(buf, st, t == 125u8)
    } else if t == 111u8 || t == 83u8 {
        r_object(buf, st, t == 83u8)
    } else if t == 99u8 {
        // 'c': class names are plain byte chunks
        let name = r_chunk(buf, st)?;
        let idx = st_alloc(Ghost(buf@), st, Kind::Class(name));
        st.objs.push(idx);
        Ok(idx)
    } else if t == 109u8 || t == 77u8 {
        // 'm' / 'M'
        let name = r_chunk(buf, st)?;
        let idx = st_alloc(Ghost(buf@), st, Kind::Module { name, old: t == 77u8 });
        st.objs.push(idx);
        Ok(idx)
    } else if t == 47u8 {
        // '/'
        let src = r_chunk(buf, st)?;
        let options = r_byte(buf, st)?;
        let idx = st_alloc(
            Ghost(buf@),
            st,
            Kind::Regexp { src: StrData { bytes: src, enc: Enc::Plain }, options },
        );
        st.objs.push(idx);
        Ok(idx)
    } else if t == 108u8 {
        r_bignum(buf, st)
    } else if t == 117u8 {
        // 'u'
        let class = r_symbol_ref(buf, st)?;
        let payload = r_chunk(buf, st)?;
        let idx = st_alloc(
            Ghost(buf@),
            st,
            Kind::UserDef { class, payload: StrData { bytes: payload, enc: Enc::Plain } },
        );
        st.objs.push(idx);
        Ok(idx)
    } else if t == 85u8 || t == 100u8 {
        r_wrapped_object(buf, st, t == 100u8)
    } else if t == 73u8 {
        r_ivar(buf, st)
    } else if t == 101u8 {
        r_extended(buf, st)
    } else if t == 67u8 {
        // 'C'
        let cls = r_symbol_ref(buf, st)?;
        let inner = r_value(buf, st)?;
        Ok(st_alloc(Ghost(buf@), st, Kind::UClass { cls, inner }))
    } else if t == 64u8 {
        // '@': link to an earlier object
        let i = st_long(buf, st)? as u32;
        if (i as usize) < st.objs.len() {
            Ok(st.objs[i as usize])
        } else {
            Err(Error::BadLink(i))
        }
    } else {
        Err(Error::BadFormat("unknown type tag"))
    }
}

/// `[`: count, then the items.
#[verifier::loop_isolation(false)]
fn r_array(buf: &[u8], st: &mut LoadState) -> (r: Result<u32, Error>)
    requires
        after_tag(buf@, *old(st)),
    ensures
        st_ok(buf@, *final(st)),
        grows1(*old(st), *final(st)),
        r matches Ok(v) ==> ref_ok(v, final(st).nodes@.len()),
        match r {
            Ok(v) => strip(p_array(buf@, ps(*old(st)))) == Some((v, ps(*final(st)))),
            Err(e) => p_array(buf@, ps(*old(st))) is None && fault_is(e, f_array(buf@, ps(*old(st)))),
        },
    decreases buf@.len() - old(st).pos, 1nat,
{
    let ghost st0 = *st;
    let n = st_long(buf, st)?;
    if n < 0 {
        return Err(Error::BadFormat("negative array length"));
    }
    let idx = st_alloc(Ghost(buf@), st, Kind::Array(Vec::new()));
    st.objs.push(idx);
    let ghost s1 = ps(*st);
    let mut items: Vec<u32> = Vec::new();
    let mut i: i64 = 0;
    while i < n
        invariant
            st_ok(buf@, *st),
            grows1(st0, *st),
            st0.pos < st.pos,
            (idx as nat) < st.nodes@.len(),
            st0 == *old(st),
            crate::marshal::model::refs_below(items@, st.nodes@.len()),
            i >= 0,
            strip(p_items(buf@, s1, n, 0, seq![])) == strip(p_items(buf@, ps(*st), n, i as int, items@)),
            f_items(buf@, s1, n, 0) == f_items(buf@, ps(*st), n, i as int),
        decreases n - i,
    {
        let ghost before = *st;
        let v = r_value(buf, st)?;
        items.push(v);
        i = i + 1;
        proof {
            assert forall|j: int| 0 <= j < items@.len() implies ref_ok(#[trigger] items@[j], st.nodes@.len()) by {
                if j < items@.len() - 1 {
                    assert(ref_ok(items@[j], before.nodes@.len()));
                }
            }
        }
    }
    st_set(Ghost(buf@), st, idx, Kind::Array(items));
    Ok(idx)
}

/// `{` / `}`: count, the pairs, and for `}` the default value.
#[verifier::loop_isolation(false)]
fn r_hash(buf: &[u8], st: &mut LoadState, has_default: bool) -> (r: Result<u32, Error>)
    requires
        after_tag(buf@, *old(st)),
    ensures
        st_ok(buf@, *final(st)),
        grows1(*old(st), *final(st)),
        r matches Ok(v) ==> ref_ok(v, final(st).nodes@.len()),
        match r {
            Ok(v) => strip(p_hash(buf@, ps(*old(st)), has_default)) == Some((v, ps(*final(st)))),
            Err(e) => p_hash(buf@, ps(*old(st)), has_default) is None && fault_is(e, f_hash(buf@, ps(*old(st)), has_default)),
        },
    decreases buf@.len() - old(st).pos, 1nat,
{
    let ghost st0 = *st;
    let n = st_long(buf, st)?;
    if n < 0 {
        return Err(Error::BadFormat("negative hash length"));
    }
    let idx = st_alloc(Ghost(buf@), st, Kind::Hash { pairs: Vec::new(), default: None });
    st.objs.push(idx);
    let ghost s1 = ps(*st);
    let mut pairs: Vec<(u32, u32)> = Vec::new();
    let mut i: i64 = 0;
    while i < n
        invariant
            st_ok(buf@, *st),
            grows1(st0, *st),
            st0.pos < st.pos,
            (idx as nat) < st.nodes@.len(),
            st0 == *old(st),
            crate::marshal::model::pairs_below(pairs@, st.nodes@.len()),
            i >= 0,
            strip(p_hpairs(buf@, s1, n, 0, seq![])) == strip(p_hpairs(buf@, ps(*st), n, i as int, pairs@)),
            f_hpairs(buf@, s1, n, 0) == f_hpairs(buf@, ps(*st), n, i as int),
        decreases n - i,
    {
        let ghost before = *st;
        let k = r_value(buf, st)?;
        let ghost mid = *st;
        let v = r_value(buf, st)?;
        pairs.push((k, v));
        i = i + 1;
        proof {
            assert forall|j: int| 0 <= j < pairs@.len() implies ref_ok((#[trigger] pairs@[j]).0, st.nodes@.len())
                && ref_ok(pairs@[j].1, st.nodes@.len()) by {
                if j < pairs@.len() - 1 {
                    assert(ref_ok(pairs@[j].0, before.nodes@.len()));
                    assert(ref_ok(pairs@[j].1, before.nodes@.len()));
                } else {
                    assert(ref_ok(k, mid.nodes@.len()));
                }
            }
        }
    }
    let default = if has_default {
        let d = r_value(buf, st)?;
        Some(d)
    } else {
        None
    };
    st_set(Ghost(buf@), st, idx, Kind::Hash { pairs, default });
    Ok(idx)
}

/// `o` / `S`: class symbol, count, then (name, value) pairs.
fn r_object(buf: &[u8], st: &mut LoadState, is_struct: bool) -> (r: Result<u32, Error>)
    requires
        after_tag(buf@, *old(st)),
    ensures
        st_ok(buf@, *final(st)),
        grows1(*old(st), *final(st)),
        r matches Ok(v) ==> ref_ok(v, final(st).nodes@.len()),
        match r {
            Ok(v) => strip(p_object(buf@, ps(*old(st)), is_struct)) == Some((v, ps(*final(st)))),
            Err(e) => p_object(buf@, ps(*old(st)), is_struct) is None && fault_is(e, f_object(buf@, ps(*old(st)), is_struct)),
        },
    decreases buf@.len() - old(st).pos, 1nat,
{
    let class = r_symbol_ref(buf, st)?;
    let n = st_long(buf, st)?;
    let idx = if !is_struct {
        st_alloc(Ghost(buf@), st, Kind::Object { class, ivars: Vec::new() })
    } else {
        st_alloc(Ghost(buf@), st, Kind::Struct { class, members: Vec::new() })
    };
    st.objs.push(idx);
    let pairs = r_sym_pairs(buf, st, n)?;
    if !is_struct {
        st_set(Ghost(buf@), st, idx, Kind::Object { class, ivars: pairs });
    } else {
        st_set(Ghost(buf@), st, idx, Kind::Struct { class, members: pairs });
    }
    Ok(idx)
}

/// `l`: sign byte, word count, little-endian 16-bit words.
fn r_bignum(buf: &[u8], st: &mut LoadState) -> (r: Result<u32, Error>)
    requires
        after_tag(buf@, *old(st)),
    ensures
        st_ok(buf@, *final(st)),
        grows1(*old(st), *final(st)),
        r matches Ok(v) ==> ref_ok(v, final(st).nodes@.len()),
        match r {
            Ok(v) => strip(p_bignum(buf@, ps(*old(st)))) == Some((v, ps(*final(st)))),
            Err(e) => p_bignum(buf@, ps(*old(st))) is None && fault_is(e, f_bignum(buf@, ps(*old(st)))),
        },
{
    let sign = r_byte(buf, st)? == 43u8;
    let n = st_long(buf, st)?;
    if n < 0 {
        return Err(Error::BadFormat("negative bignum len"));
    }
    if n as u64 > ((buf.len() - st.pos) / 2) as u64 {
        return Err(Error::UnexpectedEof);
    }
    let cnt = n as usize;
    let start = st.pos;
    let mut words: Vec<u16> = Vec::new();
    let mut i: usize = 0;
    while i < cnt
        invariant
            i <= cnt,
            start + cnt * 2 <= buf@.len(),
            buf@.len() < NIL_NODE,
            words@ =~= words_at(buf@, start as int, i as nat),
        decreases cnt - i,
    {
        let lo = buf[start + 2 * i] as u16;
        let hi = buf[start + 2 * i + 1] as u16;
        words.push(lo + hi * 256);
        i = i + 1;
        assert(words@ =~= words_at(buf@, start as int, i as nat));
    }
    st.pos = start + 2 * cnt;
    let idx = st_alloc(Ghost(buf@), st, Kind::Bignum { sign, words });
    st.objs.push(idx);
    Ok(idx)
}

/// `U` / `d`: class symbol, then the wrapped value.
fn r_wrapped_object(buf: &[u8], st: &mut LoadState, is_data: bool) -> (r: Result<u32, Error>)
    requires
        after_tag(buf@, *old(st)),
    ensures
        st_ok(buf@, *final(st)),
        grows1(*old(st), *final(st)),
        r matches Ok(v) ==> ref_ok(v, final(st).nodes@.len()),
        match r {
            Ok(v) => strip(p_wrapped(buf@, ps(*old(st)), is_data)) == Some((v, ps(*final(st)))),
            Err(e) => p_wrapped(buf@, ps(*old(st)), is_data) is None && fault_is(e, f_wrapped(buf@, ps(*old(st)), is_data)),
        },
    decreases buf@.len() - old(st).pos, 1nat,
{
    let class = r_symbol_ref(buf, st)?;
    let idx = if !is_data {
        st_alloc(Ghost(buf@), st, Kind::UserMarshal { class, inner: NIL_NODE })
    } else {
        st_alloc(Ghost(buf@), st, Kind::Data { class, inner: NIL_NODE })
    };
    st.objs.push(idx);
    let inner = r_value(buf, st)?;
    if !is_data {
        st_set(Ghost(buf@), st, idx, Kind::UserMarshal { class, inner });
    } else {
        st_set(Ghost(buf@), st, idx, Kind::Data { class, inner });
    }
    Ok(idx)
}

/// `I`: the value, a count, then (symbol, value) pairs.  A string takes the
/// pairs as its encoding; any other value is wrapped.
fn r_ivar(buf: &[u8], st: &mut LoadState) -> (r: Result<u32, Error>)
    requires
        after_tag(buf@, *old(st)),
    ensures
        st_ok(buf@, *final(st)),
        grows1(*old(st), *final(st)),
        r matches Ok(v) ==> ref_ok(v, final(st).nodes@.len()),
        match r {
            Ok(v) => strip(p_ivar(buf@, ps(*old(st)))) == Some((v, ps(*final(st)))),
            Err(e) => p_ivar(buf@, ps(*old(st))) is None && fault_is(e, f_ivar(buf@, ps(*old(st)))),
        },
    decreases buf@.len() - old(st).pos, 1nat,
{
    let inner = r_value(buf, st)?;
    let n = st_long(buf, st)?;
    let pairs = r_sym_pairs(buf, st, n)?;
    if (inner as usize) < st.nodes.len() {
        let sb = match &st.nodes[inner as usize].kind {
            Kind::Str(s) => Some(vstd::slice::slice_to_vec(s.bytes.as_slice())),
            _ => None,
        };
        if let Some(bytes) = sb {
            st_set(Ghost(buf@), st, inner, Kind::Str(StrData { bytes, enc: Enc::Ivar { pairs: pairs } }));
            return Ok(inner);
        }
    }
    Ok(st_alloc(Ghost(buf@), st, Kind::Ival { inner, pairs: pairs }))
}

/// `e`: a module symbol, then the extended value; stacked extensions merge.
fn r_extended(buf: &[u8], st: &mut LoadState) -> (r: Result<u32, Error>)
    requires
        after_tag(buf@, *old(st)),
    ensures
        st_ok(buf@, *final(st)),
        grows1(*old(st), *final(st)),
        r matches Ok(v) ==> ref_ok(v, final(st).nodes@.len()),
        match r {
            Ok(v) => strip(p_extended(buf@, ps(*old(st)))) == Some((v, ps(*final(st)))),
            Err(e) => p_extended(buf@, ps(*old(st))) is None && fault_is(e, f_extended(buf@, ps(*old(st)))),
        },
    decreases buf@.len() - old(st).pos, 1nat,
{
    let m = r_symbol_ref(buf, st)?;
    let inner = r_value(buf, st)?;
    if (inner as usize) < st.nodes.len() {
        let ghost model = lm(*st);
        assert(kind_ok(model.nodes[inner as int], model.nodes.len(), model.syms.len()));
        let ext = match &st.nodes[inner as usize].kind {
            Kind::Extended { mods, inner: i2 } => {
                let mut v: Vec<u32> = Vec::new();
                v.push(m);
                let mut j: usize = 0;
                while j < mods.len()
                    invariant
                        j <= mods@.len(),
                        v@ == seq![m] + mods@.subrange(0, j as int),
                    decreases mods@.len() - j,
                {
                    v.push(mods[j]);
                    j = j + 1;
                    assert(v@ =~= seq![m] + mods@.subrange(0, j as int));
                }
                assert(mods@.subrange(0, mods@.len() as int) =~= mods@);
                Some((v, *i2))
            },
            _ => None,
        };
        if let Some((mods2, i2)) = ext {
            assert(is_wrapper(model.nodes[inner as int]));
            assert(kind_ok(model.nodes[inner as int], inner as nat, model.syms.len()));
            st_set(Ghost(buf@), st, inner, Kind::Extended { mods: mods2, inner: i2 });
            return Ok(inner);
        }
    }
    let mut mods: Vec<u32> = Vec::new();
    mods.push(m);
    Ok(st_alloc(Ghost(buf@), st, Kind::Extended { mods, inner }))
}

/// Parses a Marshal 4.8 stream into a tree.
pub fn parse(buf: &[u8]) -> (r: Result<Tree, Error>)
    requires
        buf@.len() < NIL_NODE,
    ensures
        (r matches Err(Error::NotMarshal)) <==> !has_header(buf@, 0),
        has_header(buf@, 0) ==> (r matches Err(e) ==> fault_is(e, f_value(buf@, start_state()))),
        r is Ok <==> read_stream(buf@) is Some,
        r matches Ok(t) ==> t@.wf(),
        r matches Ok(t) ==> (read_stream(buf@) matches Some((v, s, _)) && reads_as(t@, v, s)),
{
    if buf.len() < 2 || buf[0] != MARSHAL_HEADER[0] || buf[1] != MARSHAL_HEADER[1] {
        return Err(Error::NotMarshal);
    }
    let (t, _) = parse_at(buf, 2)?;
    Ok(t)
}

/// The stream has the Marshal 4.8 header at `p`.
pub open spec fn has_header(b: Seq<u8>, p: int) -> bool {
    0 <= p && p + 2 <= b.len() && b[p] == 4u8 && b[p + 1] == 8u8
}

/// Reads one value tree starting at `start`; returns it with the position after it.
fn parse_at(buf: &[u8], start: usize) -> (r: Result<(Tree, usize), Error>)
    requires
        buf@.len() < NIL_NODE,
        start <= buf@.len(),
    ensures
        r matches Ok((t, p)) ==> t@.wf() && start < p <= buf@.len(),
        !(r matches Err(Error::NotMarshal)),
        r is Ok <==> p_value(buf@, fresh_at(start as int)) is Some,
        r matches Err(e) ==> fault_is(e, f_value(buf@, fresh_at(start as int))),
        r matches Ok((t, p)) ==> (p_value(buf@, fresh_at(start as int)) matches Some((v, s, _))
            && reads_as(t@, v, s) && s.pos == p),
{
    let mut st = LoadState { pos: start, nodes: Vec::new(), syms: Vec::new(), objs: Vec::new() };
    proof {
        assert(lm(st).nodes =~= Seq::<Kind>::empty());
        assert(ps(st) =~= fresh_at(start as int));
    }
    let root = match r_value(buf, &mut st) {
        Ok(v) => v,
        Err(e) => {
            return Err(match e {
                Error::NotMarshal => Error::BadFormat("unknown type tag"),
                other => other,
            });
        },
    };
    let pos = st.pos;
    let t = Tree::from_parts(st.nodes, st.syms, root);
    proof {
        assert(t@.nodes == lm(st).nodes);
        assert(t@ =~= TreeModel { root, ..lm(st) });
        assert(nodes_view(t@) == ps(st).nodes);
        assert(syms_view(t@) == ps(st).syms);
    }
    Ok((t, pos))
}

/// The streams of `b` from `p` to its end, one after another: each the Marshal
/// 4.8 header and one value read with tables of its own; the root and the
/// reader's state after each value.
pub open spec fn segments_from(b: Seq<u8>, p: int) -> Option<Seq<(u32, PState)>>
    decreases b.len() - p,
{
    if p < 0 || p >= b.len() {
        Some(seq![])
    } else if !has_header(b, p) {
        None
    } else {
        match p_value(b, fresh_at(p + 2)) {
            None => None,
            Some((v, s, _)) => if s.pos <= p || s.pos > b.len() {
                None
            } else {
                match segments_from(b, s.pos) {
                    None => None,
                    Some(rest) => Some(seq![(v, s)] + rest),
                }
            },
        }
    }
}

/// Parses a file made of several Marshal streams written one after another
/// (some games concatenate several `Marshal.dump` results); one tree per stream.
pub fn parse_multi(buf: &[u8]) -> (r: Result<Vec<Tree>, Error>)
    requires
        buf@.len() < NIL_NODE,
    ensures
        r matches Ok(ts) ==> forall|i: int| 0 <= i < ts@.len() ==> (#[trigger] ts@[i])@.wf(),
        buf@.len() == 0 ==> (r matches Ok(ts) && ts@.len() == 0),
        !has_header(buf@, 0) && buf@.len() > 0 ==> r is Err,
        r is Ok <==> segments_from(buf@, 0) is Some,
        r matches Ok(ts) ==> (segments_from(buf@, 0) matches Some(segs) && ts@.len() == segs.len()
            && forall|i: int| 0 <= i < ts@.len() ==> reads_as((#[trigger] ts@[i])@, segs[i].0, segs[i].1)),
{
    let mut trees: Vec<Tree> = Vec::new();
    let mut pos: usize = 0;
    let ghost mut done: Seq<(u32, PState)> = seq![];
    while pos < buf.len()
        invariant
            pos <= buf@.len() < NIL_NODE,
            forall|i: int| 0 <= i < trees@.len() ==> (#[trigger] trees@[i])@.wf(),
            pos == 0 ==> trees@.len() == 0,
            pos > 0 ==> has_header(buf@, 0),
            trees@.len() == done.len(),
            forall|i: int| 0 <= i < trees@.len() ==> reads_as((#[trigger] trees@[i])@, done[i].0, done[i].1),
            segments_from(buf@, 0) == match segments_from(buf@, pos as int) {
                Some(rest) => Some(done + rest),
                None => None,
            },
        decreases buf@.len() - pos,
    {
        if buf.len() - pos < 2 || buf[pos] != MARSHAL_HEADER[0] || buf[pos + 1] != MARSHAL_HEADER[1] {
            return Err(Error::BadFormat("segment without Marshal header"));
        }
        let (t, p) = parse_at(buf, pos + 2)?;
        proof {
            let (v, s2, _) = p_value(buf@, fresh_at(pos + 2)).unwrap();
            let rest = segments_from(buf@, p as int);
            if let Some(rr) = rest {
                assert(done + (seq![(v, s2)] + rr) =~= done.push((v, s2)) + rr);
            }
            done = done.push((v, s2));
        }
        trees.push(t);
        pos = p;
    }
    assert(done + seq![] =~= done);
    Ok(trees)
}

} // verus!
