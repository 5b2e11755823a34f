//! The Marshal value tree: an arena of nodes addressed by index, a symbol
//! table, and a root.  Values without identity (`nil`, `true`, `false`)
//! may also be addressed by sentinel indices that are not arena slots.
use vstd::prelude::*;

verus! {

/// The two version bytes that open every Marshal 4.8 stream.
pub const MARSHAL_HEADER: [u8; 2] = [4, 8];

/// Sentinel index standing for `true`.
pub const TRUE_NODE: u32 = u32::MAX - 2;
/// Sentinel index standing for `false`.
pub const FALSE_NODE: u32 = u32::MAX - 3;
/// Sentinel index standing for `nil`.
pub const NIL_NODE: u32 = u32::MAX - 4;
/// Sentinel symbol index for the `:E` encoding marker of UTF-8 strings
/// created by the editor; it is never a slot of the symbol table.
pub const E_SYM: u32 = u32::MAX - 1;

/// A symbol-table entry.  `:` and `;` share one table; the index is the
/// order of first appearance.
#[derive(Debug, Clone, PartialEq, Eq)]
pub struct Sym {
    pub bytes: Vec<u8>,
    /// Ruby 1.9 symbols may carry an encoding ivar.
    pub enc: Enc,
}

impl Sym {
    /// Display text of the symbol (invalid UTF-8 replaced).
    pub fn as_str(&self) -> (r: String)
        ensures
            r@ == crate::text::utf8_lossy(self.bytes@),
    {
        crate::text::lossy_utf8(self.bytes.as_slice())
    }
}

/// Encoding of a string: how its `I` wrapper is written.
#[derive(Debug, Clone, PartialEq, Eq)]
pub enum Enc {
    /// No `I` wrapper.
    Plain,
    /// `I <inner> <count> <pairs>`: raw (symbol, value) pairs.
    Ivar { pairs: Vec<(u32, u32)> },
}

/// Bytes of a string together with its encoding.
#[derive(Debug, Clone, PartialEq, Eq)]
pub struct StrData {
    pub bytes: Vec<u8>,
    pub enc: Enc,
}

/// Symbol `s` is `:E`: the library's own E symbol, or a symbol of the table spelled `E`.
pub open spec fn is_e_sym(s: u32, syms: Seq<Sym>) -> bool {
    s == E_SYM || ((s as int) < syms.len() && syms[s as int].bytes@ == seq![69u8])
}

/// The pair is `:E => true`.
pub open spec fn e_true_pair(p: (u32, u32), syms: Seq<Sym>) -> bool {
    is_e_sym(p.0, syms) && p.1 == TRUE_NODE
}

/// The encoding holds a pair `:E => true` (UTF-8), its symbol looked up in `syms`.
pub open spec fn marked_utf8(e: Enc, syms: Seq<Sym>) -> bool {
    match e {
        Enc::Ivar { pairs } => crate::util::first_index(pairs@, |p: (u32, u32)| e_true_pair(p, syms)) is Some,
        Enc::Plain => false,
    }
}

impl StrData {
    /// A string without encoding ivars.
    pub fn plain(bytes: Vec<u8>) -> (r: StrData)
        ensures
            r.bytes == bytes,
            r.enc is Plain,
    {
        StrData { bytes, enc: Enc::Plain }
    }

    /// The string is marked UTF-8 by a pair `:E => true`; `syms` is the symbol
    /// table of the tree the string belongs to (a pair's symbol counts when it is
    /// the library's own E symbol or a symbol spelled `E`).
    pub fn is_e_true(&self, syms: &[Sym]) -> (r: bool)
        ensures
            r == marked_utf8(self.enc, syms@),
    {
        match &self.enc {
            Enc::Ivar { pairs } => {
                let mut i: usize = 0;
                while i < pairs.len()
                    invariant
                        self.enc == (Enc::Ivar { pairs: *pairs }),
                        i <= pairs@.len(),
                        forall|j: int| 0 <= j < i ==> !#[trigger] e_true_pair(pairs@[j], syms@),
                    decreases pairs@.len() - i,
                {
                    let (s, v) = pairs[i];
                    let is_e = s == E_SYM || ((s as usize) < syms.len() && syms[s as usize].bytes.len() == 1
                        && syms[s as usize].bytes[0] == 69);
                    proof {
                        if (s as usize) < syms.len() && syms@[s as int].bytes@.len() == 1 && syms@[s as int].bytes@[0] == 69 {
                            assert(syms@[s as int].bytes@ =~= seq![69u8]);
                        }
                    }
                    assert(is_e == is_e_sym(s, syms@));
                    if is_e && v == TRUE_NODE {
                        assert(pairs@[i as int] == (s, v));
                        proof {
                            crate::util::lemma_first_index_at(pairs@, |p: (u32, u32)| e_true_pair(p, syms@), i as int);
                        }
                        return true;
                    }
                    i = i + 1;
                }
                proof {
                    crate::util::lemma_first_index_none(pairs@, |p: (u32, u32)| e_true_pair(p, syms@));
                }
                false
            },
            Enc::Plain => false,
        }
    }

    /// Display text of the string (invalid UTF-8 replaced).
    pub fn display(&self) -> (r: String)
        ensures
            r@ == crate::text::utf8_lossy(self.bytes@),
    {
        crate::text::lossy_utf8(self.bytes.as_slice())
    }
}

/// A float as the bytes it was stored with (kept verbatim for round trips).
#[derive(Debug, Clone, PartialEq, Eq)]
pub struct FloatData {
    pub raw: Vec<u8>,
}

/// One node of the tree, by Marshal type code.
#[derive(Debug, Clone)]
pub enum Kind {
    Nil,
    True,
    False,
    Fixnum(i64),
    /// `l`: sign and little-endian 16-bit words.
    Bignum { sign: bool, words: Vec<u16> },
    /// `f`
    Float(FloatData),
    /// `"` (possibly inside an `I` wrapper)
    Str(StrData),
    /// `:` / `;`
    Sym(u32),
    /// `/`
    Regexp { src: StrData, options: u8 },
    /// `[`
    Array(Vec<u32>),
    /// `{` / `}`
    Hash { pairs: Vec<(u32, u32)>, default: Option<u32> },
    /// `o`
    Object { class: u32, ivars: Vec<(u32, u32)> },
    /// `S`
    Struct { class: u32, members: Vec<(u32, u32)> },
    /// `c`
    Class(Vec<u8>),
    /// `m` / `M`
    Module { name: Vec<u8>, old: bool },
    /// `e` (module extensions, transparent wrapper)
    Extended { mods: Vec<u32>, inner: u32 },
    /// `C` (user subclass wrapper, transparent)
    UClass { cls: u32, inner: u32 },
    /// generic `I` wrapper around a value that is not a string
    Ival { inner: u32, pairs: Vec<(u32, u32)> },
    /// `u`
    UserDef { class: u32, payload: StrData },
    /// `U`
    UserMarshal { class: u32, inner: u32 },
    /// `d`
    Data { class: u32, inner: u32 },
}

/// An arena slot.
#[derive(Debug, Clone)]
pub struct Node {
    pub kind: Kind,
}

/// Reasons a Marshal stream is refused.
#[derive(Debug)]
pub enum Error {
    UnexpectedEof,
    BadFormat(&'static str),
    BadLink(u32),
    BadSymlink(u32),
    NotMarshal,
}

/// The mathematical content of a tree.
#[verifier::ext_equal]
pub ghost struct TreeModel {
    pub nodes: Seq<Kind>,
    pub syms: Seq<Sym>,
    pub root: u32,
}

/// The index stands for `nil`, `true` or `false` rather than an arena slot.
pub open spec fn is_sentinel(i: u32) -> bool {
    i == NIL_NODE || i == TRUE_NODE || i == FALSE_NODE
}

/// A value reference that is a sentinel or a slot below `bound`.
pub open spec fn ref_ok(i: u32, bound: nat) -> bool {
    is_sentinel(i) || (i as nat) < bound
}

pub open spec fn refs_below(s: Seq<u32>, bound: nat) -> bool {
    forall|j: int| 0 <= j < s.len() ==> ref_ok(#[trigger] s[j], bound)
}

/// Both components of each pair are value references.
pub open spec fn pairs_below(s: Seq<(u32, u32)>, bound: nat) -> bool {
    forall|j: int| 0 <= j < s.len() ==> ref_ok((#[trigger] s[j]).0, bound) && ref_ok(s[j].1, bound)
}

/// Each pair is (symbol in the table, value reference).
pub open spec fn sym_pairs_ok(s: Seq<(u32, u32)>, bound: nat, nsyms: nat) -> bool {
    forall|j: int|
        0 <= j < s.len() ==> ((#[trigger] s[j]).0 as nat) < nsyms && ref_ok(s[j].1, bound)
}

/// Each pair is (symbol in the table or the `:E` marker, value reference).
pub open spec fn enc_pairs_ok(s: Seq<(u32, u32)>, bound: nat, nsyms: nat) -> bool {
    forall|j: int|
        0 <= j < s.len() ==> (((#[trigger] s[j]).0 as nat) < nsyms || s[j].0 == E_SYM) && ref_ok(
            s[j].1,
            bound,
        )
}

pub open spec fn enc_ok(e: Enc, bound: nat, nsyms: nat) -> bool {
    match e {
        Enc::Plain => true,
        Enc::Ivar { pairs } => enc_pairs_ok(pairs@, bound, nsyms),
    }
}

pub open spec fn syms_below(s: Seq<u32>, nsyms: nat) -> bool {
    forall|j: int| 0 <= j < s.len() ==> ((#[trigger] s[j]) as nat) < nsyms
}

/// Every reference held by a node: values below `bound`, symbols in a table of `nsyms`.
pub open spec fn kind_ok(k: Kind, bound: nat, nsyms: nat) -> bool {
    match k {
        Kind::Str(s) => enc_ok(s.enc, bound, nsyms),
        Kind::Sym(s) => (s as nat) < nsyms,
        Kind::Regexp { src, .. } => enc_ok(src.enc, bound, nsyms),
        Kind::Array(items) => refs_below(items@, bound),
        Kind::Hash { pairs, default } => pairs_below(pairs@, bound) && match default {
            Some(d) => ref_ok(d, bound),
            None => true,
        },
        Kind::Object { class, ivars } => (class as nat) < nsyms && sym_pairs_ok(
            ivars@,
            bound,
            nsyms,
        ),
        Kind::Struct { class, members } => (class as nat) < nsyms && sym_pairs_ok(
            members@,
            bound,
            nsyms,
        ),
        Kind::Extended { mods, inner } => syms_below(mods@, nsyms) && ref_ok(inner, bound),
        Kind::UClass { cls, inner } => (cls as nat) < nsyms && ref_ok(inner, bound),
        Kind::Ival { inner, pairs } => ref_ok(inner, bound) && enc_pairs_ok(pairs@, bound, nsyms),
        Kind::UserDef { class, payload } => (class as nat) < nsyms && enc_ok(
            payload.enc,
            bound,
            nsyms,
        ),
        Kind::UserMarshal { class, inner } => (class as nat) < nsyms && ref_ok(inner, bound),
        Kind::Data { class, inner } => (class as nat) < nsyms && ref_ok(inner, bound),
        _ => true,
    }
}

/// Node kinds that are written without entering the object table, so that
/// a reference back to them could not be written as a link.
pub open spec fn is_wrapper(k: Kind) -> bool {
    k is Extended || k is UClass || k is Ival
}

impl TreeModel {
    /// Node `i` is a slot whose references all resolve.
    pub open spec fn node_ok(self, i: u32) -> bool {
        (i as nat) < self.nodes.len() && kind_ok(
            self.nodes[i as int],
            self.nodes.len(),
            self.syms.len(),
        )
    }

    /// Every reference in the tree resolves.
    pub open spec fn refs_ok(self) -> bool {
        &&& forall|i: int|
            0 <= i < self.nodes.len() ==> kind_ok(
                #[trigger] self.nodes[i],
                self.nodes.len(),
                self.syms.len(),
            )
        &&& ref_ok(self.root, self.nodes.len())
        &&& self.nodes.len() <= NIL_NODE
    }

    /// The tree can be written: references resolve, transparent wrappers only
    /// refer to earlier slots, and symbols carry no encoding ivars.
    pub open spec fn wf(self) -> bool {
        &&& self.refs_ok()
        &&& forall|i: int|
            0 <= i < self.nodes.len() && is_wrapper(#[trigger] self.nodes[i]) ==> kind_ok(
                self.nodes[i],
                i as nat,
                self.syms.len(),
            )
        &&& forall|i: int| 0 <= i < self.syms.len() ==> (#[trigger] self.syms[i]).enc is Plain
    }
}

/// Raising the bound on value references keeps a node's references valid.
pub proof fn lemma_kind_ok_mono(k: Kind, b1: nat, b2: nat, nsyms: nat)
    requires
        kind_ok(k, b1, nsyms),
        b1 <= b2,
    ensures
        kind_ok(k, b2, nsyms),
{
}

/// Raising the bounds keeps a tree's references valid: the tree after
/// appending nodes that only refer below the new length.
pub proof fn lemma_refs_ok_push(m: TreeModel, k: Kind)
    requires
        m.refs_ok(),
        m.nodes.len() < NIL_NODE,
        kind_ok(k, m.nodes.len(), m.syms.len()),
    ensures
        (TreeModel { nodes: m.nodes.push(k), ..m }).refs_ok(),
        m.wf() ==> (TreeModel { nodes: m.nodes.push(k), ..m }).wf(),
{
    let m2 = TreeModel { nodes: m.nodes.push(k), ..m };
    assert forall|i: int| 0 <= i < m2.nodes.len() implies kind_ok(
        #[trigger] m2.nodes[i],
        m2.nodes.len(),
        m2.syms.len(),
    ) by {
        if i < m.nodes.len() {
            lemma_kind_ok_mono(m.nodes[i], m.nodes.len(), m2.nodes.len(), m.syms.len());
        } else {
            lemma_kind_ok_mono(k, m.nodes.len(), m2.nodes.len(), m.syms.len());
        }
    }
}

/// Raising the size of the symbol table keeps a node's references valid.
pub proof fn lemma_kind_ok_syms_mono(k: Kind, bound: nat, s1: nat, s2: nat)
    requires
        kind_ok(k, bound, s1),
        s1 <= s2,
    ensures
        kind_ok(k, bound, s2),
{
}

/// Replacing one node by a kind whose references resolve keeps the tree's
/// references valid, and keeps it well formed unless the kind is a wrapper.
pub proof fn lemma_refs_ok_replace(m: TreeModel, idx: int, k: Kind)
    requires
        m.refs_ok(),
        0 <= idx < m.nodes.len(),
        kind_ok(k, m.nodes.len(), m.syms.len()),
    ensures
        (TreeModel { nodes: m.nodes.update(idx, k), ..m }).refs_ok(),
        m.wf() && (is_wrapper(k) ==> kind_ok(k, idx as nat, m.syms.len())) ==> (TreeModel {
            nodes: m.nodes.update(idx, k),
            ..m
        }).wf(),
{
    let m2 = TreeModel { nodes: m.nodes.update(idx, k), ..m };
    assert forall|i: int| 0 <= i < m2.nodes.len() implies kind_ok(
        #[trigger] m2.nodes[i],
        m2.nodes.len(),
        m2.syms.len(),
    ) by {
        if i != idx {
            assert(kind_ok(m.nodes[i], m.nodes.len(), m.syms.len()));
        }
    }
    if m.wf() && (is_wrapper(k) ==> kind_ok(k, idx as nat, m.syms.len())) {
        assert forall|i: int|
            0 <= i < m2.nodes.len() && is_wrapper(#[trigger] m2.nodes[i]) implies kind_ok(
            m2.nodes[i],
            i as nat,
            m2.syms.len(),
        ) by {
            if i != idx {
                assert(is_wrapper(m.nodes[i]));
            }
        }
    }
}

/// Appending a symbol without encoding ivars keeps references valid and the tree well formed.
pub proof fn lemma_push_sym(m: TreeModel, s: Sym)
    requires
        s.enc is Plain,
    ensures
        m.refs_ok() ==> (TreeModel { syms: m.syms.push(s), ..m }).refs_ok(),
        m.wf() ==> (TreeModel { syms: m.syms.push(s), ..m }).wf(),
{
    let m2 = TreeModel { syms: m.syms.push(s), ..m };
    if m.refs_ok() {
        assert forall|k: int| 0 <= k < m2.nodes.len() implies kind_ok(
            #[trigger] m2.nodes[k],
            m2.nodes.len(),
            m2.syms.len(),
        ) by {
            lemma_kind_ok_syms_mono(m.nodes[k], m.nodes.len(), m.syms.len(), m2.syms.len());
        }
    }
    if m.wf() {
        assert forall|k: int|
            0 <= k < m2.nodes.len() && is_wrapper(#[trigger] m2.nodes[k]) implies kind_ok(
            m2.nodes[k],
            k as nat,
            m2.syms.len(),
        ) by {
            lemma_kind_ok_syms_mono(m.nodes[k], k as nat, m.syms.len(), m2.syms.len());
        }
        assert forall|i: int| 0 <= i < m2.syms.len() implies (#[trigger] m2.syms[i]).enc is Plain by {
            if i < m.syms.len() {
                assert(m2.syms[i] == m.syms[i]);
            }
        }
    }
}

} // verus!
