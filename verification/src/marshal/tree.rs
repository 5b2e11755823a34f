//! The value tree and its reading and editing operations.
use vstd::prelude::*;
use crate::marshal::model::{
    Enc, Kind, Node, StrData, Sym, TreeModel, E_SYM, FALSE_NODE, NIL_NODE, TRUE_NODE, is_sentinel, ref_ok,
};
use crate::text::{lossy_utf8, utf8_lossy};
use vstd::string::StringSliceAdditionalSpecFns;
use crate::util::{
    bytes_eq, first_index, is_first, lemma_first_index_at, lemma_first_index_none, lemma_first_index_some,
};
use crate::marshal::model::{is_wrapper, kind_ok, lemma_refs_ok_push, lemma_refs_ok_replace, sym_pairs_ok};

verus! {

/// The whole tree, held in an arena.
#[derive(Debug, Clone)]
pub struct Tree {
    pub(crate) nodes: Vec<Node>,
    pub(crate) syms: Vec<Sym>,
    pub(crate) root: u32,
}

impl View for Tree {
    type V = TreeModel;

    closed spec fn view(&self) -> TreeModel {
        TreeModel {
            nodes: self.nodes@.map_values(|n: Node| n.kind),
            syms: self.syms@,
            root: self.root,
        }
    }
}


/// The key under which an instance variable named `name` is stored:
/// `name` itself if it starts with `@`, else `@` followed by `name`.
pub open spec fn ivar_key(name: Seq<u8>) -> Seq<u8> {
    if name.len() > 0 && name[0] == 64u8 {
        name
    } else {
        seq![64u8] + name
    }
}

/// A (symbol, value) pair whose symbol is spelled `key`.
pub open spec fn named_pair(m: TreeModel, key: Seq<u8>) -> spec_fn((u32, u32)) -> bool {
    |p: (u32, u32)| (p.0 as nat) < m.syms.len() && m.syms[p.0 as int].bytes@ == key
}

/// A (key, value) pair whose key node is the integer `key`.
pub open spec fn int_keyed_pair(m: TreeModel, key: i64) -> spec_fn((u32, u32)) -> bool {
    |p: (u32, u32)| (p.0 as nat) < m.nodes.len() && m.nodes[p.0 as int] == Kind::Fixnum(key)
}

/// The value stored under the first pair whose symbol is spelled `key`.
pub open spec fn lookup_named(m: TreeModel, pairs: Seq<(u32, u32)>, key: Seq<u8>) -> Option<u32> {
    match first_index(pairs, named_pair(m, key)) {
        Some(j) => Some(pairs[j].1),
        None => None,
    }
}

/// The value of instance variable `name` of node `idx`, if it is an object that has one.
pub open spec fn ivar_of(m: TreeModel, idx: u32, name: Seq<u8>) -> Option<u32> {
    match m.nodes[idx as int] {
        Kind::Object { ivars, .. } => lookup_named(m, ivars@, ivar_key(name)),
        _ => None,
    }
}

/// The value under the first pair of hash `idx` whose key is the integer `key`.
pub open spec fn hash_int_of(m: TreeModel, idx: u32, key: i64) -> Option<u32> {
    match m.nodes[idx as int] {
        Kind::Hash { pairs, .. } => match first_index(pairs@, int_keyed_pair(m, key)) {
            Some(j) => Some(pairs@[j].1),
            None => None,
        },
        _ => None,
    }
}

/// Unsigned value of at most four little-endian 16-bit words.
pub open spec fn words_u64(w: Seq<u16>) -> int {
    (if w.len() > 0 { w[0] as int } else { 0 }) + (if w.len() > 1 { w[1] as int * 0x10000 } else { 0 })
        + (if w.len() > 2 { w[2] as int * 0x1_0000_0000 } else { 0 }) + (if w.len() > 3 {
        w[3] as int * 0x1_0000_0000_0000
    } else {
        0
    })
}

/// Integer value of node `idx`: a Fixnum, or a Bignum of at most four words read as
/// a 64-bit two's-complement integer and negated (wrapping) when its sign is `-`.
pub open spec fn fixnum_of(m: TreeModel, idx: u32) -> Option<i64> {
    if is_sentinel(idx) {
        None
    } else {
        match m.nodes[idx as int] {
            Kind::Fixnum(v) => Some(v),
            Kind::Bignum { sign, words } => if words@.len() > 4 {
                None
            } else {
                let v = words_u64(words@) as u64 as i64;
                Some(if sign { v } else { vstd::wrapping::i64_specs::wrapping_sub(0, v) })
            },
            _ => None,
        }
    }
}

/// Truth value of node `idx`, for sentinels and `true`/`false` nodes.
pub open spec fn bool_of(m: TreeModel, idx: u32) -> Option<bool> {
    if idx == TRUE_NODE {
        Some(true)
    } else if idx == FALSE_NODE {
        Some(false)
    } else if idx == NIL_NODE {
        None
    } else {
        match m.nodes[idx as int] {
            Kind::True => Some(true),
            Kind::False => Some(false),
            _ => None,
        }
    }
}

/// Display text of node `idx` when it is a string node.
pub open spec fn string_of(m: TreeModel, idx: u32) -> Option<Seq<char>> {
    if is_sentinel(idx) {
        None
    } else {
        match m.nodes[idx as int] {
            Kind::Str(s) => Some(utf8_lossy(s.bytes@)),
            _ => None,
        }
    }
}

/// Display text of an optional node: empty unless it is a string node.
pub open spec fn text_or_empty(m: TreeModel, r: Option<u32>) -> Seq<char> {
    match r {
        Some(n) => match string_of(m, n) {
            Some(t) => t,
            None => Seq::empty(),
        },
        None => Seq::empty(),
    }
}

/// `idx` is a sentinel or a slot of the arena.
pub open spec fn valid_ref(m: TreeModel, idx: u32) -> bool {
    ref_ok(idx, m.nodes.len())
}

/// The model with one node replaced.
pub open spec fn with_node(m: TreeModel, idx: u32, k: Kind) -> TreeModel {
    TreeModel { nodes: m.nodes.update(idx as int, k), syms: m.syms, root: m.root }
}

/// The model with one node appended.
pub open spec fn with_pushed(m: TreeModel, k: Kind) -> TreeModel {
    TreeModel { nodes: m.nodes.push(k), syms: m.syms, root: m.root }
}

/// A UTF-8 string node value (encoding ivar `:E => true`).
pub open spec fn utf8_str(bytes: Seq<u8>, e: Enc) -> bool {
    e matches Enc::Ivar { pairs } && pairs@ == seq![(E_SYM, TRUE_NODE)]
}

impl Tree {
    /// Builds a tree from its parts.
    pub(crate) fn from_parts(nodes: Vec<Node>, syms: Vec<Sym>, root: u32) -> (t: Tree)
        ensures
            t@.nodes == nodes@.map_values(|n: Node| n.kind),
            t@.syms == syms@,
            t@.root == root,
    {
        Tree { nodes, syms, root }
    }

    /// A new empty tree whose root is `nil`.
    pub fn new() -> (t: Tree)
        ensures
            t@.nodes.len() == 0,
            t@.syms.len() == 0,
            t@.root == NIL_NODE,
    {
        let t = Tree { nodes: Vec::new(), syms: Vec::new(), root: NIL_NODE };
        assert(t@.nodes =~= Seq::<Kind>::empty());
        t
    }

    pub fn root(&self) -> (r: u32)
        ensures
            r == self@.root,
    {
        self.root
    }

    pub fn node(&self, idx: u32) -> (r: &Node)
        requires
            (idx as nat) < self@.nodes.len(),
        ensures
            r.kind == self@.nodes[idx as int],
    {
        &self.nodes[idx as usize]
    }

    pub fn node_mut(&mut self, idx: u32) -> (r: &mut Node)
        requires
            (idx as nat) < old(self)@.nodes.len(),
        ensures
            r.kind == old(self)@.nodes[idx as int],
            final(self)@ =~= with_node(old(self)@, idx, final(r).kind),
    {
        &mut self.nodes[idx as usize]
    }

    pub fn kind(&self, idx: u32) -> (r: &Kind)
        requires
            (idx as nat) < self@.nodes.len(),
        ensures
            *r == self@.nodes[idx as int],
    {
        &self.nodes[idx as usize].kind
    }

    pub fn node_count(&self) -> (r: usize)
        ensures
            r == self@.nodes.len(),
    {
        self.nodes.len()
    }

    pub fn sym_count(&self) -> (r: usize)
        ensures
            r == self@.syms.len(),
    {
        self.syms.len()
    }

    /// The symbol table.
    pub fn symbols(&self) -> (r: &[Sym])
        ensures
            r@ == self@.syms,
    {
        self.syms.as_slice()
    }

    pub fn sym(&self, idx: u32) -> (r: &Sym)
        requires
            (idx as nat) < self@.syms.len(),
        ensures
            *r == self@.syms[idx as int],
    {
        &self.syms[idx as usize]
    }

    pub fn sym_bytes(&self, idx: u32) -> (r: &[u8])
        requires
            (idx as nat) < self@.syms.len(),
        ensures
            r@ == self@.syms[idx as int].bytes@,
    {
        self.syms[idx as usize].bytes.as_slice()
    }

    /// Display text of a symbol (invalid UTF-8 replaced).
    pub fn sym_display(&self, idx: u32) -> (r: String)
        requires
            (idx as nat) < self@.syms.len(),
        ensures
            r@ == utf8_lossy(self@.syms[idx as int].bytes@),
    {
        lossy_utf8(self.syms[idx as usize].bytes.as_slice())
    }

    pub fn set_root(&mut self, root: u32)
        ensures
            final(self)@ == (TreeModel { root, ..old(self)@ }),
    {
        self.root = root;
    }
}

impl Tree {
    pub fn kind_mut(&mut self, idx: u32) -> (r: &mut Kind)
        requires
            (idx as nat) < old(self)@.nodes.len(),
        ensures
            *r == old(self)@.nodes[idx as int],
            final(self)@ =~= with_node(old(self)@, idx, *final(r)),
    {
        &mut self.nodes[idx as usize].kind
    }

    /// Appends a node to the arena and returns its index.
    pub fn alloc_node(&mut self, kind: Kind) -> (r: u32)
        requires
            old(self)@.nodes.len() < NIL_NODE,
        ensures
            r == old(self)@.nodes.len(),
            final(self)@ =~= with_pushed(old(self)@, kind),
            old(self)@.refs_ok() && kind_ok(kind, old(self)@.nodes.len(), old(self)@.syms.len())
                ==> final(self)@.refs_ok(),
            old(self)@.wf() && kind_ok(kind, old(self)@.nodes.len(), old(self)@.syms.len())
                ==> final(self)@.wf(),
    {
        let ghost m = self@;
        proof {
            if m.refs_ok() && kind_ok(kind, m.nodes.len(), m.syms.len()) {
                lemma_refs_ok_push(m, kind);
            }
        }
        let idx = self.nodes.len() as u32;
        self.nodes.push(Node { kind });
        assert(self@ =~= with_pushed(m, kind));
        idx
    }

    /// Index of the symbol spelled `bytes`, added to the table if absent
    /// (an existing symbol is reused so that `;` links stay correct).
    pub fn alloc_sym(&mut self, bytes: Vec<u8>) -> (r: u32)
        requires
            old(self)@.syms.len() < E_SYM,
        ensures
            match first_index(old(self)@.syms, spelled(bytes@)) {
                Some(j) => r == j && final(self)@ == old(self)@,
                None => r == old(self)@.syms.len() && final(self)@ =~= (TreeModel {
                    syms: old(self)@.syms.push(Sym { bytes, enc: Enc::Plain }),
                    ..old(self)@
                }),
            },
            old(self)@.refs_ok() ==> final(self)@.refs_ok(),
            old(self)@.wf() ==> final(self)@.wf(),
    {
        let mut i: usize = 0;
        while i < self.syms.len()
            invariant
                i <= self@.syms.len(),
                self@.syms.len() < E_SYM,
                self@ == old(self)@,
                forall|k: int| 0 <= k < i ==> !spelled(bytes@)(#[trigger] self@.syms[k]),
            decreases self@.syms.len() - i,
        {
            if bytes_eq(self.syms[i].bytes.as_slice(), bytes.as_slice()) {
                proof {
                    lemma_first_index_at(self@.syms, spelled(bytes@), i as int);
                }
                return i as u32;
            }
            i = i + 1;
        }
        proof {
            lemma_first_index_none(self@.syms, spelled(bytes@));
        }
        let idx = self.syms.len() as u32;
        let ghost m = self@;
        self.syms.push(Sym { bytes, enc: Enc::Plain });
        proof {
            let m2 = self@;
            assert(m2 =~= (TreeModel { syms: m.syms.push(Sym { bytes, enc: Enc::Plain }), ..m }));
            if m.refs_ok() {
                assert forall|k: int| 0 <= k < m2.nodes.len() implies kind_ok(
                    #[trigger] m2.nodes[k],
                    m2.nodes.len(),
                    m2.syms.len(),
                ) by {
                    crate::marshal::model::lemma_kind_ok_syms_mono(m.nodes[k], m.nodes.len(), m.syms.len(), m2.syms.len());
                }
            }
            if m.wf() {
                assert forall|k: int| 0 <= k < m2.nodes.len() && crate::marshal::model::is_wrapper(#[trigger] m2.nodes[k]) implies kind_ok(
                    m2.nodes[k],
                    k as nat,
                    m2.syms.len(),
                ) by {
                    crate::marshal::model::lemma_kind_ok_syms_mono(m.nodes[k], k as nat, m.syms.len(), m2.syms.len());
                }
            }
        }
        idx
    }

    /// Class name of an object or struct node.
    pub fn class_of(&self, idx: u32) -> (r: Option<String>)
        requires
            self@.node_ok(idx),
        ensures
            match self@.nodes[idx as int] {
                Kind::Object { class, .. } => r matches Some(s) && s@ == utf8_lossy(self@.syms[class as int].bytes@),
                Kind::Struct { class, .. } => r matches Some(s) && s@ == utf8_lossy(self@.syms[class as int].bytes@),
                _ => r is None,
            },
    {
        match self.kind(idx) {
            Kind::Object { class, .. } => Some(self.sym_display(*class)),
            Kind::Struct { class, .. } => Some(self.sym_display(*class)),
            _ => None,
        }
    }

    /// Whether node `idx` is an object of the class spelled `class`.
    pub fn is_object_of(&self, idx: u32, class: &str) -> (r: bool)
        requires
            self@.node_ok(idx),
        ensures
            r == (self@.nodes[idx as int] matches Kind::Object { class: c, .. }
                && self@.syms[c as int].bytes@ == class.spec_bytes()),
    {
        match self.kind(idx) {
            Kind::Object { class: c, .. } => bytes_eq(self.sym_bytes(*c), class.as_bytes()),
            _ => false,
        }
    }

    /// Position of the first pair whose symbol is spelled `key`.
    fn find_named(&self, pairs: &Vec<(u32, u32)>, key: &[u8]) -> (r: Option<usize>)
        requires
            forall|j: int| 0 <= j < pairs@.len() ==> ((#[trigger] pairs@[j]).0 as nat) < self@.syms.len(),
        ensures
            r matches Some(j) ==> first_index(pairs@, named_pair(self@, key@)) == Some(j as int),
            r is None ==> first_index(pairs@, named_pair(self@, key@)) is None,
    {
        let mut j: usize = 0;
        while j < pairs.len()
            invariant
                j <= pairs@.len(),
                forall|i: int| 0 <= i < pairs@.len() ==> ((#[trigger] pairs@[i]).0 as nat) < self@.syms.len(),
                forall|k: int| 0 <= k < j ==> !named_pair(self@, key@)(#[trigger] pairs@[k]),
            decreases pairs@.len() - j,
        {
            let (k, _) = pairs[j];
            if bytes_eq(self.sym_bytes(k), key) {
                proof {
                    lemma_first_index_at(pairs@, named_pair(self@, key@), j as int);
                }
                return Some(j);
            }
            j = j + 1;
        }
        proof {
            lemma_first_index_none(pairs@, named_pair(self@, key@));
        }
        None
    }

    /// Instance-variable value of object `idx` by name (the `@` prefix is optional).
    pub fn ivar(&self, idx: u32, name: &str) -> (r: Option<u32>)
        requires
            self@.node_ok(idx),
        ensures
            r == ivar_of(self@, idx, name.spec_bytes()),
    {
        let key = ivar_key_bytes(name);
        match self.kind(idx) {
            Kind::Object { ivars, .. } => {
                match self.find_named(ivars, key.as_slice()) {
                    Some(j) => Some(ivars[j].1),
                    None => None,
                }
            },
            _ => None,
        }
    }

    /// Names of the instance variables of object `idx`, in stored order.
    pub fn ivar_names(&self, idx: u32) -> (r: Vec<String>)
        requires
            self@.node_ok(idx),
        ensures
            match self@.nodes[idx as int] {
                Kind::Object { ivars, .. } => r@.len() == ivars@.len() && forall|j: int|
                    0 <= j < r@.len() ==> (#[trigger] r@[j])@ == utf8_lossy(self@.syms[ivars@[j].0 as int].bytes@),
                _ => r@.len() == 0,
            },
    {
        let mut out: Vec<String> = Vec::new();
        match self.kind(idx) {
            Kind::Object { ivars, .. } => {
                let mut j: usize = 0;
                while j < ivars.len()
                    invariant
                        self@.node_ok(idx),
                        self@.nodes[idx as int] matches Kind::Object { ivars: iv, .. } && iv@ == ivars@,
                        j <= ivars@.len(),
                        out@.len() == j,
                        forall|i: int| 0 <= i < j ==> (#[trigger] out@[i])@ == utf8_lossy(self@.syms[ivars@[i].0 as int].bytes@),
                    decreases ivars@.len() - j,
                {
                    let s = self.sym_display(ivars[j].0);
                    out.push(s);
                    j = j + 1;
                }
            },
            _ => {},
        }
        out
    }

    /// Integer value of a node (sentinels give `None`).
    pub fn as_fixnum(&self, idx: u32) -> (r: Option<i64>)
        requires
            valid_ref(self@, idx),
        ensures
            r == fixnum_of(self@, idx),
    {
        if idx == NIL_NODE || idx == TRUE_NODE || idx == FALSE_NODE {
            return None;
        }
        match self.kind(idx) {
            Kind::Fixnum(v) => Some(*v),
            Kind::Bignum { sign, words } => {
                let n = words.len();
                if n > 4 {
                    return None;
                }
                let mut v: u64 = 0;
                if n > 0 {
                    v = words[0] as u64;
                }
                if n > 1 {
                    v = v + (words[1] as u64) * 0x10000;
                }
                if n > 2 {
                    v = v + (words[2] as u64) * 0x1_0000_0000;
                }
                if n > 3 {
                    v = v + (words[3] as u64) * 0x1_0000_0000_0000;
                }
                let x = v as i64;
                Some(if *sign { x } else { 0i64.wrapping_sub(x) })
            },
            _ => None,
        }
    }

    /// Truth value of a node (sentinel-safe).
    pub fn as_bool(&self, idx: u32) -> (r: Option<bool>)
        requires
            valid_ref(self@, idx),
        ensures
            r == bool_of(self@, idx),
    {
        if idx == TRUE_NODE {
            return Some(true);
        }
        if idx == FALSE_NODE {
            return Some(false);
        }
        if idx == NIL_NODE {
            return None;
        }
        match self.kind(idx) {
            Kind::True => Some(true),
            Kind::False => Some(false),
            _ => None,
        }
    }

    /// Display text of a string node (sentinel-safe).
    pub fn as_string(&self, idx: u32) -> (r: Option<String>)
        requires
            valid_ref(self@, idx),
        ensures
            match string_of(self@, idx) {
                Some(t) => r matches Some(s) && s@ == t,
                None => r is None,
            },
    {
        if idx == NIL_NODE || idx == TRUE_NODE || idx == FALSE_NODE {
            return None;
        }
        match self.kind(idx) {
            Kind::Str(s) => Some(lossy_utf8(s.bytes.as_slice())),
            _ => None,
        }
    }

    /// Items of an array node.
    pub fn array_items(&self, idx: u32) -> (r: Option<&[u32]>)
        requires
            (idx as nat) < self@.nodes.len(),
        ensures
            match self@.nodes[idx as int] {
                Kind::Array(items) => r matches Some(s) && s@ == items@,
                _ => r is None,
            },
    {
        match self.kind(idx) {
            Kind::Array(items) => Some(items.as_slice()),
            _ => None,
        }
    }

    /// Pairs of a hash node.
    pub fn hash_pairs(&self, idx: u32) -> (r: Option<&[(u32, u32)]>)
        requires
            (idx as nat) < self@.nodes.len(),
        ensures
            match self@.nodes[idx as int] {
                Kind::Hash { pairs, .. } => r matches Some(s) && s@ == pairs@,
                _ => r is None,
            },
    {
        match self.kind(idx) {
            Kind::Hash { pairs, .. } => Some(pairs.as_slice()),
            _ => None,
        }
    }

    /// Value under the first integer key `key` of hash `idx`.
    pub fn hash_get_int(&self, idx: u32, key: i64) -> (r: Option<u32>)
        requires
            self@.node_ok(idx),
            hash_keys_slots(self@, idx),
        ensures
            r == hash_int_of(self@, idx, key),
    {
        match self.kind(idx) {
            Kind::Hash { pairs, .. } => {
                match self.find_int_key(pairs, key) {
                    Some(j) => Some(pairs[j].1),
                    None => None,
                }
            },
            _ => None,
        }
    }

    /// Position of the first pair whose key node is the integer `key`.
    pub(crate) fn find_int_key(&self, pairs: &Vec<(u32, u32)>, key: i64) -> (r: Option<usize>)
        requires
            forall|j: int| 0 <= j < pairs@.len() ==> ((#[trigger] pairs@[j]).0 as nat) < self@.nodes.len(),
        ensures
            r matches Some(j) ==> first_index(pairs@, int_keyed_pair(self@, key)) == Some(j as int) && j < pairs@.len(),
            r is None ==> first_index(pairs@, int_keyed_pair(self@, key)) is None,
    {
        let mut j: usize = 0;
        while j < pairs.len()
            invariant
                j <= pairs@.len(),
                forall|i: int| 0 <= i < pairs@.len() ==> ((#[trigger] pairs@[i]).0 as nat) < self@.nodes.len(),
                forall|k: int| 0 <= k < j ==> !int_keyed_pair(self@, key)(#[trigger] pairs@[k]),
            decreases pairs@.len() - j,
        {
            let (k, _) = pairs[j];
            let hit = match self.kind(k) {
                Kind::Fixnum(f) => *f == key,
                _ => false,
            };
            if hit {
                proof {
                    lemma_first_index_at(pairs@, int_keyed_pair(self@, key), j as int);
                }
                return Some(j);
            }
            j = j + 1;
        }
        proof {
            lemma_first_index_none(pairs@, int_keyed_pair(self@, key));
        }
        None
    }
}

/// `@name` unless `name` already starts with `@`.
fn ivar_key_bytes(name: &str) -> (r: Vec<u8>)
    ensures
        r@ == ivar_key(name.spec_bytes()),
{
    let b = name.as_bytes();
    if b.len() > 0 && b[0] == 64u8 {
        vstd::slice::slice_to_vec(b)
    } else {
        let mut k: Vec<u8> = Vec::new();
        k.push(64u8);
        crate::util::append_bytes(&mut k, b);
        k
    }
}

/// Symbol spelled `key`.
pub open spec fn spelled(key: Seq<u8>) -> spec_fn(Sym) -> bool {
    |s: Sym| s.bytes@ == key
}

/// The keys of hash `idx` are arena slots (no sentinel keys).
pub open spec fn hash_keys_slots(m: TreeModel, idx: u32) -> bool {
    match m.nodes[idx as int] {
        Kind::Hash { pairs, .. } => forall|j: int|
            0 <= j < pairs@.len() ==> ((#[trigger] pairs@[j]).0 as nat) < m.nodes.len(),
        _ => true,
    }
}

impl Tree {
    /// Overwrites an integer node; refuses any other node.
    pub fn set_fixnum(&mut self, idx: u32, v: i64) -> (r: bool)
        requires
            (idx as nat) < old(self)@.nodes.len(),
        ensures
            r == (old(self)@.nodes[idx as int] is Fixnum),
            r ==> final(self)@ =~= with_node(old(self)@, idx, Kind::Fixnum(v)),
            !r ==> final(self)@ == old(self)@,
            old(self)@.refs_ok() ==> final(self)@.refs_ok(),
            old(self)@.wf() ==> final(self)@.wf(),
    {
        let is_fix = match self.kind(idx) {
            Kind::Fixnum(_) => true,
            _ => false,
        };
        if !is_fix {
            return false;
        }
        self.replace_kind(idx, Kind::Fixnum(v));
        true
    }

    /// Puts `k` in slot `idx`.
    pub(crate) fn replace_kind(&mut self, idx: u32, k: Kind)
        requires
            (idx as nat) < old(self)@.nodes.len(),
        ensures
            final(self)@ =~= with_node(old(self)@, idx, k),
            old(self)@.refs_ok() && kind_ok(k, old(self)@.nodes.len(), old(self)@.syms.len())
                ==> final(self)@.refs_ok(),
            old(self)@.wf() && kind_ok(k, old(self)@.nodes.len(), old(self)@.syms.len())
                && !is_wrapper(k) ==> final(self)@.wf(),
    {
        let ghost m = self@;
        proof {
            if m.refs_ok() && kind_ok(k, m.nodes.len(), m.syms.len()) {
                lemma_refs_ok_replace(m, idx as int, k);
            }
        }
        self.nodes.set(idx as usize, Node { kind: k });
        assert(self@ =~= with_node(m, idx, k));
    }

    /// Rewrites a string node as the UTF-8 string `s` (`:E => true`); refuses other nodes.
    pub fn set_utf8_string(&mut self, idx: u32, s: &str) -> (r: bool)
        requires
            (idx as nat) < old(self)@.nodes.len(),
        ensures
            r == (old(self)@.nodes[idx as int] is Str),
            r ==> final(self)@.nodes.len() == old(self)@.nodes.len() && final(self)@.syms
                == old(self)@.syms && final(self)@.root == old(self)@.root
                && (forall|i: int| 0 <= i < old(self)@.nodes.len() && i != idx ==> final(self)@.nodes[i] == old(self)@.nodes[i])
                && (final(self)@.nodes[idx as int] matches Kind::Str(d) && d.bytes@ == s.spec_bytes()
                    && utf8_str(d.bytes@, d.enc)),
            !r ==> final(self)@ == old(self)@,
            old(self)@.refs_ok() ==> final(self)@.refs_ok(),
            old(self)@.wf() ==> final(self)@.wf(),
    {
        let is_str = match self.kind(idx) {
            Kind::Str(_) => true,
            _ => false,
        };
        if !is_str {
            return false;
        }
        let k = Kind::Str(utf8_data(s));
        self.replace_kind(idx, k);
        true
    }

    /// New UTF-8 string node (`:E => true`).
    pub fn new_string(&mut self, s: &str) -> (r: u32)
        requires
            old(self)@.nodes.len() < NIL_NODE,
        ensures
            r == old(self)@.nodes.len(),
            final(self)@.nodes.len() == old(self)@.nodes.len() + 1,
            final(self)@.syms == old(self)@.syms,
            final(self)@.root == old(self)@.root,
            forall|i: int| 0 <= i < old(self)@.nodes.len() ==> final(self)@.nodes[i] == old(self)@.nodes[i],
            final(self)@.nodes[r as int] matches Kind::Str(d) && d.bytes@ == s.spec_bytes()
                && utf8_str(d.bytes@, d.enc),
            old(self)@.refs_ok() ==> final(self)@.refs_ok(),
            old(self)@.wf() ==> final(self)@.wf(),
    {
        self.alloc_node(Kind::Str(utf8_data(s)))
    }

    /// New integer node.
    pub fn new_fixnum(&mut self, v: i64) -> (r: u32)
        requires
            old(self)@.nodes.len() < NIL_NODE,
        ensures
            r == old(self)@.nodes.len(),
            final(self)@ =~= with_pushed(old(self)@, Kind::Fixnum(v)),
            old(self)@.refs_ok() ==> final(self)@.refs_ok(),
            old(self)@.wf() ==> final(self)@.wf(),
    {
        self.alloc_node(Kind::Fixnum(v))
    }

    /// New `true` or `false` node.
    pub fn new_bool(&mut self, b: bool) -> (r: u32)
        requires
            old(self)@.nodes.len() < NIL_NODE,
        ensures
            r == old(self)@.nodes.len(),
            final(self)@ =~= with_pushed(old(self)@, if b { Kind::True } else { Kind::False }),
            old(self)@.refs_ok() ==> final(self)@.refs_ok(),
            old(self)@.wf() ==> final(self)@.wf(),
    {
        self.alloc_node(if b { Kind::True } else { Kind::False })
    }

    /// New `nil` node.
    pub fn new_nil(&mut self) -> (r: u32)
        requires
            old(self)@.nodes.len() < NIL_NODE,
        ensures
            r == old(self)@.nodes.len(),
            final(self)@ =~= with_pushed(old(self)@, Kind::Nil),
            old(self)@.refs_ok() ==> final(self)@.refs_ok(),
            old(self)@.wf() ==> final(self)@.wf(),
    {
        self.alloc_node(Kind::Nil)
    }

    /// Appends `item` to array `idx`; other nodes are left alone.
    pub fn array_push(&mut self, idx: u32, item: u32)
        requires
            (idx as nat) < old(self)@.nodes.len(),
        ensures
            match old(self)@.nodes[idx as int] {
                Kind::Array(items) => final(self)@.nodes.len() == old(self)@.nodes.len()
                    && final(self)@.syms == old(self)@.syms && final(self)@.root == old(self)@.root
                    && (forall|i: int| 0 <= i < old(self)@.nodes.len() && i != idx ==> final(self)@.nodes[i] == old(self)@.nodes[i])
                    && (final(self)@.nodes[idx as int] matches Kind::Array(it2) && it2@ == items@.push(item)),
                _ => final(self)@ == old(self)@,
            },
            old(self)@.refs_ok() && valid_ref(old(self)@, item) ==> final(self)@.refs_ok(),
            old(self)@.wf() && valid_ref(old(self)@, item) ==> final(self)@.wf(),
    {
        let ghost m = self@;
        if let Kind::Array(items) = self.kind(idx) {
            let mut v = items.clone();
            proof {
                assert(v@ =~= items@);
            }
            v.push(item);
            let k = Kind::Array(v);
            self.replace_kind(idx, k);
        }
    }

    /// The value slot of instance variable `name` of object `idx`, for editing.
    pub fn ivar_mut(&mut self, idx: u32, name: &str) -> (r: Option<&mut u32>)
        requires
            old(self)@.node_ok(idx),
        ensures
            match old(self)@.nodes[idx as int] {
                Kind::Object { class, ivars } => match first_index(ivars@, named_pair(old(self)@, ivar_key(name.spec_bytes()))) {
                    Some(j) => r is Some && *r.unwrap() == ivars@[j].1 && final(self)@.syms == old(self)@.syms
                        && final(self)@.root == old(self)@.root
                        && final(self)@.nodes.len() == old(self)@.nodes.len()
                        && (forall|i: int| 0 <= i < old(self)@.nodes.len() && i != idx ==> final(self)@.nodes[i] == old(self)@.nodes[i])
                        && (final(self)@.nodes[idx as int] matches Kind::Object { class: c2, ivars: iv2 } && c2 == class
                            && iv2@ == ivars@.update(j, (ivars@[j].0, *final(r.unwrap())))),
                    None => r is None && final(self)@ == old(self)@,
                },
                _ => r is None && final(self)@ == old(self)@,
            },
    {
        let key = ivar_key_bytes(name);
        let pos = match self.kind(idx) {
            Kind::Object { ivars, .. } => self.find_named(ivars, key.as_slice()),
            _ => return None,
        };
        let pos = match pos {
            Some(p) => p,
            None => return None,
        };
        let ghost m = self@;
        match &mut self.nodes[idx as usize].kind {
            Kind::Object { ivars, .. } => Some(&mut ivars[pos].1),
            _ => None,
        }
    }

    /// The items of array `idx`, for editing.
    pub fn array_items_mut(&mut self, idx: u32) -> (r: Option<&mut Vec<u32>>)
        requires
            (idx as nat) < old(self)@.nodes.len(),
        ensures
            match old(self)@.nodes[idx as int] {
                Kind::Array(items) => r is Some && *r.unwrap() == items && final(self)@ == with_node(
                    old(self)@,
                    idx,
                    Kind::Array(*final(r.unwrap())),
                ),
                _ => r is None && final(self)@ == old(self)@,
            },
    {
        match &mut self.nodes[idx as usize].kind {
            Kind::Array(items) => Some(items),
            _ => None,
        }
    }

    /// The pairs of hash `idx`, for editing.
    pub fn hash_pairs_mut(&mut self, idx: u32) -> (r: Option<&mut Vec<(u32, u32)>>)
        requires
            (idx as nat) < old(self)@.nodes.len(),
        ensures
            match old(self)@.nodes[idx as int] {
                Kind::Hash { pairs, default } => r is Some && *r.unwrap() == pairs && final(self)@ == with_node(
                    old(self)@,
                    idx,
                    Kind::Hash { pairs: *final(r.unwrap()), default },
                ),
                _ => r is None && final(self)@ == old(self)@,
            },
    {
        match &mut self.nodes[idx as usize].kind {
            Kind::Hash { pairs, .. } => Some(pairs),
            _ => None,
        }
    }

    /// Replaces item `j` of array `idx`.
    pub(crate) fn array_set(&mut self, idx: u32, j: usize, item: u32)
        requires
            (idx as nat) < old(self)@.nodes.len(),
            old(self)@.nodes[idx as int] matches Kind::Array(items) && j < items@.len(),
        ensures
            final(self)@.nodes.len() == old(self)@.nodes.len(),
            final(self)@.syms == old(self)@.syms,
            final(self)@.root == old(self)@.root,
            forall|i: int| 0 <= i < old(self)@.nodes.len() && i != idx ==> final(self)@.nodes[i] == old(self)@.nodes[i],
            final(self)@.nodes[idx as int] matches Kind::Array(it2)
                && it2@ == old(self)@.nodes[idx as int]->Array_0@.update(j as int, item),
            old(self)@.refs_ok() && valid_ref(old(self)@, item) ==> final(self)@.refs_ok(),
            old(self)@.wf() && valid_ref(old(self)@, item) ==> final(self)@.wf(),
    {
        if let Kind::Array(items) = self.kind(idx) {
            let mut v = items.clone();
            proof {
                assert(v@ =~= items@);
            }
            v.set(j, item);
            let k = Kind::Array(v);
            self.replace_kind(idx, k);
        }
    }

    /// Replaces the items of array `idx`.
    pub(crate) fn array_replace(&mut self, idx: u32, items: Vec<u32>)
        requires
            (idx as nat) < old(self)@.nodes.len(),
            old(self)@.nodes[idx as int] is Array,
        ensures
            final(self)@ =~= with_node(old(self)@, idx, Kind::Array(items)),
            old(self)@.refs_ok() && crate::marshal::model::refs_below(items@, old(self)@.nodes.len()) ==> final(self)@.refs_ok(),
            old(self)@.wf() && crate::marshal::model::refs_below(items@, old(self)@.nodes.len()) ==> final(self)@.wf(),
    {
        self.replace_kind(idx, Kind::Array(items));
    }

    /// Removes pair `j` of hash `idx`.
    pub(crate) fn hash_remove_at(&mut self, idx: u32, j: usize)
        requires
            (idx as nat) < old(self)@.nodes.len(),
            old(self)@.nodes[idx as int] matches Kind::Hash { pairs, .. } && j < pairs@.len(),
        ensures
            final(self)@.nodes.len() == old(self)@.nodes.len(),
            final(self)@.syms == old(self)@.syms,
            final(self)@.root == old(self)@.root,
            forall|i: int| 0 <= i < old(self)@.nodes.len() && i != idx ==> final(self)@.nodes[i] == old(self)@.nodes[i],
            final(self)@.nodes[idx as int] matches Kind::Hash { pairs: p2, default: d2 }
                && p2@ == old(self)@.nodes[idx as int]->Hash_pairs@.remove(j as int)
                && d2 == old(self)@.nodes[idx as int]->Hash_default,
            old(self)@.refs_ok() ==> final(self)@.refs_ok(),
            old(self)@.wf() ==> final(self)@.wf(),
    {
        if let Kind::Hash { pairs, default } = self.kind(idx) {
            let mut v = crate::util::copy_pairs(pairs);
            v.remove(j);
            let k = Kind::Hash { pairs: v, default: *default };
            self.replace_kind(idx, k);
        }
    }

    /// Appends the pair `key => value` to hash `idx`; other nodes are left alone.
    pub fn hash_insert(&mut self, idx: u32, key: u32, value: u32)
        requires
            (idx as nat) < old(self)@.nodes.len(),
        ensures
            match old(self)@.nodes[idx as int] {
                Kind::Hash { pairs, default } => final(self)@.nodes.len() == old(self)@.nodes.len()
                    && final(self)@.syms == old(self)@.syms && final(self)@.root == old(self)@.root
                    && (forall|i: int| 0 <= i < old(self)@.nodes.len() && i != idx ==> final(self)@.nodes[i] == old(self)@.nodes[i])
                    && (final(self)@.nodes[idx as int] matches Kind::Hash { pairs: p2, default: d2 }
                        && p2@ == pairs@.push((key, value)) && d2 == default),
                _ => final(self)@ == old(self)@,
            },
            old(self)@.refs_ok() && valid_ref(old(self)@, key) && valid_ref(old(self)@, value)
                ==> final(self)@.refs_ok(),
            old(self)@.wf() && valid_ref(old(self)@, key) && valid_ref(old(self)@, value)
                ==> final(self)@.wf(),
    {
        if let Kind::Hash { pairs, default } = self.kind(idx) {
            let mut v = crate::util::copy_pairs(pairs);
            v.push((key, value));
            let k = Kind::Hash { pairs: v, default: *default };
            self.replace_kind(idx, k);
        }
    }
}

/// String data of a new UTF-8 string.
fn utf8_data(s: &str) -> (d: StrData)
    ensures
        d.bytes@ == s.spec_bytes(),
        utf8_str(d.bytes@, d.enc),
{
    let mut pairs: Vec<(u32, u32)> = Vec::new();
    pairs.push((E_SYM, TRUE_NODE));
    proof {
        assert(pairs@ =~= seq![(E_SYM, TRUE_NODE)]);
    }
    StrData { bytes: vstd::slice::slice_to_vec(s.as_bytes()), enc: Enc::Ivar { pairs } }
}

/// Writing through the slot that `ivar_mut` hands out: instance variable
/// `name` of object `idx` then reads as the value written, every other
/// instance variable of the object reads as before, and the other nodes, the
/// symbols and the root are unchanged (the tree after the write is the one
/// `ivar_mut`'s contract describes, with `w` the value stored).
pub proof fn law_ivar_write_read(m: TreeModel, m2: TreeModel, idx: u32, name: Seq<u8>, w: u32)
    requires
        (idx as nat) < m.nodes.len(),
        m.nodes[idx as int] matches Kind::Object { class, ivars } && first_index(
            ivars@,
            named_pair(m, ivar_key(name)),
        ) matches Some(j) && m2.syms == m.syms && m2.root == m.root && m2.nodes.len() == m.nodes.len()
            && (forall|i: int| 0 <= i < m.nodes.len() && i != idx ==> m2.nodes[i] == m.nodes[i])
            && (m2.nodes[idx as int] matches Kind::Object { class: c2, ivars: iv2 } && c2 == class
            && iv2@ == ivars@.update(j, (ivars@[j].0, w))),
    ensures
        ivar_of(m2, idx, name) == Some(w),
        forall|other: Seq<u8>| ivar_key(other) != ivar_key(name) ==> #[trigger] ivar_of(m2, idx, other) == ivar_of(m, idx, other),
        forall|i: int| 0 <= i < m.nodes.len() && i != idx ==> m2.nodes[i] == m.nodes[i],
        m2.syms == m.syms && m2.root == m.root,
{
    let ivars = m.nodes[idx as int]->Object_ivars@;
    let iv2 = m2.nodes[idx as int]->Object_ivars@;
    let key = ivar_key(name);
    let j = first_index(ivars, named_pair(m, key))->0;
    lemma_first_index_some(ivars, named_pair(m, key));
    assert(iv2[j] == (ivars[j].0, w));
    assert forall|k: int| 0 <= k < j implies !named_pair(m2, key)(#[trigger] iv2[k]) by {
        assert(iv2[k] == ivars[k]);
        assert(!named_pair(m, key)(ivars[k]));
    }
    lemma_first_index_at(iv2, named_pair(m2, key), j);
    assert forall|other: Seq<u8>| ivar_key(other) != ivar_key(name) implies #[trigger] ivar_of(m2, idx, other) == ivar_of(m, idx, other) by {
        let ko = ivar_key(other);
        assert forall|k: int| 0 <= k < ivars.len() implies named_pair(m, ko)(#[trigger] ivars[k]) == named_pair(m2, ko)(iv2[k]) by {
            if k == j {
                assert(named_pair(m, key)(ivars[j]));
            }
        }
        crate::lcf_doc::lemma_first_index_same(ivars, named_pair(m, ko), iv2, named_pair(m2, ko));
    }
}

} // verus!
