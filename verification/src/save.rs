//! Editing RPG Maker VX Ace / VX / XP saves (Marshal trees).
//!
//! The top level of a save is located through a layout table: switches and
//! variables are the `@data` arrays of Game_Switches / Game_Variables, actors
//! the `@data` of Game_Actors (a hash id => actor or an array), and the party
//! holds `@gold`, `@items`, `@weapons`, `@armors` and `@actors`.  A save in
//! another layout gives empty answers and refuses edits.
use vstd::prelude::*;
use crate::db::Engine;
use crate::marshal::model::{Kind, TreeModel, NIL_NODE, TRUE_NODE, FALSE_NODE, is_sentinel};
use crate::marshal::tree::{Tree, bool_of, fixnum_of, ivar_of, valid_ref, int_keyed_pair, with_node, string_of};
use crate::util::{first_index, is_first, lemma_first_index_at, lemma_first_index_none, bytes_eq};
use crate::text::{name, fmt_num, numbered, dec_chars};
use vstd::string::StringSliceAdditionalSpecFns;

verus! {

/// Kind of inventory goods.
#[derive(Debug, Clone, Copy, PartialEq, Eq, Structural)]
pub enum InvKind {
    Item,
    Weapon,
    Armor,
}

/// Instance variable of the party that holds goods of a kind.
pub open spec fn inv_ivar(k: InvKind) -> Seq<char> {
    match k {
        InvKind::Item => "items"@,
        InvKind::Weapon => "weapons"@,
        InvKind::Armor => "armors"@,
    }
}

/// Display label of a kind of goods.
pub open spec fn inv_label(k: InvKind) -> Seq<char> {
    match k {
        InvKind::Item => "物品"@,
        InvKind::Weapon => "武器"@,
        InvKind::Armor => "防具"@,
    }
}

impl InvKind {
    pub fn ivar(&self) -> (r: &'static str)
        ensures
            r@ == inv_ivar(*self),
    {
        match self {
            InvKind::Item => "items",
            InvKind::Weapon => "weapons",
            InvKind::Armor => "armors",
        }
    }

    pub fn label(&self) -> (r: &'static str)
        ensures
            r@ == inv_label(*self),
    {
        match self {
            InvKind::Item => "物品",
            InvKind::Weapon => "武器",
            InvKind::Armor => "防具",
        }
    }
}

/// Node indices of the top-level parts of a save.
#[derive(Debug, Clone, Copy, PartialEq, Eq, Structural)]
pub struct Layout {
    pub scene: Option<u32>,
    pub game_system: Option<u32>,
    pub switches: Option<u32>,
    pub variables: Option<u32>,
    pub actors: Option<u32>,
    pub party: Option<u32>,
}

/// A save: the main Marshal tree and the other segments of a multi-segment file.
#[derive(Debug)]
pub struct SaveData {
    pub tree: Tree,
    /// Segments before the main one, kept as they are.
    pub tail_before: Vec<Tree>,
    /// Segments after the main one.
    pub tail_after: Vec<Tree>,
    pub engine: Engine,
    pub path: Option<std::path::PathBuf>,
    /// The located top level (`None`: not a standard layout).
    pub layout: Option<Layout>,
    /// A remark about the file.
    pub note: Option<String>,
}

/// The layout of a top-level array: 13 parts for VX Ace and VX, 10 for XP.
pub open spec fn array_layout(items: Seq<u32>, engine: Engine) -> Option<Layout> {
    match engine {
        Engine::VxAce | Engine::Vx => if items.len() == 13 {
            Some(Layout {
                scene: Some(items[0]),
                game_system: Some(items[2]),
                switches: Some(items[5]),
                variables: Some(items[6]),
                actors: Some(items[8]),
                party: Some(items[9]),
            })
        } else {
            None
        },
        Engine::Xp => if items.len() == 10 {
            Some(Layout {
                scene: Some(items[0]),
                game_system: Some(items[1]),
                switches: Some(items[2]),
                variables: Some(items[3]),
                actors: Some(items[5]),
                party: Some(items[6]),
            })
        } else {
            None
        },
        _ => None,
    }
}

/// A (key, value) pair whose key node is the symbol spelled `name`.
pub open spec fn sym_keyed(m: TreeModel, name: Seq<u8>) -> spec_fn((u32, u32)) -> bool {
    |p: (u32, u32)|
        (p.0 as nat) < m.nodes.len() && (m.nodes[p.0 as int] matches Kind::Sym(s) && (s as nat)
            < m.syms.len() && m.syms[s as int].bytes@ == name)
}

/// Value under the first symbol key spelled `name`.
pub open spec fn sym_get(m: TreeModel, pairs: Seq<(u32, u32)>, name: Seq<u8>) -> Option<u32> {
    match first_index(pairs, sym_keyed(m, name)) {
        Some(j) => Some(pairs[j].1),
        None => None,
    }
}

/// One when the part was found.
pub open spec fn found(o: Option<u32>) -> nat {
    if o is Some { 1 } else { 0 }
}

/// The layout of a top-level hash keyed by symbols: at least three of
/// switches, variables, actors and party must be present.
pub open spec fn hash_layout(m: TreeModel, pairs: Seq<(u32, u32)>) -> Option<Layout> {
    let l = Layout {
        scene: sym_get(m, pairs, "scene".spec_bytes()),
        game_system: sym_get(m, pairs, "system".spec_bytes()),
        switches: sym_get(m, pairs, "switches".spec_bytes()),
        variables: sym_get(m, pairs, "variables".spec_bytes()),
        actors: sym_get(m, pairs, "actors".spec_bytes()),
        party: sym_get(m, pairs, "party".spec_bytes()),
    };
    if found(l.switches) + found(l.variables) + found(l.actors) + found(l.party) >= 3 {
        Some(l)
    } else {
        None
    }
}

/// The layout of a whole tree.
pub open spec fn layout_of(m: TreeModel, engine: Engine) -> Option<Layout> {
    if (m.root as nat) >= m.nodes.len() {
        None
    } else {
        match m.nodes[m.root as int] {
            Kind::Array(items) => array_layout(items@, engine),
            Kind::Hash { pairs, .. } => hash_layout(m, pairs@),
            _ => None,
        }
    }
}


/// Value under the first key spelled `name`, read from the pairs of a hash.
fn get_sym_key(tree: &Tree, pairs: &Vec<(u32, u32)>, name: &str) -> (r: Option<u32>)
    ensures
        r == sym_get(tree@, pairs@, name.spec_bytes()),
{
    let key = name.as_bytes();
    let mut j: usize = 0;
    while j < pairs.len()
        invariant
            j <= pairs@.len(),
            key@ == name.spec_bytes(),
            forall|k: int| 0 <= k < j ==> !sym_keyed(tree@, key@)(#[trigger] pairs@[k]),
        decreases pairs@.len() - j,
    {
        let (k, v) = pairs[j];
        let hit = if (k as usize) < tree.node_count() {
            match tree.kind(k) {
                Kind::Sym(s) => (*s as usize) < tree.sym_count() && bytes_eq(tree.sym_bytes(*s), key),
                _ => false,
            }
        } else {
            false
        };
        if hit {
            proof {
                lemma_first_index_at(pairs@, sym_keyed(tree@, key@), j as int);
            }
            return Some(v);
        }
        j = j + 1;
    }
    proof {
        lemma_first_index_none(pairs@, sym_keyed(tree@, key@));
    }
    None
}

/// Detects the top-level layout of a tree.
fn seg_layout(tree: &Tree, engine: Engine) -> (r: Option<Layout>)
    ensures
        r == layout_of(tree@, engine),
{
    let root = tree.root();
    if root as usize >= tree.node_count() {
        return None;
    }
    match tree.kind(root) {
        Kind::Array(items) => {
            let n = items.len();
            match engine {
                Engine::VxAce | Engine::Vx => {
                    if n != 13 {
                        return None;
                    }
                    Some(Layout {
                        scene: Some(items[0]),
                        game_system: Some(items[2]),
                        switches: Some(items[5]),
                        variables: Some(items[6]),
                        actors: Some(items[8]),
                        party: Some(items[9]),
                    })
                },
                Engine::Xp => {
                    if n != 10 {
                        return None;
                    }
                    Some(Layout {
                        scene: Some(items[0]),
                        game_system: Some(items[1]),
                        switches: Some(items[2]),
                        variables: Some(items[3]),
                        actors: Some(items[5]),
                        party: Some(items[6]),
                    })
                },
                _ => None,
            }
        },
        Kind::Hash { pairs, .. } => {
            let scene = get_sym_key(tree, pairs, "scene");
            let game_system = get_sym_key(tree, pairs, "system");
            let switches = get_sym_key(tree, pairs, "switches");
            let variables = get_sym_key(tree, pairs, "variables");
            let actors = get_sym_key(tree, pairs, "actors");
            let party = get_sym_key(tree, pairs, "party");
            let mut count: u32 = 0;
            if switches.is_some() {
                count = count + 1;
            }
            if variables.is_some() {
                count = count + 1;
            }
            if actors.is_some() {
                count = count + 1;
            }
            if party.is_some() {
                count = count + 1;
            }
            if count < 3 {
                return None;
            }
            Some(Layout { scene, game_system, switches, variables, actors, party })
        },
        _ => None,
    }
}

/// The layout of segment `i` (with all earlier segments in no standard layout)
/// picks it as the main segment.
pub open spec fn first_laid_out(segs: Seq<TreeModel>, engine: Engine) -> int {
    match first_index(segs, |t: TreeModel| layout_of(t, engine) is Some) {
        Some(i) => i,
        None => 0,
    }
}

impl SaveData {
    /// A save made of one tree.
    pub fn from_tree(tree: Tree, engine: Engine) -> (r: SaveData)
        ensures
            r.tree@ == tree@,
            r.tail_before@.len() == 0,
            r.tail_after@.len() == 0,
            r.engine == engine,
            r.path is None,
            r.layout == layout_of(tree@, engine),
            r.note is None,
    {
        let layout = seg_layout(&tree, engine);
        SaveData {
            tree,
            tail_before: Vec::new(),
            tail_after: Vec::new(),
            engine,
            path: None,
            layout,
            note: None,
        }
    }

    /// A save from the parsed segments of a file: the first segment in a standard
    /// layout is the main one (the first segment when none is), the others are kept
    /// before and after it.  The note tells of several segments or of a layout
    /// that was not found.
    pub fn from_segments(segments: Vec<Tree>, engine: Engine, path: Option<std::path::PathBuf>) -> (r: SaveData)
        requires
            segments@.len() >= 1,
        ensures
            ({
                let views = segments@.map_values(|t: Tree| t@);
                let main = first_laid_out(views, engine);
                &&& r.tree@ == segments@[main]@
                &&& r.tail_before@.map_values(|t: Tree| t@) == views.subrange(0, main)
                &&& r.tail_after@.map_values(|t: Tree| t@) == views.subrange(main + 1, views.len() as int)
                &&& r.engine == engine
                &&& r.path == path
                &&& r.layout == layout_of(segments@[main]@, engine)
                &&& (segments@.len() > 1 || r.layout is None) <==> r.note is Some
            }),
    {
        let ghost views = segments@.map_values(|t: Tree| t@);
        let ghost pick = |t: TreeModel| layout_of(t, engine) is Some;
        let n = segments.len();
        let mut note: Option<String> = None;
        if n > 1 {
            note = Some(fmt_num("该存档为 ", n as u128, " 段拼接格式（自定义脚本）"));
        }
        let mut main_idx: usize = 0;
        let mut layout: Option<Layout> = None;
        let mut found = false;
        let mut i: usize = 0;
        while i < n && !found
            invariant
                n == segments@.len(),
                views == segments@.map_values(|t: Tree| t@),
                pick == (|t: TreeModel| layout_of(t, engine) is Some),
                i <= n,
                !found ==> main_idx == 0 && layout is None && forall|k: int| 0 <= k < i ==> !pick(#[trigger] views[k]),
                found ==> main_idx < n && is_first(views, pick, main_idx as int) && layout == layout_of(views[main_idx as int], engine),
            decreases n - i,
        {
            let l = seg_layout(&segments[i], engine);
            if l.is_some() {
                main_idx = i;
                layout = l;
                found = true;
            }
            i = i + 1;
        }
        proof {
            if found {
                lemma_first_index_at(views, pick, main_idx as int);
            } else {
                lemma_first_index_none(views, pick);
            }
        }
        let ghost main = first_laid_out(views, engine);
        assert(main == main_idx);
        let mut segs = segments;
        let tree = segs.remove(main_idx);
        let tail_after = segs.split_off(main_idx);
        let tail_before = segs;
        proof {
            assert(tail_before@.map_values(|t: Tree| t@) =~= views.subrange(0, main));
            assert(tail_after@.map_values(|t: Tree| t@) =~= views.subrange(main + 1, views.len() as int));
        }
        if layout.is_none() && note.is_none() {
            note = Some(name("存档结构不是标准布局（可能使用了自定义脚本），部分功能不可用。可在“原始数据”标签页编辑。"));
        }
        SaveData { tree, tail_before, tail_after, engine, path, layout, note }
    }
}


impl SaveData {
    /// The Game_Switches part, when located.
    pub open spec fn switches_part(self) -> Option<u32> {
        match self.layout {
            Some(l) => l.switches,
            None => None,
        }
    }

    /// The Game_Variables part, when located.
    pub open spec fn variables_part(self) -> Option<u32> {
        match self.layout {
            Some(l) => l.variables,
            None => None,
        }
    }

    /// The Game_Actors part, when located.
    pub open spec fn actors_part(self) -> Option<u32> {
        match self.layout {
            Some(l) => l.actors,
            None => None,
        }
    }

    /// The Game_Party part, when located.
    pub open spec fn party_part(self) -> Option<u32> {
        match self.layout {
            Some(l) => l.party,
            None => None,
        }
    }

    /// Everything but the main tree is as before.
    pub open spec fn same_besides_tree(self, other: SaveData) -> bool {
        &&& self.tail_before == other.tail_before
        &&& self.tail_after == other.tail_after
        &&& self.engine == other.engine
        &&& self.path == other.path
        &&& self.layout == other.layout
        &&& self.note == other.note
    }
}

/// The `@data` array node of a part.
pub open spec fn data_node(m: TreeModel, obj: Option<u32>) -> Option<u32> {
    match obj {
        Some(o) => if (o as nat) < m.nodes.len() {
            match ivar_of(m, o, "data".spec_bytes()) {
                Some(d) => if (d as nat) < m.nodes.len() && m.nodes[d as int] is Array { Some(d) } else { None },
                None => None,
            }
        } else {
            None
        },
        None => None,
    }
}

/// Items of the `@data` array of a part.
pub open spec fn data_items(m: TreeModel, obj: Option<u32>) -> Option<Seq<u32>> {
    match data_node(m, obj) {
        Some(d) => Some(m.nodes[d as int]->Array_0@),
        None => None,
    }
}

/// Indices from 1 below `n` whose item is a truth value.
pub open spec fn bool_ids(m: TreeModel, items: Seq<u32>, n: int) -> Seq<u32>
    decreases n,
{
    if n <= 1 {
        Seq::empty()
    } else {
        bool_ids(m, items, n - 1) + if bool_of(m, items[n - 1]) is Some {
            seq![(n - 1) as u32]
        } else {
            Seq::empty()
        }
    }
}

/// Indices from 1 below `n` whose item is an integer.
pub open spec fn int_ids(m: TreeModel, items: Seq<u32>, n: int) -> Seq<u32>
    decreases n,
{
    if n <= 1 {
        Seq::empty()
    } else {
        int_ids(m, items, n - 1) + if fixnum_of(m, items[n - 1]) is Some {
            seq![(n - 1) as u32]
        } else {
            Seq::empty()
        }
    }
}

/// Number of new nodes that setting item `id` of an array of `len` items appends
/// before the value node.
pub open spec fn fill_count(len: nat, id: nat) -> nat {
    if len <= id { (id + 1 - len) as nat } else { 0 }
}

/// The tree after setting item `id` of array node `d`: the array grows with
/// `fill` nodes up to `id`, then a new `val` node takes position `id`.
pub open spec fn item_set(m: TreeModel, m2: TreeModel, d: u32, id: nat, fill: Kind, val: Kind) -> bool {
    let items = m.nodes[d as int]->Array_0@;
    let n0 = m.nodes.len();
    let extra = fill_count(items.len(), id);
    &&& m2.syms == m.syms
    &&& m2.root == m.root
    &&& m2.nodes.len() == n0 + extra + 1
    &&& forall|k: int| 0 <= k < n0 && k != d ==> m2.nodes[k] == m.nodes[k]
    &&& forall|k: int| n0 <= k < n0 + extra ==> m2.nodes[k] == fill
    &&& m2.nodes[(n0 + extra) as int] == val
    &&& m2.nodes[d as int] matches Kind::Array(v) && v@ == (items + Seq::new(
        extra,
        |k: int| (n0 + k) as u32,
    )).update(id as int, (n0 + extra) as u32)
}

/// A copy of a leaf node kind.
fn leaf_copy(k: &Kind) -> (r: Kind)
    requires
        *k is True || *k is False || *k is Fixnum,
    ensures
        r == *k,
{
    match k {
        Kind::True => Kind::True,
        Kind::False => Kind::False,
        Kind::Fixnum(v) => Kind::Fixnum(*v),
        _ => Kind::Nil,
    }
}

impl SaveData {
    /// The `@data` array node of a part.
    fn data_array(&self, obj: Option<u32>) -> (r: Option<u32>)
        requires
            self.tree@.refs_ok(),
        ensures
            r == data_node(self.tree@, obj),
    {
        let o = match obj {
            Some(o) => o,
            None => return None,
        };
        if o as usize >= self.tree.node_count() {
            return None;
        }
        assert(self.tree@.node_ok(o));
        let d = match self.tree.ivar(o, "data") {
            Some(d) => d,
            None => return None,
        };
        if d as usize >= self.tree.node_count() {
            return None;
        }
        match self.tree.kind(d) {
            Kind::Array(_) => Some(d),
            _ => None,
        }
    }

    /// Ids of the switches that hold a truth value (from 1).
    pub fn switch_ids(&self) -> (r: Vec<u32>)
        requires
            self.tree@.refs_ok(),
        ensures
            r@ == match data_items(self.tree@, self.switches_part()) {
                Some(items) => bool_ids(self.tree@, items, items.len() as int),
                None => Seq::empty(),
            },
    {
        let obj = self.layout_switches();
        let arr = match self.data_array(obj) {
            Some(a) => a,
            None => return Vec::new(),
        };
        let mut out: Vec<u32> = Vec::new();
        if let Kind::Array(items) = self.tree.kind(arr) {
            let mut i: usize = 1;
            while i < items.len()
                invariant
                    self.tree@.refs_ok(),
                    (arr as nat) < self.tree@.nodes.len(),
                    self.tree@.nodes[arr as int] == Kind::Array(*items),
                    1 <= i <= items@.len() || (items@.len() == 0 && i == 1),
                    out@ == bool_ids(self.tree@, items@, i as int),
                decreases items@.len() - i,
            {
                assert(self.tree@.node_ok(arr));
                if self.tree.as_bool(items[i]).is_some() {
                    out.push(i as u32);
                }
                i = i + 1;
            }
            proof {
                if items@.len() == 0 {
                    assert(bool_ids(self.tree@, items@, 0) == bool_ids(self.tree@, items@, 1));
                }
                assert(data_items(self.tree@, obj) == Some(items@));
                assert(out@ == bool_ids(self.tree@, items@, items@.len() as int));
            }
        }
        out
    }

    fn layout_switches(&self) -> (r: Option<u32>)
        ensures
            r == self.switches_part(),
    {
        match &self.layout {
            Some(l) => l.switches,
            None => None,
        }
    }

    fn layout_variables(&self) -> (r: Option<u32>)
        ensures
            r == self.variables_part(),
    {
        match &self.layout {
            Some(l) => l.variables,
            None => None,
        }
    }

    fn layout_actors(&self) -> (r: Option<u32>)
        requires
            self.tree@.refs_ok(),
        ensures
            r == slot_part(self.tree@, self.actors_part()),
            r matches Some(a) ==> self.tree@.node_ok(a),
    {
        let a = match &self.layout {
            Some(l) => l.actors,
            None => None,
        };
        match a {
            Some(x) => if (x as usize) < self.tree.node_count() {
                assert(self.tree@.node_ok(x));
                Some(x)
            } else {
                None
            },
            None => None,
        }
    }

    fn party(&self) -> (r: Option<u32>)
        requires
            self.tree@.refs_ok(),
        ensures
            r == slot_part(self.tree@, self.party_part()),
            r matches Some(p) ==> self.tree@.node_ok(p),
    {
        let p = match &self.layout {
            Some(l) => l.party,
            None => None,
        };
        match p {
            Some(x) => if (x as usize) < self.tree.node_count() {
                assert(self.tree@.node_ok(x));
                Some(x)
            } else {
                None
            },
            None => None,
        }
    }

    /// Length of the switch array, slot 0 included (0 without one).
    pub fn switch_array_len(&self) -> (r: usize)
        requires
            self.tree@.refs_ok(),
        ensures
            r == match data_items(self.tree@, self.switches_part()) {
                Some(items) => items.len(),
                None => 0,
            },
    {
        match self.data_array(self.layout_switches()) {
            Some(arr) => match self.tree.kind(arr) {
                Kind::Array(items) => items.len(),
                _ => 0,
            },
            None => 0,
        }
    }

    /// Length of the variable array, slot 0 included (0 without one).
    pub fn variable_array_len(&self) -> (r: usize)
        requires
            self.tree@.refs_ok(),
        ensures
            r == match data_items(self.tree@, self.variables_part()) {
                Some(items) => items.len(),
                None => 0,
            },
    {
        match self.data_array(self.layout_variables()) {
            Some(arr) => match self.tree.kind(arr) {
                Kind::Array(items) => items.len(),
                _ => 0,
            },
            None => 0,
        }
    }

    /// Switch `id`: `None` past the array's end or without switches; a slot that
    /// is not a truth value reads as off.
    pub fn switch(&self, id: u32) -> (r: Option<bool>)
        requires
            self.tree@.refs_ok(),
        ensures
            r == match data_items(self.tree@, self.switches_part()) {
                Some(items) => if (id as nat) < items.len() {
                    Some(match bool_of(self.tree@, items[id as int]) {
                        Some(b) => b,
                        None => false,
                    })
                } else {
                    None
                },
                None => None,
            },
    {
        let arr = self.data_array(self.layout_switches())?;
        match self.tree.kind(arr) {
            Kind::Array(items) => {
                if (id as usize) >= items.len() {
                    return None;
                }
                assert(self.tree@.node_ok(arr));
                match self.tree.as_bool(items[id as usize]) {
                    Some(b) => Some(b),
                    None => Some(false),
                }
            },
            _ => None,
        }
    }

    /// Sets item `id` of the `@data` array of `obj`, growing the array with `fill`
    /// nodes as needed, to a new `val` node.
    fn set_data_item(&mut self, obj: Option<u32>, id: u32, fill: Kind, val: Kind) -> (r: bool)
        requires
            old(self).tree@.refs_ok(),
            old(self).tree@.nodes.len() + id + 2 < NIL_NODE,
            fill is True || fill is False || fill is Fixnum,
            val is True || val is False || val is Fixnum,
        ensures
            r == (data_node(old(self).tree@, obj) is Some),
            !r ==> *final(self) == *old(self),
            r ==> item_set(old(self).tree@, final(self).tree@, data_node(old(self).tree@, obj)->0, id as nat, fill, val),
            final(self).same_besides_tree(*old(self)),
            final(self).tree@.refs_ok(),
            old(self).tree@.wf() ==> final(self).tree@.wf(),
    {
        let arr = match self.data_array(obj) {
            Some(a) => a,
            None => return false,
        };
        let ghost m = self.tree@;
        let ghost items = m.nodes[arr as int]->Array_0@;
        let need = id as usize + 1;
        let len = match self.tree.kind(arr) {
            Kind::Array(items) => items.len(),
            _ => return false,
        };
        let ghost n0 = m.nodes.len();
        if len < need {
            let mut k = len;
            while k < need
                invariant
                    len <= k <= need,
                    need == id + 1,
                    len == items.len(),
                    n0 == m.nodes.len(),
                    (arr as nat) < n0,
                    m.nodes[arr as int] == Kind::Array(m.nodes[arr as int]->Array_0),
                    items == m.nodes[arr as int]->Array_0@,
                    n0 + id + 2 < NIL_NODE,
                    fill is True || fill is False || fill is Fixnum,
                    self.tree@.refs_ok(),
                    m.wf() ==> self.tree@.wf(),
                    self.tree@.syms == m.syms,
                    self.tree@.root == m.root,
                    self.tree@.nodes.len() == n0 + (k - len),
                    forall|j: int| 0 <= j < n0 && j != arr ==> self.tree@.nodes[j] == m.nodes[j],
                    forall|j: int| n0 <= j < n0 + (k - len) ==> self.tree@.nodes[j] == fill,
                    self.tree@.nodes[arr as int] matches Kind::Array(v) && v@ == items + Seq::new(
                        (k - len) as nat,
                        |t: int| (n0 + t) as u32,
                    ),
                    self.same_besides_tree(*old(self)),
                decreases need - k,
            {
                let n = self.tree.alloc_node(leaf_copy(&fill));
                self.tree.array_push(arr, n);
                k = k + 1;
                proof {
                    let v = self.tree@.nodes[arr as int]->Array_0@;
                    assert(v =~= items + Seq::new((k - len) as nat, |t: int| (n0 + t) as u32));
                }
            }
        }
        let v = self.tree.alloc_node(val);
        self.tree.array_set(arr, id as usize, v);
        proof {
            let extra = fill_count(items.len(), id as nat);
            assert(Seq::new(extra, |t: int| (n0 + t) as u32) =~= Seq::new(
                (if len < need { need - len } else { 0 }) as nat,
                |t: int| (n0 + t) as u32,
            ));
        }
        true
    }

    /// Turns switch `id` on or off, growing the switch array (with `false`) as needed;
    /// refused without a switch array.
    pub fn set_switch(&mut self, id: u32, on: bool) -> (r: bool)
        requires
            old(self).tree@.refs_ok(),
            old(self).tree@.nodes.len() + id + 2 < NIL_NODE,
        ensures
            r == (data_node(old(self).tree@, old(self).switches_part()) is Some),
            !r ==> *final(self) == *old(self),
            r ==> item_set(
                old(self).tree@,
                final(self).tree@,
                data_node(old(self).tree@, old(self).switches_part())->0,
                id as nat,
                Kind::False,
                if on { Kind::True } else { Kind::False },
            ),
            final(self).same_besides_tree(*old(self)),
            final(self).tree@.refs_ok(),
            old(self).tree@.wf() ==> final(self).tree@.wf(),
    {
        let obj = self.layout_switches();
        self.set_data_item(obj, id, Kind::False, if on { Kind::True } else { Kind::False })
    }

    /// Ids of the variables that hold an integer (from 1).
    pub fn variable_ids(&self) -> (r: Vec<u32>)
        requires
            self.tree@.refs_ok(),
        ensures
            r@ == match data_items(self.tree@, self.variables_part()) {
                Some(items) => int_ids(self.tree@, items, items.len() as int),
                None => Seq::empty(),
            },
    {
        let obj = self.layout_variables();
        let arr = match self.data_array(obj) {
            Some(a) => a,
            None => return Vec::new(),
        };
        let mut out: Vec<u32> = Vec::new();
        if let Kind::Array(items) = self.tree.kind(arr) {
            let mut i: usize = 1;
            while i < items.len()
                invariant
                    self.tree@.refs_ok(),
                    (arr as nat) < self.tree@.nodes.len(),
                    self.tree@.nodes[arr as int] == Kind::Array(*items),
                    1 <= i <= items@.len() || (items@.len() == 0 && i == 1),
                    out@ == int_ids(self.tree@, items@, i as int),
                decreases items@.len() - i,
            {
                assert(self.tree@.node_ok(arr));
                if self.tree.as_fixnum(items[i]).is_some() {
                    out.push(i as u32);
                }
                i = i + 1;
            }
            proof {
                if items@.len() == 0 {
                    assert(int_ids(self.tree@, items@, 0) == int_ids(self.tree@, items@, 1));
                }
                assert(data_items(self.tree@, obj) == Some(items@));
                assert(out@ == int_ids(self.tree@, items@, items@.len() as int));
            }
        }
        out
    }

    /// Variable `id`: `None` past the array's end or without variables; a slot
    /// that is not an integer reads as 0.
    pub fn variable(&self, id: u32) -> (r: Option<i64>)
        requires
            self.tree@.refs_ok(),
        ensures
            r == match data_items(self.tree@, self.variables_part()) {
                Some(items) => if (id as nat) < items.len() {
                    Some(match fixnum_of(self.tree@, items[id as int]) {
                        Some(v) => v,
                        None => 0,
                    })
                } else {
                    None
                },
                None => None,
            },
    {
        let arr = self.data_array(self.layout_variables())?;
        match self.tree.kind(arr) {
            Kind::Array(items) => {
                if (id as usize) >= items.len() {
                    return None;
                }
                assert(self.tree@.node_ok(arr));
                match self.tree.as_fixnum(items[id as usize]) {
                    Some(v) => Some(v),
                    None => Some(0),
                }
            },
            _ => None,
        }
    }

    /// Sets variable `id`, growing the variable array (with 0) as needed; refused
    /// without a variable array.
    pub fn set_variable(&mut self, id: u32, v: i64) -> (r: bool)
        requires
            old(self).tree@.refs_ok(),
            old(self).tree@.nodes.len() + id + 2 < NIL_NODE,
        ensures
            r == (data_node(old(self).tree@, old(self).variables_part()) is Some),
            !r ==> *final(self) == *old(self),
            r ==> item_set(
                old(self).tree@,
                final(self).tree@,
                data_node(old(self).tree@, old(self).variables_part())->0,
                id as nat,
                Kind::Fixnum(0),
                Kind::Fixnum(v),
            ),
            final(self).same_besides_tree(*old(self)),
            final(self).tree@.refs_ok(),
            old(self).tree@.wf() ==> final(self).tree@.wf(),
    {
        let obj = self.layout_variables();
        self.set_data_item(obj, id, Kind::Fixnum(0), Kind::Fixnum(v))
    }
}


/// A node reference that, when present, is an arena slot.
pub open spec fn opt_slot(m: TreeModel, o: Option<u32>) -> bool {
    o matches Some(x) ==> (x as nat) < m.nodes.len()
}

/// The part when it is a node of the tree (a part that is a sentinel holds nothing).
pub open spec fn slot_part(m: TreeModel, obj: Option<u32>) -> Option<u32> {
    match obj {
        Some(o) => if (o as nat) < m.nodes.len() { Some(o) } else { None },
        None => None,
    }
}

/// Instance variable `name` of part `obj`.
pub open spec fn part_ivar(m: TreeModel, obj: Option<u32>, name: Seq<u8>) -> Option<u32> {
    match slot_part(m, obj) {
        Some(o) => ivar_of(m, o, name),
        None => None,
    }
}

/// The party's gold.
pub open spec fn gold_of(m: TreeModel, party: Option<u32>) -> Option<i64> {
    match part_ivar(m, party, "gold".spec_bytes()) {
        Some(g) => fixnum_of(m, g),
        None => None,
    }
}

/// Instance variable of the party that holds goods of a kind, as bytes.
pub open spec fn inv_key(k: InvKind) -> Seq<u8> {
    match k {
        InvKind::Item => "items".spec_bytes(),
        InvKind::Weapon => "weapons".spec_bytes(),
        InvKind::Armor => "armors".spec_bytes(),
    }
}

/// The goods hash of a kind.
pub open spec fn goods_node(m: TreeModel, party: Option<u32>, kind: InvKind) -> Option<u32> {
    part_ivar(m, party, inv_key(kind))
}

/// (id, quantity) of the first `n` pairs whose key and value are integers.
pub open spec fn goods_list(m: TreeModel, pairs: Seq<(u32, u32)>, n: int) -> Seq<(u32, i64)>
    decreases n,
{
    if n <= 0 {
        Seq::empty()
    } else {
        goods_list(m, pairs, n - 1) + match (fixnum_of(m, pairs[n - 1].0), fixnum_of(m, pairs[n - 1].1)) {
            (Some(id), Some(q)) => seq![(id as u32, q)],
            _ => Seq::empty(),
        }
    }
}

/// The goods of a kind, in stored order.
pub open spec fn goods_of(m: TreeModel, party: Option<u32>, kind: InvKind) -> Seq<(u32, i64)> {
    match goods_node(m, party, kind) {
        Some(h) => match m.nodes[h as int] {
            Kind::Hash { pairs, .. } => goods_list(m, pairs@, pairs@.len() as int),
            _ => Seq::empty(),
        },
        None => Seq::empty(),
    }
}

/// Reading the goods of a kind resolves.
pub open spec fn goods_readable(m: TreeModel, party: Option<u32>, kind: InvKind) -> bool {
    &&& opt_slot(m, goods_node(m, party, kind))
}

/// Editing the goods of a kind resolves: the hash keys and values are slots.
pub open spec fn goods_editable(m: TreeModel, party: Option<u32>, kind: InvKind) -> bool {
    &&& goods_readable(m, party, kind)
    &&& (goods_node(m, party, kind) matches Some(h) ==> (m.nodes[h as int] matches Kind::Hash { pairs, .. }
        ==> forall|j: int| 0 <= j < pairs@.len() ==> ((#[trigger] pairs@[j]).0 as nat) < m.nodes.len()
            && (pairs@[j].1 as nat) < m.nodes.len()))
}


/// The tree after a pair `key => value` of two new integer nodes is appended to hash `h`.
pub open spec fn pair_added(m: TreeModel, m2: TreeModel, h: u32, key: i64, value: i64) -> bool {
    let n0 = m.nodes.len();
    &&& m2.syms == m.syms
    &&& m2.root == m.root
    &&& m2.nodes.len() == n0 + 2
    &&& forall|k: int| 0 <= k < n0 && k != h ==> m2.nodes[k] == m.nodes[k]
    &&& m2.nodes[n0 as int] == Kind::Fixnum(key)
    &&& m2.nodes[n0 + 1int] == Kind::Fixnum(value)
    &&& m2.nodes[h as int] matches Kind::Hash { pairs: p2, default: d2 } && p2@ == m.nodes[h as int]->Hash_pairs@.push(
        (n0 as u32, (n0 + 1) as u32),
    ) && d2 == m.nodes[h as int]->Hash_default
}

/// The tree after pair `j` of hash `h` is removed.
pub open spec fn pair_removed(m: TreeModel, m2: TreeModel, h: u32, j: int) -> bool {
    &&& m2.syms == m.syms
    &&& m2.root == m.root
    &&& m2.nodes.len() == m.nodes.len()
    &&& forall|k: int| 0 <= k < m.nodes.len() && k != h ==> m2.nodes[k] == m.nodes[k]
    &&& m2.nodes[h as int] matches Kind::Hash { pairs: p2, default: d2 } && p2@ == m.nodes[h as int]->Hash_pairs@.remove(j)
        && d2 == m.nodes[h as int]->Hash_default
}

/// Position of the first pair of hash `h` whose key is the integer `key`.
pub open spec fn int_key_pos(m: TreeModel, h: u32, key: i64) -> Option<int> {
    first_index(m.nodes[h as int]->Hash_pairs@, int_keyed_pair(m, key))
}

/// Setting an integer node: the node changes when it is an integer, else nothing does.
pub open spec fn fixnum_set(m: TreeModel, m2: TreeModel, v: u32, x: i64) -> bool {
    if m.nodes[v as int] is Fixnum {
        m2 == with_node(m, v, Kind::Fixnum(x))
    } else {
        m2 == m
    }
}

/// What setting the quantity of goods `id` to `qty` does to the tree of a save
/// whose goods hash is `h`, and whether it succeeds.
pub open spec fn qty_set(m: TreeModel, m2: TreeModel, h: u32, id: u32, qty: i64, r: bool) -> bool {
    match int_key_pos(m, h, id as i64) {
        Some(j) => if qty <= 0 {
            r && pair_removed(m, m2, h, j)
        } else {
            let v = m.nodes[h as int]->Hash_pairs@[j].1;
            r == (m.nodes[v as int] is Fixnum) && fixnum_set(m, m2, v, qty)
        },
        None => r && if qty > 0 { pair_added(m, m2, h, id as i64, qty) } else { m2 == m },
    }
}

/// An entry of the goods list for `id`.
pub open spec fn id_is(id: u32) -> spec_fn((u32, i64)) -> bool {
    |e: (u32, i64)| e.0 == id
}

/// Quantity that the goods list gives for `id` (the first entry), 0 when absent.
pub open spec fn qty_in(list: Seq<(u32, i64)>, id: u32) -> i64 {
    match first_index(list, id_is(id)) {
        Some(j) => list[j].1,
        None => 0,
    }
}

/// The party's member ids: the integers of `@actors`, else of `@party_members`.
pub open spec fn members_of(m: TreeModel, party: Option<u32>) -> Seq<u32> {
    let arr = match part_ivar(m, party, "actors".spec_bytes()) {
        Some(a) => Some(a),
        None => part_ivar(m, party, "party_members".spec_bytes()),
    };
    match arr {
        Some(a) => match m.nodes[a as int] {
            Kind::Array(items) => ints_as_ids(m, items@, items@.len() as int),
            _ => Seq::empty(),
        },
        None => Seq::empty(),
    }
}

/// The integer items among the first `n`, as ids.
pub open spec fn ints_as_ids(m: TreeModel, items: Seq<u32>, n: int) -> Seq<u32>
    decreases n,
{
    if n <= 0 {
        Seq::empty()
    } else {
        ints_as_ids(m, items, n - 1) + match fixnum_of(m, items[n - 1]) {
            Some(v) => seq![v as u32],
            None => Seq::empty(),
        }
    }
}

/// The member array of the party is a slot when present.
pub open spec fn members_readable(m: TreeModel, party: Option<u32>) -> bool {
    &&& opt_slot(m, part_ivar(m, party, "actors".spec_bytes()))
    &&& (part_ivar(m, party, "actors".spec_bytes()) is None ==> opt_slot(m, part_ivar(m, party, "party_members".spec_bytes())))
}

/// Integers of the items of array `items` as ids (non-integers skipped).
fn ids_of_ints(tree: &Tree, items: &Vec<u32>) -> (r: Vec<u32>)
    requires
        tree@.refs_ok(),
        forall|j: int| 0 <= j < items@.len() ==> valid_ref(tree@, #[trigger] items@[j]),
    ensures
        r@ == ints_as_ids(tree@, items@, items@.len() as int),
{
    let mut out: Vec<u32> = Vec::new();
    let mut i: usize = 0;
    while i < items.len()
        invariant
            i <= items@.len(),
            forall|j: int| 0 <= j < items@.len() ==> valid_ref(tree@, #[trigger] items@[j]),
            out@ == ints_as_ids(tree@, items@, i as int),
        decreases items@.len() - i,
    {
        if let Some(v) = tree.as_fixnum(items[i]) {
            out.push(v as u32);
        }
        i = i + 1;
    }
    out
}

impl SaveData {
    /// The party's gold.
    pub fn gold(&self) -> (r: Option<i64>)
        requires
            self.tree@.refs_ok(),
        ensures
            r == gold_of(self.tree@, self.party_part()),
    {
        let p = self.party()?;
        let g = self.tree.ivar(p, "gold")?;
        self.tree.as_fixnum(g)
    }

    /// Sets the party's gold; refused when there is no integer `@gold`.
    pub fn set_gold(&mut self, v: i64) -> (r: bool)
        requires
            old(self).tree@.refs_ok(),
            opt_slot(old(self).tree@, part_ivar(old(self).tree@, old(self).party_part(), "gold".spec_bytes())),
        ensures
            match part_ivar(old(self).tree@, old(self).party_part(), "gold".spec_bytes()) {
                Some(g) => r == (old(self).tree@.nodes[g as int] is Fixnum) && fixnum_set(old(self).tree@, final(self).tree@, g, v),
                None => !r && final(self).tree@ == old(self).tree@,
            },
            final(self).same_besides_tree(*old(self)),
            old(self).tree@.wf() ==> final(self).tree@.wf(),
            final(self).tree@.refs_ok(),
    {
        let p = match self.party() {
            Some(p) => p,
            None => return false,
        };
        let g = match self.tree.ivar(p, "gold") {
            Some(g) => g,
            None => return false,
        };
        self.tree.set_fixnum(g, v)
    }

    /// Goods of a kind as (id, quantity), in stored order.
    pub fn inventory(&self, kind: InvKind) -> (r: Vec<(u32, i64)>)
        requires
            self.tree@.refs_ok(),
            goods_readable(self.tree@, self.party_part(), kind),
        ensures
            r@ == goods_of(self.tree@, self.party_part(), kind),
    {
        let p = match self.party() {
            Some(p) => p,
            None => return Vec::new(),
        };
        let h = match self.tree.ivar(p, kind.ivar()) {
            Some(h) => h,
            None => return Vec::new(),
        };
        let mut out: Vec<(u32, i64)> = Vec::new();
        if let Kind::Hash { pairs, .. } = self.tree.kind(h) {
            let mut i: usize = 0;
            while i < pairs.len()
                invariant
                    self.tree@.refs_ok(),
                    (h as nat) < self.tree@.nodes.len(),
                    self.tree@.nodes[h as int] matches Kind::Hash { pairs: ps, .. } && ps@ == pairs@,
                    i <= pairs@.len(),
                    out@ == goods_list(self.tree@, pairs@, i as int),
                decreases pairs@.len() - i,
            {
                assert(self.tree@.node_ok(h));
                let (k, v) = pairs[i];
                if let Some(id) = self.tree.as_fixnum(k) {
                    if let Some(q) = self.tree.as_fixnum(v) {
                        out.push((id as u32, q));
                    }
                }
                i = i + 1;
            }
        }
        out
    }

    /// Sets the quantity of goods `id`: a quantity of 0 or less removes the entry,
    /// a new id is appended; refused without a goods hash or when the stored
    /// quantity is not an integer.
    pub fn set_inventory_qty(&mut self, kind: InvKind, id: u32, qty: i64) -> (r: bool)
        requires
            old(self).tree@.refs_ok(),
            goods_editable(old(self).tree@, old(self).party_part(), kind),
            old(self).tree@.nodes.len() + 2 < NIL_NODE,
        ensures
            match goods_node(old(self).tree@, old(self).party_part(), kind) {
                Some(h) => if old(self).tree@.nodes[h as int] is Hash {
                    qty_set(old(self).tree@, final(self).tree@, h, id, qty, r)
                } else {
                    !r && final(self).tree@ == old(self).tree@
                },
                None => !r && final(self).tree@ == old(self).tree@,
            },
            final(self).same_besides_tree(*old(self)),
            old(self).tree@.wf() ==> final(self).tree@.wf(),
            final(self).tree@.refs_ok(),
    {
        let p = match self.party() {
            Some(p) => p,
            None => return false,
        };
        let h = match self.tree.ivar(p, kind.ivar()) {
            Some(h) => h,
            None => return false,
        };
        let key = id as i64;
        let pos = match self.tree.kind(h) {
            Kind::Hash { pairs, .. } => self.tree.find_int_key(pairs, key),
            _ => return false,
        };
        let ghost m = self.tree@;
        if let Some(pos) = pos {
            let v = match self.tree.kind(h) {
                Kind::Hash { pairs, .. } => pairs[pos].1,
                _ => return false,
            };
            if qty <= 0 {
                self.tree.hash_remove_at(h, pos);
                return true;
            }
            return self.tree.set_fixnum(v, qty);
        }
        if qty > 0 {
            let k = self.tree.new_fixnum(key);
            let val = self.tree.new_fixnum(qty);
            self.tree.hash_insert(h, k, val);
        }
        true
    }

    /// Adds `qty` of goods `id` to what the party has (nothing for a quantity of 0 or less).
    pub fn add_inventory(&mut self, kind: InvKind, id: u32, qty: i64) -> (r: bool)
        requires
            old(self).tree@.refs_ok(),
            goods_editable(old(self).tree@, old(self).party_part(), kind),
            old(self).tree@.nodes.len() + 2 < NIL_NODE,
            qty > 0 ==> qty_in(goods_of(old(self).tree@, old(self).party_part(), kind), id) + qty <= i64::MAX,
            qty > 0 ==> qty_in(goods_of(old(self).tree@, old(self).party_part(), kind), id) + qty >= i64::MIN,
        ensures
            qty <= 0 ==> r && *final(self) == *old(self),
            qty > 0 ==> match goods_node(old(self).tree@, old(self).party_part(), kind) {
                Some(h) => if old(self).tree@.nodes[h as int] is Hash {
                    qty_set(
                        old(self).tree@,
                        final(self).tree@,
                        h,
                        id,
                        (qty_in(goods_of(old(self).tree@, old(self).party_part(), kind), id) + qty) as i64,
                        r,
                    )
                } else {
                    !r && final(self).tree@ == old(self).tree@
                },
                None => !r && final(self).tree@ == old(self).tree@,
            },
            final(self).same_besides_tree(*old(self)),
            old(self).tree@.wf() ==> final(self).tree@.wf(),
            final(self).tree@.refs_ok(),
    {
        if qty <= 0 {
            return true;
        }
        let list = self.inventory(kind);
        let ghost goods = list@;
        let ghost pick = id_is(id);
        let mut cur: i64 = 0;
        let mut i: usize = 0;
        let mut hit = false;
        while i < list.len() && !hit
            invariant
                goods == list@,
                pick == id_is(id),
                i <= list@.len(),
                !hit ==> cur == 0 && forall|k: int| 0 <= k < i ==> !pick(#[trigger] goods[k]),
                hit ==> i >= 1 && is_first(goods, pick, i - 1) && cur == goods[i - 1].1,
            decreases list@.len() - i,
        {
            if list[i].0 == id {
                cur = list[i].1;
                hit = true;
            }
            i = i + 1;
        }
        proof {
            if hit {
                lemma_first_index_at(goods, pick, i - 1);
            } else {
                lemma_first_index_none(goods, pick);
            }
        }
        self.set_inventory_qty(kind, id, cur + qty)
    }

    /// Ids of the party members (`@actors`, else `@party_members`).
    pub fn party_member_ids(&self) -> (r: Vec<u32>)
        requires
            self.tree@.refs_ok(),
            members_readable(self.tree@, self.party_part()),
        ensures
            r@ == members_of(self.tree@, self.party_part()),
    {
        let p = match self.party() {
            Some(p) => p,
            None => return Vec::new(),
        };
        let arr = match self.tree.ivar(p, "actors") {
            Some(a) => Some(a),
            None => self.tree.ivar(p, "party_members"),
        };
        let arr = match arr {
            Some(a) => a,
            None => return Vec::new(),
        };
        match self.tree.kind(arr) {
            Kind::Array(items) => {
                assert(self.tree@.node_ok(arr));
                ids_of_ints(&self.tree, items)
            },
            _ => Vec::new(),
        }
    }
}


/// The `@data` container of the actors part.
pub open spec fn actor_table(m: TreeModel, a: Option<u32>) -> Option<u32> {
    part_ivar(m, a, "data".spec_bytes())
}

/// Item `i` of an actor array holds an actor (neither the nil sentinel nor a nil node).
pub open spec fn holds_actor(m: TreeModel, it: u32) -> bool {
    !(it == NIL_NODE || ((it as nat) < m.nodes.len() && m.nodes[it as int] is Nil))
}

/// The actor node stored for id `id`.
pub open spec fn actor_of(m: TreeModel, a: Option<u32>, id: u32) -> Option<u32> {
    match actor_table(m, a) {
        Some(h) => match m.nodes[h as int] {
            Kind::Hash { pairs, .. } => match first_index(pairs@, int_keyed_pair(m, id as i64)) {
                Some(j) => Some(pairs@[j].1),
                None => None,
            },
            Kind::Array(items) => if (id as nat) < items@.len() && holds_actor(m, items@[id as int]) {
                Some(items@[id as int])
            } else {
                None
            },
            _ => None,
        },
        None => None,
    }
}

/// Looking up actor `id` resolves: the table is a slot, hash keys are slots, and
/// the array item read is not a truth-value sentinel.
pub open spec fn actor_lookup_ok(m: TreeModel, a: Option<u32>, id: u32) -> bool {
    &&& opt_slot(m, actor_table(m, a))
    &&& (actor_table(m, a) matches Some(h) ==> match m.nodes[h as int] {
        Kind::Hash { pairs, .. } => forall|j: int| 0 <= j < pairs@.len() ==> ((#[trigger] pairs@[j]).0 as nat) < m.nodes.len(),
        Kind::Array(items) => (id as nat) < items@.len() ==> items@[id as int] != TRUE_NODE && items@[id as int] != FALSE_NODE,
        _ => true,
    })
}

/// Actor `id` is found and is a slot, or is not found.
pub open spec fn actor_usable(m: TreeModel, a: Option<u32>, id: u32) -> bool {
    actor_lookup_ok(m, a, id) && opt_slot(m, actor_of(m, a, id))
}

/// Ids present in the first `n` items of an actor array (from 1).
pub open spec fn present_ids(m: TreeModel, items: Seq<u32>, n: int) -> Seq<u32>
    decreases n,
{
    if n <= 1 {
        Seq::empty()
    } else {
        present_ids(m, items, n - 1) + if holds_actor(m, items[n - 1]) {
            seq![(n - 1) as u32]
        } else {
            Seq::empty()
        }
    }
}

/// Integer keys of the first `n` pairs, as ids.
pub open spec fn key_ids(m: TreeModel, pairs: Seq<(u32, u32)>, n: int) -> Seq<u32>
    decreases n,
{
    if n <= 0 {
        Seq::empty()
    } else {
        key_ids(m, pairs, n - 1) + match fixnum_of(m, pairs[n - 1].0) {
            Some(v) => seq![v as u32],
            None => Seq::empty(),
        }
    }
}

/// The actor ids in stored order.
pub open spec fn actor_id_list(m: TreeModel, a: Option<u32>) -> Seq<u32> {
    match actor_table(m, a) {
        Some(h) => match m.nodes[h as int] {
            Kind::Hash { pairs, .. } => key_ids(m, pairs@, pairs@.len() as int),
            Kind::Array(items) => present_ids(m, items@, items@.len() as int),
            _ => Seq::empty(),
        },
        None => Seq::empty(),
    }
}

/// Reading all actor ids resolves.
pub open spec fn actor_ids_ok(m: TreeModel, a: Option<u32>) -> bool {
    &&& opt_slot(m, actor_table(m, a))
    &&& (actor_table(m, a) matches Some(h) ==> (m.nodes[h as int] matches Kind::Array(items)
        ==> forall|i: int| 1 <= i < items@.len() ==> #[trigger] items@[i] != TRUE_NODE && items@[i] != FALSE_NODE))
}

/// In ascending order.
pub open spec fn ascending(s: Seq<u32>) -> bool {
    forall|i: int, j: int| 0 <= i < j < s.len() ==> s[i] <= s[j]
}

/// The same ids in ascending order.
fn sort_ids(v: Vec<u32>) -> (r: Vec<u32>)
    ensures
        ascending(r@),
        r@.to_multiset() == v@.to_multiset(),
{
    broadcast use vstd::seq_lib::group_to_multiset_ensures;
    let mut out: Vec<u32> = Vec::new();
    let mut i: usize = 0;
    while i < v.len()
        invariant
            i <= v@.len(),
            ascending(out@),
            out@.to_multiset() == v@.subrange(0, i as int).to_multiset(),
        decreases v@.len() - i,
    {
        let x = v[i];
        let mut p: usize = 0;
        while p < out.len() && out[p] <= x
            invariant
                p <= out@.len(),
                forall|k: int| 0 <= k < p ==> out@[k] <= x,
            decreases out@.len() - p,
        {
            p = p + 1;
        }
        let ghost before = out@;
        out.insert(p, x);
        proof {
            vstd::seq_lib::to_multiset_insert(before, p as int, x);
            vstd::seq_lib::to_multiset_build(v@.subrange(0, i as int), x);
            assert(v@.subrange(0, i + 1) =~= v@.subrange(0, i as int).push(x));
            assert forall|a: int, b: int| 0 <= a < b < out@.len() implies out@[a] <= out@[b] by {
                if a < p && b > p {
                    assert(before[a] <= x);
                    assert(p < before.len() ==> !(before[p as int] <= x));
                }
            }
        }
        i = i + 1;
    }
    assert(v@.subrange(0, v@.len() as int) =~= v@);
    out
}

impl SaveData {
    /// The `@data` container of the actors part.
    fn actor_data(&self) -> (r: Option<u32>)
        requires
            self.tree@.refs_ok(),
        ensures
            r == actor_table(self.tree@, self.actors_part()),
    {
        let a = self.layout_actors()?;
        self.tree.ivar(a, "data")
    }

    /// All actor ids, ascending (hash keys that are integers, or the array
    /// positions from 1 that hold an actor).
    pub fn actor_ids(&self) -> (r: Vec<u32>)
        requires
            self.tree@.refs_ok(),
            actor_ids_ok(self.tree@, self.actors_part()),
        ensures
            ascending(r@),
            r@.to_multiset() == actor_id_list(self.tree@, self.actors_part()).to_multiset(),
    {
        let h = match self.actor_data() {
            Some(h) => h,
            None => return sort_ids(Vec::new()),
        };
        let mut out: Vec<u32> = Vec::new();
        match self.tree.kind(h) {
            Kind::Hash { pairs, .. } => {
                let mut i: usize = 0;
                while i < pairs.len()
                    invariant
                        self.tree@.refs_ok(),
                        (h as nat) < self.tree@.nodes.len(),
                        self.tree@.nodes[h as int] matches Kind::Hash { pairs: ps, .. } && ps@ == pairs@,
                        i <= pairs@.len(),
                        out@ == key_ids(self.tree@, pairs@, i as int),
                    decreases pairs@.len() - i,
                {
                    assert(self.tree@.node_ok(h));
                    if let Some(id) = self.tree.as_fixnum(pairs[i].0) {
                        out.push(id as u32);
                    }
                    i = i + 1;
                }
            },
            Kind::Array(items) => {
                let mut i: usize = 1;
                while i < items.len()
                    invariant
                        self.tree@.refs_ok(),
                        (h as nat) < self.tree@.nodes.len(),
                        self.tree@.nodes[h as int] == Kind::Array(*items),
                        forall|k: int| 1 <= k < items@.len() ==> #[trigger] items@[k] != TRUE_NODE && items@[k] != FALSE_NODE,
                        1 <= i <= items@.len() || (items@.len() == 0 && i == 1),
                        out@ == present_ids(self.tree@, items@, i as int),
                    decreases items@.len() - i,
                {
                    assert(self.tree@.node_ok(h));
                    let it = items[i];
                    let is_nil = it == NIL_NODE || match self.tree.kind(it) {
                        Kind::Nil => true,
                        _ => false,
                    };
                    if !is_nil {
                        out.push(i as u32);
                    }
                    i = i + 1;
                }
                proof {
                    if items@.len() == 0 {
                        assert(present_ids(self.tree@, items@, 0) == present_ids(self.tree@, items@, 1));
                    }
                }
            },
            _ => {},
        }
        sort_ids(out)
    }

    /// The node of actor `id`.
    pub fn actor(&self, id: u32) -> (r: Option<u32>)
        requires
            self.tree@.refs_ok(),
            actor_lookup_ok(self.tree@, self.actors_part(), id),
        ensures
            r == actor_of(self.tree@, self.actors_part(), id),
    {
        let h = self.actor_data()?;
        match self.tree.kind(h) {
            Kind::Hash { pairs, .. } => {
                match self.tree.find_int_key(pairs, id as i64) {
                    Some(j) => Some(pairs[j].1),
                    None => None,
                }
            },
            Kind::Array(items) => {
                if (id as usize) >= items.len() {
                    return None;
                }
                let it = items[id as usize];
                assert(self.tree@.node_ok(h));
                if it == NIL_NODE {
                    return None;
                }
                match self.tree.kind(it) {
                    Kind::Nil => None,
                    _ => Some(it),
                }
            },
            _ => None,
        }
    }
}


/// Instance variable `iv` of actor `id`.
pub open spec fn actor_ivar(m: TreeModel, a: Option<u32>, id: u32, iv: Seq<u8>) -> Option<u32> {
    match actor_of(m, a, id) {
        Some(x) => ivar_of(m, x, iv),
        None => None,
    }
}

/// Setting stat `iv` of actor `id` to `v`: refused without an integer there.
pub open spec fn stat_set(m: TreeModel, m2: TreeModel, a: Option<u32>, id: u32, iv: Seq<u8>, v: i64, r: bool) -> bool {
    match actor_ivar(m, a, id, iv) {
        Some(s) => r == (m.nodes[s as int] is Fixnum) && fixnum_set(m, m2, s, v),
        None => !r && m2 == m,
    }
}

/// The class id of an actor.
pub open spec fn class_id_of(m: TreeModel, x: u32) -> Option<i64> {
    match ivar_of(m, x, "class_id".spec_bytes()) {
        Some(c) => fixnum_of(m, c),
        None => None,
    }
}

/// A pair whose value is an integer.
pub open spec fn int_valued(m: TreeModel) -> spec_fn((u32, u32)) -> bool {
    |p: (u32, u32)| fixnum_of(m, p.1) is Some
}

/// Experience stored under the class of actor `x` in hash `e`, when an integer.
pub open spec fn by_class(m: TreeModel, x: u32, e: u32) -> Option<i64> {
    match class_id_of(m, x) {
        Some(cid) => match crate::marshal::tree::hash_int_of(m, e, cid) {
            Some(v) => fixnum_of(m, v),
            None => None,
        },
        None => None,
    }
}

/// Experience of actor node `x`: for a hash `@exp` (by class), the entry of its
/// class when that is an integer, else the first integer entry; else `@exp` itself.
pub open spec fn exp_of(m: TreeModel, x: u32) -> Option<i64> {
    match ivar_of(m, x, "exp".spec_bytes()) {
        Some(e) => match m.nodes[e as int] {
            Kind::Hash { pairs, .. } => {
                match by_class(m, x, e) {
                    Some(v) => Some(v),
                    None => match first_index(pairs@, int_valued(m)) {
                        Some(j) => fixnum_of(m, pairs@[j].1),
                        None => None,
                    },
                }
            },
            _ => fixnum_of(m, e),
        },
        None => None,
    }
}

/// A pair whose key reads (0 for non-integers) as the class id.
pub open spec fn class_keyed(m: TreeModel, cid: Option<i64>) -> spec_fn((u32, u32)) -> bool {
    |p: (u32, u32)| cid == Some(int_or_zero(m, p.0))
}

/// Integer value of a node, 0 when it is not an integer.
pub open spec fn int_or_zero(m: TreeModel, n: u32) -> i64 {
    match fixnum_of(m, n) {
        Some(v) => v,
        None => 0,
    }
}

/// Setting the experience of actor `id` to `exp`.  A hash `@exp` (experience per
/// class) gets the entry of the actor's class updated, or a new pair for that class
/// appended; an actor without a class id updates the first entry, or appends a pair
/// for class 1 to an empty hash.
pub open spec fn exp_set(m: TreeModel, m2: TreeModel, a: Option<u32>, id: u32, exp: i64, r: bool) -> bool {
    match actor_of(m, a, id) {
        Some(x) => match ivar_of(m, x, "exp".spec_bytes()) {
            Some(e) => if m.nodes[e as int] is Hash {
                let pairs = m.nodes[e as int]->Hash_pairs@;
                let cid = class_id_of(m, x);
                let pos = match first_index(pairs, class_keyed(m, cid)) {
                    Some(j) => Some(j),
                    None => if cid is None && pairs.len() > 0 { Some(0int) } else { None },
                };
                match pos {
                    Some(p) => r == (m.nodes[pairs[p].1 as int] is Fixnum) && fixnum_set(m, m2, pairs[p].1, exp),
                    None => r && pair_added(m, m2, e, match cid {
                        Some(c) => c,
                        None => 1,
                    }, exp),
                }
            } else {
                r == (m.nodes[e as int] is Fixnum) && fixnum_set(m, m2, e, exp)
            },
            None => !r && m2 == m,
        },
        None => !r && m2 == m,
    }
}

/// Editing the experience of actor `id` resolves.
pub open spec fn exp_editable(m: TreeModel, a: Option<u32>, id: u32) -> bool {
    &&& actor_usable(m, a, id)
    &&& opt_slot(m, actor_ivar(m, a, id, "exp".spec_bytes()))
    &&& (actor_ivar(m, a, id, "exp".spec_bytes()) matches Some(e) ==> (m.nodes[e as int] matches Kind::Hash { pairs, .. }
        ==> forall|j: int| 0 <= j < pairs@.len() ==> ((#[trigger] pairs@[j]).0 as nat) < m.nodes.len()
            && (pairs@[j].1 as nat) < m.nodes.len()))
}

/// The level that experience `exp` reaches on table `exps`: the last level `i`
/// (from 1) up to which every entry is at most `exp`, and 1 when there is none.
pub open spec fn level_for(exps: Seq<i64>, exp: i64) -> i64 {
    let n = reach(exps, exp, 1);
    if n <= 1 { 1 } else { (n - 1) as i64 }
}

/// First index from `i` on whose entry exceeds `exp` (the length when none does).
pub open spec fn reach(exps: Seq<i64>, exp: i64, i: int) -> int
    decreases exps.len() - i,
{
    if i >= exps.len() {
        exps.len() as int
    } else if exps[i] <= exp {
        reach(exps, exp, i + 1)
    } else {
        i
    }
}

/// Experience wanted for `level` on table `exps`: its entry, else the last one.
pub open spec fn needed_exp(exps: Seq<i64>, level: i64) -> i64 {
    let i = (level as usize) as int;
    if i < exps.len() { exps[i] } else { exps.last() }
}

/// What scanning the table from `i` finds: entries `i` up to the stop are at
/// most `exp`, and the entry at the stop (if any) exceeds it.
proof fn lemma_reach(exps: Seq<i64>, exp: i64, i: int)
    requires
        1 <= i <= exps.len(),
    ensures
        i <= reach(exps, exp, i) <= exps.len(),
        forall|j: int| i <= j < reach(exps, exp, i) ==> exps[j] <= exp,
        reach(exps, exp, i) < exps.len() ==> exps[reach(exps, exp, i)] > exp,
    decreases exps.len() - i,
{
    if i < exps.len() && exps[i] <= exp {
        lemma_reach(exps, exp, i + 1);
    }
}

/// The level that experience `exp` reaches on table `exps` (entry `i` being
/// the total experience for level `i`): when level 1's entry is within `exp`,
/// the level is the largest `L` such that every entry from 1 to `L` is at most
/// `exp`, so the entry after it (if any) exceeds `exp`; otherwise it is 1.
pub proof fn law_level_for_exp(exps: Seq<i64>, exp: i64)
    requires
        exps.len() < 0x8000_0000_0000_0000,
    ensures
        1 <= level_for(exps, exp),
        exps.len() > 1 && exps[1] <= exp ==> {
            let l = level_for(exps, exp) as int;
            &&& l < exps.len()
            &&& forall|j: int| 1 <= j <= l ==> exps[j] <= exp
            &&& l + 1 < exps.len() ==> exps[l + 1] > exp
        },
        exps.len() <= 1 || exps[1] > exp ==> level_for(exps, exp) == 1,
{
    if exps.len() >= 1 {
        lemma_reach(exps, exp, 1);
    }
}

/// Experience for a level and the level of that experience agree: on a
/// table that grows from level 1 on, setting level `level` writes the
/// experience `needed_exp(exps, level)`, and that experience reaches exactly
/// `level` again.
pub proof fn law_level_exp_agree(exps: Seq<i64>, level: i64)
    requires
        exps.len() <= usize::MAX,
        1 <= level < exps.len(),
        forall|i: int, j: int| 1 <= i < j < exps.len() ==> exps[i] < exps[j],
    ensures
        level_for(exps, needed_exp(exps, level)) == level,
{
    law_needed_exp(exps, level);
    let e = exps[level as int];
    lemma_reach(exps, e, 1);
    let n = reach(exps, e, 1);
    if n <= level {
        assert(exps[n] > e);
        if n < level {
            assert(exps[n] < exps[level as int]);
        }
    }
    if n > level + 1 {
        assert(exps[level + 1] <= e);
        assert(exps[level as int] < exps[level + 1]);
    }
}

/// The experience that setting a level writes: the table entry of that
/// level when the table has one, else the table's last entry.
pub proof fn law_needed_exp(exps: Seq<i64>, level: i64)
    ensures
        0 <= level < exps.len() && level <= usize::MAX ==> needed_exp(exps, level) == exps[level as int],
        exps.len() > 0 && exps.len() <= level <= usize::MAX ==> needed_exp(exps, level) == exps[exps.len() - 1],
{
}

impl SaveData {
    /// Name of actor `id` (`角色 <id>` when it has no string name); `None` without the actor.
    pub fn actor_name(&self, id: u32) -> (r: Option<String>)
        requires
            self.tree@.refs_ok(),
            actor_usable(self.tree@, self.actors_part(), id),
        ensures
            match actor_of(self.tree@, self.actors_part(), id) {
                Some(x) => r matches Some(s) && s@ == match ivar_of(self.tree@, x, "name".spec_bytes()) {
                    Some(n) => match string_of(self.tree@, n) {
                        Some(t) => t,
                        None => "角色 "@ + dec_chars(id as nat),
                    },
                    None => "角色 "@ + dec_chars(id as nat),
                },
                None => r is None,
            },
    {
        let actor = self.actor(id)?;
        let named = match self.tree.ivar(actor, "name") {
            Some(n) => self.tree.as_string(n),
            None => None,
        };
        match named {
            Some(s) => Some(s),
            None => Some(numbered("角色 ", id)),
        }
    }

    /// Integer stat `iv` of actor `id`.
    pub fn actor_stat(&self, id: u32, iv: &str) -> (r: Option<i64>)
        requires
            self.tree@.refs_ok(),
            actor_usable(self.tree@, self.actors_part(), id),
        ensures
            r == match actor_ivar(self.tree@, self.actors_part(), id, iv.spec_bytes()) {
                Some(v) => fixnum_of(self.tree@, v),
                None => None,
            },
    {
        let actor = self.actor(id)?;
        let v = self.tree.ivar(actor, iv)?;
        self.tree.as_fixnum(v)
    }

    /// Sets integer stat `iv` of actor `id`; refused without an integer there.
    pub fn set_actor_stat(&mut self, id: u32, iv: &str, v: i64) -> (r: bool)
        requires
            old(self).tree@.refs_ok(),
            actor_usable(old(self).tree@, old(self).actors_part(), id),
            opt_slot(old(self).tree@, actor_ivar(old(self).tree@, old(self).actors_part(), id, iv.spec_bytes())),
        ensures
            stat_set(old(self).tree@, final(self).tree@, old(self).actors_part(), id, iv.spec_bytes(), v, r),
            final(self).same_besides_tree(*old(self)),
            old(self).tree@.wf() ==> final(self).tree@.wf(),
            final(self).tree@.refs_ok(),
    {
        let actor = match self.actor(id) {
            Some(a) => a,
            None => return false,
        };
        let slot = match self.tree.ivar(actor, iv) {
            Some(s) => s,
            None => return false,
        };
        self.tree.set_fixnum(slot, v)
    }

    /// Experience of actor `id` (see `exp_of`).
    pub fn actor_exp(&self, id: u32) -> (r: Option<i64>)
        requires
            self.tree@.refs_ok(),
            exp_editable(self.tree@, self.actors_part(), id),
        ensures
            r == match actor_of(self.tree@, self.actors_part(), id) {
                Some(x) => exp_of(self.tree@, x),
                None => None,
            },
    {
        let actor = self.actor(id)?;
        let e = self.tree.ivar(actor, "exp")?;
        match self.tree.kind(e) {
            Kind::Hash { pairs, .. } => {
                let class_id = match self.tree.ivar(actor, "class_id") {
                    Some(c) => self.tree.as_fixnum(c),
                    None => None,
                };
                if let Some(cid) = class_id {
                    assert(self.tree@.node_ok(e));
                    if let Some(v) = self.tree.hash_get_int(e, cid) {
                        if let Some(exp) = self.tree.as_fixnum(v) {
                            return Some(exp);
                        }
                    }
                }
                let ghost pick = int_valued(self.tree@);
                let mut j: usize = 0;
                while j < pairs.len()
                    invariant
                        by_class(self.tree@, actor, e) is None,
                        actor_of(self.tree@, self.actors_part(), id) == Some(actor),
                        ivar_of(self.tree@, actor, "exp".spec_bytes()) == Some(e),
                        self.tree@.refs_ok(),
                        (e as nat) < self.tree@.nodes.len(),
                        self.tree@.nodes[e as int] matches Kind::Hash { pairs: ps, .. } && ps@ == pairs@,
                        pick == int_valued(self.tree@),
                        j <= pairs@.len(),
                        forall|k: int| 0 <= k < j ==> !pick(#[trigger] pairs@[k]),
                    decreases pairs@.len() - j,
                {
                    assert(self.tree@.node_ok(e));
                    if let Some(x) = self.tree.as_fixnum(pairs[j].1) {
                        proof {
                            lemma_first_index_at(pairs@, pick, j as int);
                        }
                        return Some(x);
                    }
                    j = j + 1;
                }
                proof {
                    lemma_first_index_none(pairs@, pick);
                }
                None
            },
            _ => self.tree.as_fixnum(e),
        }
    }

    /// Sets the experience of actor `id` (see `exp_set`).
    pub fn set_actor_exp(&mut self, id: u32, exp: i64) -> (r: bool)
        requires
            old(self).tree@.refs_ok(),
            exp_editable(old(self).tree@, old(self).actors_part(), id),
            old(self).tree@.nodes.len() + 2 < NIL_NODE,
        ensures
            exp_set(old(self).tree@, final(self).tree@, old(self).actors_part(), id, exp, r),
            final(self).same_besides_tree(*old(self)),
            old(self).tree@.wf() ==> final(self).tree@.wf(),
            final(self).tree@.refs_ok(),
    {
        let actor = match self.actor(id) {
            Some(a) => a,
            None => return false,
        };
        let e = match self.tree.ivar(actor, "exp") {
            Some(e) => e,
            None => return false,
        };
        let is_hash = match self.tree.kind(e) {
            Kind::Hash { .. } => true,
            _ => false,
        };
        if !is_hash {
            return self.tree.set_fixnum(e, exp);
        }
        let class_id = match self.tree.ivar(actor, "class_id") {
            Some(c) => self.tree.as_fixnum(c),
            None => None,
        };
        let ghost m = self.tree@;
        let ghost pick = class_keyed(m, class_id);
        let mut target: Option<u32> = None;
        if let Kind::Hash { pairs, .. } = self.tree.kind(e) {
            let mut pos: Option<usize> = None;
            let mut j: usize = 0;
            while j < pairs.len() && pos.is_none()
                invariant
                    self.tree@ == m,
                    m.refs_ok(),
                    (e as nat) < m.nodes.len(),
                    m.nodes[e as int] matches Kind::Hash { pairs: ps, .. } && ps@ == pairs@,
                    pick == class_keyed(m, class_id),
                    j <= pairs@.len(),
                    pos is None ==> forall|k: int| 0 <= k < j ==> !pick(#[trigger] pairs@[k]),
                    pos matches Some(q) ==> q < pairs@.len() && is_first(pairs@, pick, q as int),
                decreases pairs@.len() - j,
            {
                assert(m.node_ok(e));
                let kv = match self.tree.as_fixnum(pairs[j].0) {
                    Some(v) => v,
                    None => 0,
                };
                if class_id == Some(kv) {
                    pos = Some(j);
                }
                j = j + 1;
            }
            proof {
                match pos {
                    Some(q) => lemma_first_index_at(pairs@, pick, q as int),
                    None => lemma_first_index_none(pairs@, pick),
                }
            }
            if pos.is_none() && pairs.len() > 0 && class_id.is_none() {
                pos = Some(0);
            }
            if let Some(p) = pos {
                target = Some(pairs[p].1);
            }
        }
        if let Some(v) = target {
            return self.tree.set_fixnum(v, exp);
        }
        let key = self.tree.new_fixnum(match class_id {
            Some(c) => c,
            None => 1,
        });
        let val = self.tree.new_fixnum(exp);
        self.tree.hash_insert(e, key, val);
        true
    }
}


/// What editing the level and experience of any actor reads resolves: the actor
/// table, its keys and actors, and each actor's `@level` and `@exp` (with the
/// keys and values of a hash `@exp`).
pub open spec fn actors_editable(m: TreeModel, a: Option<u32>) -> bool {
    &&& opt_slot(m, actor_table(m, a))
    &&& (actor_table(m, a) matches Some(h) ==> match m.nodes[h as int] {
        Kind::Hash { pairs, .. } => forall|j: int| 0 <= j < pairs@.len() ==> ((#[trigger] pairs@[j]).0 as nat) < m.nodes.len()
            && (pairs@[j].1 as nat) < m.nodes.len() && level_exp_ok(m, pairs@[j].1),
        Kind::Array(items) => forall|i: int| 0 <= i < items@.len() ==> #[trigger] items@[i] != TRUE_NODE && items@[i]
            != FALSE_NODE && (holds_actor(m, items@[i]) ==> level_exp_ok(m, items@[i])),
        _ => true,
    })
}

/// `@level` and `@exp` of actor node `x` resolve.
pub open spec fn level_exp_ok(m: TreeModel, x: u32) -> bool {
    &&& opt_slot(m, ivar_of(m, x, "level".spec_bytes()))
    &&& opt_slot(m, ivar_of(m, x, "exp".spec_bytes()))
    &&& (ivar_of(m, x, "exp".spec_bytes()) matches Some(e) ==> (m.nodes[e as int] matches Kind::Hash { pairs, .. }
        ==> forall|j: int| 0 <= j < pairs@.len() ==> ((#[trigger] pairs@[j]).0 as nat) < m.nodes.len()
            && (pairs@[j].1 as nat) < m.nodes.len()))
}

proof fn lemma_editable_gives(m: TreeModel, a: Option<u32>, id: u32)
    requires
        m.refs_ok(),
        actors_editable(m, a),
    ensures
        exp_editable(m, a, id),
        opt_slot(m, actor_ivar(m, a, id, "level".spec_bytes())),
{
    match actor_of(m, a, id) {
        Some(x) => {
            let h = actor_table(m, a)->0;
            match m.nodes[h as int] {
                Kind::Hash { pairs, .. } => {
                    let j = first_index(pairs@, int_keyed_pair(m, id as i64))->0;
                    crate::util::lemma_first_index_some(pairs@, int_keyed_pair(m, id as i64));
                    assert(level_exp_ok(m, pairs@[j].1));
                },
                Kind::Array(items) => {
                    assert(level_exp_ok(m, items@[id as int]));
                    assert(crate::marshal::model::kind_ok(m.nodes[h as int], m.nodes.len(), m.syms.len()));
                },
                _ => {},
            }
        },
        None => {},
    }
}

proof fn lemma_fixnum_keeps_editable(m: TreeModel, a: Option<u32>, s: u32, v: i64)
    requires
        m.refs_ok(),
        actors_editable(m, a),
        (s as nat) < m.nodes.len(),
        m.nodes[s as int] is Fixnum,
    ensures
        with_node(m, s, Kind::Fixnum(v)).refs_ok(),
        actors_editable(with_node(m, s, Kind::Fixnum(v)), a),
{
    let m2 = with_node(m, s, Kind::Fixnum(v));
    crate::marshal::model::lemma_refs_ok_replace(m, s as int, Kind::Fixnum(v));
    assert forall|x: u32, name: Seq<u8>| (x as nat) < m.nodes.len() implies ivar_of(m2, x, name) == ivar_of(m, x, name) by {
        assert(crate::marshal::tree::named_pair(m2, crate::marshal::tree::ivar_key(name)) =~= crate::marshal::tree::named_pair(m, crate::marshal::tree::ivar_key(name)));
        if x != s {
            assert(m2.nodes[x as int] == m.nodes[x as int]);
        }
    }
    assert forall|it: u32| holds_actor(m2, it) == holds_actor(m, it) by {
        if (it as nat) < m.nodes.len() && it != s {
            assert(m2.nodes[it as int] == m.nodes[it as int]);
        }
    }
    assert forall|x: u32| (x as nat) < m.nodes.len() && level_exp_ok(m, x) implies level_exp_ok(m2, x) by {
        assert(ivar_of(m2, x, "level".spec_bytes()) == ivar_of(m, x, "level".spec_bytes()));
        assert(ivar_of(m2, x, "exp".spec_bytes()) == ivar_of(m, x, "exp".spec_bytes()));
        if let Some(e) = ivar_of(m, x, "exp".spec_bytes()) {
            if e != s {
                assert(m2.nodes[e as int] == m.nodes[e as int]);
            }
        }
    }
    if let Some(h) = actor_table(m, a) {
        if h != s {
            assert(m2.nodes[h as int] == m.nodes[h as int]);
        }
    }
}

proof fn lemma_pair_added_keeps_editable(m: TreeModel, m2: TreeModel, e: u32, key: i64, value: i64, a: Option<u32>)
    requires
        m.refs_ok(),
        actors_editable(m, a),
        (e as nat) < m.nodes.len(),
        m.nodes[e as int] is Hash,
        pair_added(m, m2, e, key, value),
    ensures
        actors_editable(m2, a),
{
    assert forall|x: u32, name: Seq<u8>| (x as nat) < m.nodes.len() implies ivar_of(m2, x, name) == ivar_of(m, x, name) by {
        assert(crate::marshal::tree::named_pair(m2, crate::marshal::tree::ivar_key(name)) =~= crate::marshal::tree::named_pair(m, crate::marshal::tree::ivar_key(name)));
        if x != e {
            assert(m2.nodes[x as int] == m.nodes[x as int]);
        }
    }
    assert forall|it: u32| holds_actor(m2, it) == holds_actor(m, it) by {
        if (it as nat) < m.nodes.len() && it != e {
            assert(m2.nodes[it as int] == m.nodes[it as int]);
        }
    }
    assert forall|x: u32| (x as nat) < m.nodes.len() && level_exp_ok(m, x) implies level_exp_ok(m2, x) by {
        assert(ivar_of(m2, x, "level".spec_bytes()) == ivar_of(m, x, "level".spec_bytes()));
        assert(ivar_of(m2, x, "exp".spec_bytes()) == ivar_of(m, x, "exp".spec_bytes()));
        if let Some(ex) = ivar_of(m, x, "exp".spec_bytes()) {
            if ex != e {
                assert(m2.nodes[ex as int] == m.nodes[ex as int]);
            } else {
                let p2 = m2.nodes[e as int]->Hash_pairs@;
                assert forall|j: int| 0 <= j < p2.len() implies ((#[trigger] p2[j]).0 as nat) < m2.nodes.len()
                    && (p2[j].1 as nat) < m2.nodes.len() by {
                }
            }
        }
    }
    if let Some(h) = actor_table(m, a) {
        if h != e {
            assert(m2.nodes[h as int] == m.nodes[h as int]);
        } else {
            let p2 = m2.nodes[h as int]->Hash_pairs@;
            assert forall|j: int| 0 <= j < p2.len() implies ((#[trigger] p2[j]).0 as nat) < m2.nodes.len()
                && (p2[j].1 as nat) < m2.nodes.len() && level_exp_ok(m2, p2[j].1) by {
                if j == p2.len() - 1 {
                    assert(ivar_of(m2, p2[j].1, "level".spec_bytes()) is None);
                    assert(ivar_of(m2, p2[j].1, "exp".spec_bytes()) is None);
                }
            }
        }
    }
}

proof fn lemma_exp_set_keeps_editable(m: TreeModel, m2: TreeModel, a: Option<u32>, id: u32, exp: i64, r: bool)
    requires
        m.refs_ok(),
        actors_editable(m, a),
        exp_editable(m, a, id),
        exp_set(m, m2, a, id, exp, r),
    ensures
        actors_editable(m2, a),
{
    if let Some(x) = actor_of(m, a, id) {
        if let Some(e) = ivar_of(m, x, "exp".spec_bytes()) {
            if m.nodes[e as int] is Hash {
                let pairs = m.nodes[e as int]->Hash_pairs@;
                let cid = class_id_of(m, x);
                let pos = match first_index(pairs, class_keyed(m, cid)) {
                    Some(j) => Some(j),
                    None => if pairs.len() > 0 { Some(0int) } else { None },
                };
                match pos {
                    Some(p) => {
                        if first_index(pairs, class_keyed(m, cid)) is Some {
                            crate::util::lemma_first_index_some(pairs, class_keyed(m, cid));
                        }
                        if m.nodes[pairs[p].1 as int] is Fixnum {
                            lemma_fixnum_keeps_editable(m, a, pairs[p].1, exp);
                        }
                    },
                    None => {
                        lemma_pair_added_keeps_editable(m, m2, e, match cid {
                            Some(c) => c,
                            None => 1,
                        }, exp, a);
                    },
                }
            } else if m.nodes[e as int] is Fixnum {
                lemma_fixnum_keeps_editable(m, a, e, exp);
            }
        }
    }
}

impl SaveData {
    /// Sets the level of actor `id` and, given the class experience table, its
    /// experience to the entry for that level (the last entry past the end).
    /// Refused without an integer `@level`.
    pub fn set_actor_level_sync(&mut self, id: u32, level: i64, exps: &[i64]) -> (r: bool)
        requires
            old(self).tree@.refs_ok(),
            actors_editable(old(self).tree@, old(self).actors_part()),
            old(self).tree@.nodes.len() + 2 < NIL_NODE,
        ensures
            stat_set(
                old(self).tree@,
                if r && exps@.len() > 0 { with_node(old(self).tree@, actor_ivar(old(self).tree@, old(self).actors_part(), id, "level".spec_bytes())->0, Kind::Fixnum(level)) } else { final(self).tree@ },
                old(self).actors_part(),
                id,
                "level".spec_bytes(),
                level,
                r,
            ),
            r && exps@.len() > 0 ==> exists|r2: bool| exp_set(
                with_node(old(self).tree@, actor_ivar(old(self).tree@, old(self).actors_part(), id, "level".spec_bytes())->0, Kind::Fixnum(level)),
                final(self).tree@,
                old(self).actors_part(),
                id,
                needed_exp(exps@, level),
                r2,
            ),
            final(self).same_besides_tree(*old(self)),
            old(self).tree@.wf() ==> final(self).tree@.wf(),
            final(self).tree@.refs_ok(),
    {
        let ghost m = self.tree@;
        proof {
            lemma_editable_gives(m, self.actors_part(), id);
        }
        if !self.set_actor_stat(id, "level", level) {
            return false;
        }
        if exps.len() > 0 {
            let ghost s = actor_ivar(m, self.actors_part(), id, "level".spec_bytes())->0;
            proof {
                lemma_fixnum_keeps_editable(m, self.actors_part(), s, level);
                lemma_editable_gives(self.tree@, self.actors_part(), id);
            }
            let i = level as usize;
            let needed = if i < exps.len() { exps[i] } else { exps[exps.len() - 1] };
            let ghost m1 = self.tree@;
            let r2 = self.set_actor_exp(id, needed);
            proof {
                assert(m1 == with_node(m, s, Kind::Fixnum(level)));
                assert(exp_set(m1, self.tree@, self.actors_part(), id, needed_exp(exps@, level), r2));
            }
        }
        true
    }

    /// Sets the experience of actor `id` and, given the class experience table,
    /// its level to the one that experience reaches, which it returns
    /// (`None` without a table, the level then unchanged).
    pub fn set_actor_exp_sync(&mut self, id: u32, exp: i64, exps: &[i64]) -> (r: Option<i64>)
        requires
            old(self).tree@.refs_ok(),
            actors_editable(old(self).tree@, old(self).actors_part()),
            old(self).tree@.nodes.len() + 2 < NIL_NODE,
        ensures
            exps@.len() == 0 ==> r is None && exists|r1: bool| exp_set(old(self).tree@, final(self).tree@, old(self).actors_part(), id, exp, r1),
            exps@.len() > 0 ==> r == Some(level_for(exps@, exp)) && exists|m1: TreeModel, r1: bool, r2: bool|
                exp_set(old(self).tree@, m1, old(self).actors_part(), id, exp, r1)
                && stat_set(m1, final(self).tree@, old(self).actors_part(), id, "level".spec_bytes(), level_for(exps@, exp), r2),
            final(self).same_besides_tree(*old(self)),
            old(self).tree@.wf() ==> final(self).tree@.wf(),
            final(self).tree@.refs_ok(),
    {
        let ghost m = self.tree@;
        proof {
            lemma_editable_gives(m, self.actors_part(), id);
        }
        let r1 = self.set_actor_exp(id, exp);
        let ghost m1 = self.tree@;
        if exps.len() == 0 {
            return None;
        }
        let mut level: i64 = 1;
        let mut i: usize = 1;
        let mut stop = false;
        while i < exps.len() && !stop
            invariant
                1 <= i <= exps@.len() || (exps@.len() == 0),
                exps@.len() > 0,
                !stop ==> reach(exps@, exp, 1) == reach(exps@, exp, i as int),
                stop ==> reach(exps@, exp, 1) == i - 1,
                level == (if i <= 1 || (stop && i - 1 <= 1) { 1 } else if stop { (i - 2) as i64 } else { (i - 1) as i64 }),
            decreases exps@.len() - i,
        {
            if exps[i] <= exp {
                level = i as i64;
            } else {
                stop = true;
            }
            i = i + 1;
        }
        proof {
            if !stop {
                assert(reach(exps@, exp, i as int) == exps@.len());
            }
        }
        assert(level == level_for(exps@, exp));
        proof {
            assert(m1.refs_ok());
        }
        proof {
            lemma_exp_set_keeps_editable(m, m1, self.actors_part(), id, exp, r1);
            lemma_editable_gives(m1, self.actors_part(), id);
        }
        let r2 = self.set_actor_stat(id, "level", level);
        Some(level)
    }
}


/// The tree after a new `val` node is appended to array node `d`.
pub open spec fn item_pushed(m: TreeModel, m2: TreeModel, d: u32, val: Kind) -> bool {
    let n0 = m.nodes.len();
    &&& m2.syms == m.syms
    &&& m2.root == m.root
    &&& m2.nodes.len() == n0 + 1
    &&& forall|k: int| 0 <= k < n0 && k != d ==> m2.nodes[k] == m.nodes[k]
    &&& m2.nodes[n0 as int] == val
    &&& m2.nodes[d as int] matches Kind::Array(v) && v@ == m.nodes[d as int]->Array_0@.push(n0 as u32)
}

/// Equipment slot value: the item's integer (0 for others), negative ones as 0.
pub open spec fn equip_value(m: TreeModel, it: u32) -> u32 {
    let v = int_or_zero(m, it);
    (if v < 0 { 0 } else { v }) as u32
}

/// The array node in instance variable `iv` of actor `id`, when it is an array.
pub open spec fn actor_array(m: TreeModel, a: Option<u32>, id: u32, iv: Seq<u8>) -> Option<Seq<u32>> {
    match actor_ivar(m, a, id, iv) {
        Some(e) => match m.nodes[e as int] {
            Kind::Array(items) => Some(items@),
            _ => None,
        },
        None => None,
    }
}

/// Reading array `iv` of actor `id` resolves.
pub open spec fn actor_array_ok(m: TreeModel, a: Option<u32>, id: u32, iv: Seq<u8>) -> bool {
    actor_usable(m, a, id) && opt_slot(m, actor_ivar(m, a, id, iv))
}

/// Whether any item of the first `n` is the integer `key`.
pub open spec fn has_int(m: TreeModel, items: Seq<u32>, key: i64) -> bool {
    exists|j: int| 0 <= j < items.len() && fixnum_of(m, #[trigger] items[j]) == Some(key)
}

/// The items that are not the integer `key`, in order.
pub open spec fn without_int(m: TreeModel, items: Seq<u32>, key: i64) -> Seq<u32> {
    items.filter(|it: u32| fixnum_of(m, it) != Some(key))
}

impl SaveData {
    /// Equipment of actor `id` by slot (item ids; 0 for an empty or odd slot).
    pub fn actor_equips(&self, id: u32) -> (r: Vec<u32>)
        requires
            self.tree@.refs_ok(),
            actor_array_ok(self.tree@, self.actors_part(), id, "equips".spec_bytes()),
        ensures
            r@ == match actor_array(self.tree@, self.actors_part(), id, "equips".spec_bytes()) {
                Some(items) => items.map_values(|it: u32| equip_value(self.tree@, it)),
                None => Seq::empty(),
            },
    {
        let actor = match self.actor(id) {
            Some(a) => a,
            None => return Vec::new(),
        };
        let e = match self.tree.ivar(actor, "equips") {
            Some(e) => e,
            None => return Vec::new(),
        };
        let mut out: Vec<u32> = Vec::new();
        if let Kind::Array(items) = self.tree.kind(e) {
            let mut i: usize = 0;
            while i < items.len()
                invariant
                    self.tree@.refs_ok(),
                    (e as nat) < self.tree@.nodes.len(),
                    self.tree@.nodes[e as int] == Kind::Array(*items),
                    i <= items@.len(),
                    out@ == items@.subrange(0, i as int).map_values(|it: u32| equip_value(self.tree@, it)),
                decreases items@.len() - i,
            {
                assert(self.tree@.node_ok(e));
                let v = match self.tree.as_fixnum(items[i]) {
                    Some(v) => v,
                    None => 0,
                };
                let v = if v < 0 { 0 } else { v };
                out.push(v as u32);
                i = i + 1;
                assert(out@ =~= items@.subrange(0, i as int).map_values(|it: u32| equip_value(self.tree@, it)));
            }
            assert(items@.subrange(0, items@.len() as int) =~= items@);
        }
        out
    }

    /// Puts item `item_id` in equipment slot `slot` of actor `id` (a new integer
    /// node); refused without such a slot.
    pub fn set_actor_equip(&mut self, id: u32, slot: usize, item_id: u32) -> (r: bool)
        requires
            old(self).tree@.refs_ok(),
            actor_array_ok(old(self).tree@, old(self).actors_part(), id, "equips".spec_bytes()),
            old(self).tree@.nodes.len() + 1 < NIL_NODE,
        ensures
            r == (actor_array(old(self).tree@, old(self).actors_part(), id, "equips".spec_bytes()) matches Some(items)
                && slot < items.len()),
            !r ==> final(self).tree@ == old(self).tree@,
            r ==> item_set(
                old(self).tree@,
                final(self).tree@,
                actor_ivar(old(self).tree@, old(self).actors_part(), id, "equips".spec_bytes())->0,
                slot as nat,
                Kind::Nil,
                Kind::Fixnum(item_id as i64),
            ),
            final(self).same_besides_tree(*old(self)),
            old(self).tree@.wf() ==> final(self).tree@.wf(),
            final(self).tree@.refs_ok(),
    {
        let actor = match self.actor(id) {
            Some(a) => a,
            None => return false,
        };
        let e = match self.tree.ivar(actor, "equips") {
            Some(e) => e,
            None => return false,
        };
        let has_slot = match self.tree.kind(e) {
            Kind::Array(items) => slot < items.len(),
            _ => false,
        };
        if !has_slot {
            return false;
        }
        let val = self.tree.new_fixnum(item_id as i64);
        self.tree.array_set(e, slot, val);
        true
    }

    /// Skill ids of actor `id`.
    pub fn actor_skills(&self, id: u32) -> (r: Vec<u32>)
        requires
            self.tree@.refs_ok(),
            actor_array_ok(self.tree@, self.actors_part(), id, "skills".spec_bytes()),
        ensures
            r@ == match actor_array(self.tree@, self.actors_part(), id, "skills".spec_bytes()) {
                Some(items) => ints_as_ids(self.tree@, items, items.len() as int),
                None => Seq::empty(),
            },
    {
        self.actor_id_array(id, "skills")
    }

    /// State ids of actor `id`.
    pub fn actor_states(&self, id: u32) -> (r: Vec<u32>)
        requires
            self.tree@.refs_ok(),
            actor_array_ok(self.tree@, self.actors_part(), id, "states".spec_bytes()),
        ensures
            r@ == match actor_array(self.tree@, self.actors_part(), id, "states".spec_bytes()) {
                Some(items) => ints_as_ids(self.tree@, items, items.len() as int),
                None => Seq::empty(),
            },
    {
        self.actor_id_array(id, "states")
    }

    fn actor_id_array(&self, id: u32, iv: &str) -> (r: Vec<u32>)
        requires
            self.tree@.refs_ok(),
            actor_array_ok(self.tree@, self.actors_part(), id, iv.spec_bytes()),
        ensures
            r@ == match actor_array(self.tree@, self.actors_part(), id, iv.spec_bytes()) {
                Some(items) => ints_as_ids(self.tree@, items, items.len() as int),
                None => Seq::empty(),
            },
    {
        let actor = match self.actor(id) {
            Some(a) => a,
            None => return Vec::new(),
        };
        let arr = match self.tree.ivar(actor, iv) {
            Some(a) => a,
            None => return Vec::new(),
        };
        match self.tree.kind(arr) {
            Kind::Array(items) => {
                assert(self.tree@.node_ok(arr));
                ids_of_ints(&self.tree, items)
            },
            _ => Vec::new(),
        }
    }

    /// Adds id `item_id` to array `iv` (skills, states) of actor `id` unless it is
    /// there already; refused without such an array.
    pub fn actor_add_id(&mut self, id: u32, iv: &str, item_id: u32) -> (r: bool)
        requires
            old(self).tree@.refs_ok(),
            actor_array_ok(old(self).tree@, old(self).actors_part(), id, iv.spec_bytes()),
            old(self).tree@.nodes.len() + 1 < NIL_NODE,
        ensures
            r == actor_array(old(self).tree@, old(self).actors_part(), id, iv.spec_bytes()) is Some,
            match actor_array(old(self).tree@, old(self).actors_part(), id, iv.spec_bytes()) {
                Some(items) => if has_int(old(self).tree@, items, item_id as i64) {
                    final(self).tree@ == old(self).tree@
                } else {
                    item_pushed(
                        old(self).tree@,
                        final(self).tree@,
                        actor_ivar(old(self).tree@, old(self).actors_part(), id, iv.spec_bytes())->0,
                        Kind::Fixnum(item_id as i64),
                    )
                },
                None => final(self).tree@ == old(self).tree@,
            },
            final(self).same_besides_tree(*old(self)),
            old(self).tree@.wf() ==> final(self).tree@.wf(),
            final(self).tree@.refs_ok(),
    {
        let actor = match self.actor(id) {
            Some(a) => a,
            None => return false,
        };
        let arr = match self.tree.ivar(actor, iv) {
            Some(a) => a,
            None => return false,
        };
        let key = item_id as i64;
        let exists = match self.tree.kind(arr) {
            Kind::Array(items) => {
                let mut found = false;
                let mut i: usize = 0;
                while i < items.len() && !found
                    invariant
                        self.tree@.refs_ok(),
                        (arr as nat) < self.tree@.nodes.len(),
                        self.tree@.nodes[arr as int] == Kind::Array(*items),
                        i <= items@.len(),
                        found == has_int(self.tree@, items@.subrange(0, i as int), key),
                    decreases items@.len() - i,
                {
                    assert(self.tree@.node_ok(arr));
                    let hit = self.tree.as_fixnum(items[i]) == Some(key);
                    proof {
                        let s1 = items@.subrange(0, i + 1);
                        if hit {
                            assert(s1[i as int] == items@[i as int]);
                        }
                        if has_int(self.tree@, s1, key) && !hit {
                            let j = choose|j: int| 0 <= j < s1.len() && fixnum_of(self.tree@, #[trigger] s1[j]) == Some(key);
                            assert(items@.subrange(0, i as int)[j] == s1[j]);
                        }
                        if has_int(self.tree@, items@.subrange(0, i as int), key) {
                            let j = choose|j: int| 0 <= j < i && fixnum_of(self.tree@, #[trigger] items@.subrange(0, i as int)[j]) == Some(key);
                            assert(s1[j] == items@.subrange(0, i as int)[j]);
                        }
                    }
                    found = hit;
                    i = i + 1;
                }
                proof {
                    if found {
                        let j = choose|j: int| 0 <= j < i && fixnum_of(self.tree@, #[trigger] items@.subrange(0, i as int)[j]) == Some(key);
                        assert(items@[j] == items@.subrange(0, i as int)[j]);
                    } else {
                        assert(items@.subrange(0, i as int) =~= items@);
                    }
                }
                found
            },
            _ => return false,
        };
        if exists {
            return true;
        }
        let ghost m = self.tree@;
        let ghost items = m.nodes[arr as int]->Array_0@;
        let val = self.tree.new_fixnum(key);
        self.tree.array_push(arr, val);
        true
    }

    /// Removes every integer `item_id` from array `iv` (skills, states) of actor
    /// `id`; refused without such an array.
    pub fn actor_remove_id(&mut self, id: u32, iv: &str, item_id: u32) -> (r: bool)
        requires
            old(self).tree@.refs_ok(),
            actor_array_ok(old(self).tree@, old(self).actors_part(), id, iv.spec_bytes()),
        ensures
            r == actor_array(old(self).tree@, old(self).actors_part(), id, iv.spec_bytes()) is Some,
            match actor_array(old(self).tree@, old(self).actors_part(), id, iv.spec_bytes()) {
                Some(items) => {
                    let e = actor_ivar(old(self).tree@, old(self).actors_part(), id, iv.spec_bytes())->0;
                    &&& final(self).tree@.syms == old(self).tree@.syms
                    &&& final(self).tree@.root == old(self).tree@.root
                    &&& final(self).tree@.nodes.len() == old(self).tree@.nodes.len()
                    &&& forall|k: int| 0 <= k < old(self).tree@.nodes.len() && k != e ==> final(self).tree@.nodes[k] == old(self).tree@.nodes[k]
                    &&& final(self).tree@.nodes[e as int] matches Kind::Array(v) && v@ == without_int(old(self).tree@, items, item_id as i64)
                },
                None => final(self).tree@ == old(self).tree@,
            },
            final(self).same_besides_tree(*old(self)),
            old(self).tree@.wf() ==> final(self).tree@.wf(),
            final(self).tree@.refs_ok(),
    {
        let actor = match self.actor(id) {
            Some(a) => a,
            None => return false,
        };
        let arr = match self.tree.ivar(actor, iv) {
            Some(a) => a,
            None => return false,
        };
        let key = item_id as i64;
        let keep = match self.tree.kind(arr) {
            Kind::Array(items) => {
                let ghost pred = |it: u32| fixnum_of(self.tree@, it) != Some(key);
                let mut keep: Vec<u32> = Vec::new();
                let mut i: usize = 0;
                while i < items.len()
                    invariant
                        self.tree@.refs_ok(),
                        (arr as nat) < self.tree@.nodes.len(),
                        self.tree@.nodes[arr as int] == Kind::Array(*items),
                        pred == (|it: u32| fixnum_of(self.tree@, it) != Some(key)),
                        i <= items@.len(),
                        keep@ == items@.subrange(0, i as int).filter(pred),
                        crate::marshal::model::refs_below(keep@, self.tree@.nodes.len()),
                    decreases items@.len() - i,
                {
                    assert(self.tree@.node_ok(arr));
                    let it = items[i];
                    proof {
                        assert(items@.subrange(0, i + 1).drop_last() =~= items@.subrange(0, i as int));
                        items@.subrange(0, i as int).lemma_filter_push(it, pred);
                        assert(items@.subrange(0, i as int).push(it) =~= items@.subrange(0, i + 1));
                    }
                    if self.tree.as_fixnum(it) != Some(key) {
                        keep.push(it);
                    }
                    i = i + 1;
                }
                assert(items@.subrange(0, items@.len() as int) =~= items@);
                keep
            },
            _ => return false,
        };
        self.tree.array_replace(arr, keep);
        true
    }
}


/// Value of item `id` of the `@data` array of a part read as a switch.
pub open spec fn switch_of(m: TreeModel, obj: Option<u32>, id: u32) -> Option<bool> {
    match data_items(m, obj) {
        Some(items) => if (id as nat) < items.len() {
            Some(match bool_of(m, items[id as int]) {
                Some(b) => b,
                None => false,
            })
        } else {
            None
        },
        None => None,
    }
}

/// Value of item `id` of the `@data` array of a part read as a variable.
pub open spec fn variable_of(m: TreeModel, obj: Option<u32>, id: u32) -> Option<i64> {
    match data_items(m, obj) {
        Some(items) => if (id as nat) < items.len() {
            Some(match fixnum_of(m, items[id as int]) {
                Some(v) => v,
                None => 0,
            })
        } else {
            None
        },
        None => None,
    }
}

proof fn lemma_item_set_keeps_data(m: TreeModel, m2: TreeModel, obj: Option<u32>, id: nat, fill: Kind, val: Kind)
    requires
        m.refs_ok(),
        data_node(m, obj) is Some,
        item_set(m, m2, data_node(m, obj)->0, id, fill, val),
    ensures
        data_node(m2, obj) == data_node(m, obj),
        data_items(m2, obj) matches Some(items) && (id as nat) < items.len()
            && items[id as int] == (m.nodes.len() + fill_count(data_items(m, obj)->0.len(), id)) as u32,
{
    let o = obj->0;
    let d = data_node(m, obj)->0;
    assert(m.nodes[o as int] is Object);
    assert(o != d);
    assert(m2.nodes[o as int] == m.nodes[o as int]);
    assert(crate::marshal::tree::named_pair(m2, crate::marshal::tree::ivar_key("data".spec_bytes()))
        =~= crate::marshal::tree::named_pair(m, crate::marshal::tree::ivar_key("data".spec_bytes())));
    assert(ivar_of(m2, o, "data".spec_bytes()) == ivar_of(m, o, "data".spec_bytes()));
}

/// A switch reads back as it was set: after `set_switch(id, on)` succeeds, switch
/// `id` is `on`.
pub proof fn law_switch_read_after_write(before: SaveData, after: SaveData, id: u32, on: bool)
    requires
        before.tree@.refs_ok(),
        data_node(before.tree@, before.switches_part()) is Some,
        item_set(
            before.tree@,
            after.tree@,
            data_node(before.tree@, before.switches_part())->0,
            id as nat,
            Kind::False,
            if on { Kind::True } else { Kind::False },
        ),
        after.same_besides_tree(before),
        after.tree@.refs_ok(),
    ensures
        switch_of(after.tree@, after.switches_part(), id) == Some(on),
{
    lemma_item_set_keeps_data(
        before.tree@,
        after.tree@,
        before.switches_part(),
        id as nat,
        Kind::False,
        if on { Kind::True } else { Kind::False },
    );
}

/// A variable reads back as it was set: after `set_variable(id, v)` succeeds,
/// variable `id` is `v`.
pub proof fn law_variable_read_after_write(before: SaveData, after: SaveData, id: u32, v: i64)
    requires
        before.tree@.refs_ok(),
        data_node(before.tree@, before.variables_part()) is Some,
        item_set(
            before.tree@,
            after.tree@,
            data_node(before.tree@, before.variables_part())->0,
            id as nat,
            Kind::Fixnum(0),
            Kind::Fixnum(v),
        ),
        after.same_besides_tree(before),
        after.tree@.refs_ok(),
    ensures
        variable_of(after.tree@, after.variables_part(), id) == Some(v),
{
    lemma_item_set_keeps_data(
        before.tree@,
        after.tree@,
        before.variables_part(),
        id as nat,
        Kind::Fixnum(0),
        Kind::Fixnum(v),
    );
}

/// Gold reads back as it was set: after `set_gold(v)` succeeds, the gold is `v`.
pub proof fn law_gold_read_after_write(before: SaveData, after: SaveData, v: i64)
    requires
        before.tree@.refs_ok(),
        opt_slot(before.tree@, part_ivar(before.tree@, before.party_part(), "gold".spec_bytes())),
        part_ivar(before.tree@, before.party_part(), "gold".spec_bytes()) matches Some(g)
            && before.tree@.nodes[g as int] is Fixnum
            && fixnum_set(before.tree@, after.tree@, g, v),
        after.same_besides_tree(before),
    ensures
        gold_of(after.tree@, after.party_part()) == Some(v),
{
    let m = before.tree@;
    let m2 = after.tree@;
    let p = before.party_part()->0;
    let g = part_ivar(m, before.party_part(), "gold".spec_bytes())->0;
    assert(m.nodes[p as int] is Object);
    assert(p != g);
    assert(crate::marshal::tree::named_pair(m2, crate::marshal::tree::ivar_key("gold".spec_bytes()))
        =~= crate::marshal::tree::named_pair(m, crate::marshal::tree::ivar_key("gold".spec_bytes())));
    assert(ivar_of(m2, p, "gold".spec_bytes()) == ivar_of(m, p, "gold".spec_bytes()));
}

} // verus!
