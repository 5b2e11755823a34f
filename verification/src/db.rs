//! Engine versions and the name tables of a game's database (actors, items,
//! weapons, armors, skills, states, classes, switch and variable names) and
//! the experience curves of its classes.
use vstd::prelude::*;
use std::collections::HashMap;
use crate::marshal::model::{Kind, TreeModel, NIL_NODE, TRUE_NODE, FALSE_NODE};
use crate::marshal::tree::{Tree, fixnum_of, ivar_of, string_of, text_or_empty};
use crate::text::{dec_chars, i64_chars, i64_text};
use crate::lcf::{decode_text, text_of};
use vstd::string::StringSliceAdditionalSpecFns;

verus! {

broadcast use vstd::std_specs::hash::group_hash_axioms;

/// Engine version of a game.
#[derive(Debug, Clone, Copy, PartialEq, Eq, Structural, Default)]
pub enum Engine {
    /// RPG Maker VX Ace (Ruby 1.9, `.rvdata2`).
    #[default]
    VxAce,
    /// RPG Maker VX (Ruby 1.8, `.rvdata`).
    Vx,
    /// RPG Maker XP (Ruby 1.8, `.rxdata`).
    Xp,
    /// RPG Maker 2000 (LCF).
    Rm2000,
    /// RPG Maker 2003 (LCF).
    Rm2003,
}

/// The engine of a game folder, from which of its marker files exist: a
/// project file first (`Game.rvproj2`, `Game.rvproj`, `Game.rxproj`), then
/// `RPG_RT.ini` (`ini` is `None` without it, else whether it mentions 2003),
/// then the database files under `Data` (`System.rvdata2`, `System.rvdata`,
/// `System.rxdata`, `RPG_RT.ldb`).
pub open spec fn engine_of_markers(
    has_rvproj2: bool,
    has_rvproj: bool,
    has_rxproj: bool,
    ini: Option<bool>,
    sys_rvdata2: bool,
    sys_rvdata: bool,
    sys_rxdata: bool,
    has_ldb: bool,
) -> Option<Engine> {
    if has_rvproj2 {
        Some(Engine::VxAce)
    } else if has_rvproj {
        Some(Engine::Vx)
    } else if has_rxproj {
        Some(Engine::Xp)
    } else if ini is Some {
        if ini == Some(true) { Some(Engine::Rm2003) } else { Some(Engine::Rm2000) }
    } else if sys_rvdata2 {
        Some(Engine::VxAce)
    } else if sys_rvdata {
        Some(Engine::Vx)
    } else if sys_rxdata {
        Some(Engine::Xp)
    } else if has_ldb {
        Some(Engine::Rm2000)
    } else {
        None
    }
}

/// Decides the engine of a game folder from its marker files (see `engine_of_markers`).
pub fn engine_from_markers(
    has_rvproj2: bool,
    has_rvproj: bool,
    has_rxproj: bool,
    ini: Option<bool>,
    sys_rvdata2: bool,
    sys_rvdata: bool,
    sys_rxdata: bool,
    has_ldb: bool,
) -> (r: Option<Engine>)
    ensures
        r == engine_of_markers(has_rvproj2, has_rvproj, has_rxproj, ini, sys_rvdata2, sys_rvdata, sys_rxdata, has_ldb),
{
    if has_rvproj2 {
        return Some(Engine::VxAce);
    }
    if has_rvproj {
        return Some(Engine::Vx);
    }
    if has_rxproj {
        return Some(Engine::Xp);
    }
    if let Some(mentions_2003) = ini {
        return if mentions_2003 { Some(Engine::Rm2003) } else { Some(Engine::Rm2000) };
    }
    if sys_rvdata2 || sys_rvdata {
        if sys_rvdata2 {
            return Some(Engine::VxAce);
        }
        return Some(Engine::Vx);
    }
    if sys_rxdata {
        return Some(Engine::Xp);
    }
    if has_ldb {
        return Some(Engine::Rm2000);
    }
    None
}

/// A table of an RPG Maker 2000/2003 database.
#[derive(Debug, Clone, Copy, PartialEq, Eq, Structural)]
pub enum LcfTable {
    Actors,
    Skills,
    Items,
    States,
    Weapons,
    Armors,
    Classes,
    Switches,
    Variables,
}

/// The LDB chunk that fills a table for an engine: classes and variable names
/// exist only in 2003, weapons and armors are not read from 2000/2003 data.
pub open spec fn lcf_chunk_of(engine: Engine, table: LcfTable) -> Option<u32> {
    match table {
        LcfTable::Actors => Some(0x0B),
        LcfTable::Skills => Some(0x0C),
        LcfTable::Items => Some(0x0D),
        LcfTable::States => Some(0x12),
        LcfTable::Weapons => None,
        LcfTable::Armors => None,
        LcfTable::Classes => if engine is Rm2003 { Some(0x1E) } else { None },
        LcfTable::Switches => Some(0x17),
        LcfTable::Variables => if engine is Rm2003 { Some(0x18) } else { None },
    }
}

/// The LDB chunk id that fills `table` for `engine` (`None`: the table holds
/// only its placeholder entry).
pub fn lcf_table_chunk(engine: Engine, table: LcfTable) -> (r: Option<u32>)
    ensures
        r == lcf_chunk_of(engine, table),
{
    let is_2003 = match engine {
        Engine::Rm2003 => true,
        _ => false,
    };
    match table {
        LcfTable::Actors => Some(0x0B),
        LcfTable::Skills => Some(0x0C),
        LcfTable::Items => Some(0x0D),
        LcfTable::States => Some(0x12),
        LcfTable::Weapons => None,
        LcfTable::Armors => None,
        LcfTable::Classes => if is_2003 { Some(0x1E) } else { None },
        LcfTable::Switches => Some(0x17),
        LcfTable::Variables => if is_2003 { Some(0x18) } else { None },
    }
}

/// Display name of an engine.
pub open spec fn engine_label(e: Engine) -> Seq<char> {
    match e {
        Engine::VxAce => "VX Ace"@,
        Engine::Vx => "VX"@,
        Engine::Xp => "XP"@,
        Engine::Rm2000 => "2000"@,
        Engine::Rm2003 => "2003"@,
    }
}

/// Extension of an engine's database files.
pub open spec fn engine_data_ext(e: Engine) -> Seq<char> {
    match e {
        Engine::VxAce => "rvdata2"@,
        Engine::Vx => "rvdata"@,
        Engine::Xp => "rxdata"@,
        Engine::Rm2000 | Engine::Rm2003 => "ldb"@,
    }
}

/// Extension of an engine's save files.
pub open spec fn engine_save_ext(e: Engine) -> Seq<char> {
    match e {
        Engine::VxAce => "rvdata2"@,
        Engine::Vx => "rvdata"@,
        Engine::Xp => "rxdata"@,
        Engine::Rm2000 | Engine::Rm2003 => "lsd"@,
    }
}

impl Engine {
    pub fn label(&self) -> (r: &'static str)
        ensures
            r@ == engine_label(*self),
    {
        match self {
            Engine::VxAce => "VX Ace",
            Engine::Vx => "VX",
            Engine::Xp => "XP",
            Engine::Rm2000 => "2000",
            Engine::Rm2003 => "2003",
        }
    }

    /// Extension of the database files.
    pub fn data_ext(&self) -> (r: &'static str)
        ensures
            r@ == engine_data_ext(*self),
    {
        match self {
            Engine::VxAce => "rvdata2",
            Engine::Vx => "rvdata",
            Engine::Xp => "rxdata",
            Engine::Rm2000 | Engine::Rm2003 => "ldb",
        }
    }

    /// Extension of the save files.
    pub fn save_ext(&self) -> (r: &'static str)
        ensures
            r@ == engine_save_ext(*self),
    {
        match self {
            Engine::VxAce => "rvdata2",
            Engine::Vx => "rvdata",
            Engine::Xp => "rxdata",
            Engine::Rm2000 | Engine::Rm2003 => "lsd",
        }
    }

    /// The engine stores its data as Ruby Marshal (2000 and 2003 use LCF).
    pub fn is_marshal(&self) -> (r: bool)
        ensures
            r == !(*self is Rm2000 || *self is Rm2003),
    {
        match self {
            Engine::Rm2000 | Engine::Rm2003 => false,
            _ => true,
        }
    }
}

/// One database entry (an actor, an item, a weapon ...).
#[derive(Debug, Clone)]
pub struct DbEntry {
    /// Database id (from 1; entry 0 is a placeholder).
    pub id: u32,
    pub name: String,
    /// Further text, such as an item description.
    pub extra: String,
    /// Icon index (VX, VX Ace) or icon file name (XP).
    pub icon: String,
}

/// The loaded name tables of a game.
#[derive(Debug, Default)]
pub struct Database {
    pub engine: Engine,
    pub game_dir: std::path::PathBuf,
    pub actors: Vec<DbEntry>,
    pub items: Vec<DbEntry>,
    pub weapons: Vec<DbEntry>,
    pub armors: Vec<DbEntry>,
    pub skills: Vec<DbEntry>,
    pub states: Vec<DbEntry>,
    pub classes: Vec<DbEntry>,
    /// Switch names, from index 1 (entry 0 is a placeholder).
    pub switches: Vec<String>,
    /// Variable names, from index 1.
    pub variables: Vec<String>,
    /// Experience tables by class id: entry `l` is the total experience needed for level `l`.
    pub class_exps: HashMap<u32, Vec<i64>>,
    /// Problems met while loading (missing files and the like).
    pub warnings: Vec<String>,
}

/// Number of non-empty names.
pub open spec fn count_named(s: Seq<String>) -> nat
    decreases s.len(),
{
    if s.len() == 0 {
        0
    } else {
        count_named(s.drop_last()) + if s.last()@.len() > 0 { 1nat } else { 0nat }
    }
}

/// Entries of a table without its placeholder.
pub open spec fn real_count(n: nat) -> nat {
    if n == 0 { 0 } else { (n - 1) as nat }
}

/// The status-line summary of a database.
pub open spec fn info_chars(label: Seq<char>, a: nat, i: nat, w: nat, r: nat, s: nat, v: nat) -> Seq<char> {
    label + " （"@ + dec_chars(a) + " 角色 / "@ + dec_chars(i) + " 物品 / "@ + dec_chars(w) + " 武器 / "@
        + dec_chars(r) + " 防具 / "@ + dec_chars(s) + " 开关名 / "@ + dec_chars(v) + " 变量名）"@
}

/// `t` followed by the decimal text of `n` and the literal `post`.
fn push_count(t: String, n: usize, post: &str) -> (r: String)
    ensures
        r@ == t@ + dec_chars(n as nat) + post@,
{
    let num = crate::text::usize_text(n);
    let a = crate::text::joined(t.as_str(), num.as_str());
    crate::text::joined(a.as_str(), post)
}

/// The summary line (see [`info_chars`]).
fn info_text(label: &str, a: usize, i: usize, w: usize, r: usize, s: usize, v: usize) -> (t: String)
    ensures
        t@ == info_chars(label@, a as nat, i as nat, w as nat, r as nat, s as nat, v as nat),
{
    let t = crate::text::joined(label, " （");
    let t = push_count(t, a, " 角色 / ");
    let t = push_count(t, i, " 物品 / ");
    let t = push_count(t, w, " 武器 / ");
    let t = push_count(t, r, " 防具 / ");
    let t = push_count(t, s, " 开关名 / ");
    let t = push_count(t, v, " 变量名）");
    assert(t@ =~= info_chars(label@, a as nat, i as nat, w as nat, r as nat, s as nat, v as nat));
    t
}

/// Number of non-empty names in `names`.
fn named_count(names: &Vec<String>) -> (r: usize)
    ensures
        r == count_named(names@),
{
    let mut n: usize = 0;
    let mut i: usize = 0;
    while i < names.len()
        invariant
            i <= names@.len(),
            n == count_named(names@.subrange(0, i as int)),
            n <= i,
        decreases names@.len() - i,
    {
        proof {
            assert(names@.subrange(0, i + 1).drop_last() =~= names@.subrange(0, i as int));
        }
        if !names[i].as_str().is_empty() {
            n = n + 1;
        }
        i = i + 1;
    }
    assert(names@.subrange(0, names@.len() as int) =~= names@);
    n
}

impl Database {
    /// Summary for the status line.
    pub fn info(&self) -> (r: String)
        ensures
            r@ == info_chars(
                engine_label(self.engine),
                real_count(self.actors@.len()),
                real_count(self.items@.len()),
                real_count(self.weapons@.len()),
                real_count(self.armors@.len()),
                count_named(self.switches@),
                count_named(self.variables@),
            ),
    {
        info_text(
            self.engine.label(),
            self.actors.len().saturating_sub(1),
            self.items.len().saturating_sub(1),
            self.weapons.len().saturating_sub(1),
            self.armors.len().saturating_sub(1),
            named_count(&self.switches),
            named_count(&self.variables),
        )
    }

    /// Name of item `id`.
    pub fn item_name(&self, id: u32) -> (r: Option<&str>)
        ensures
            entry_name(self.items@, id, r),
    {
        name_in(&self.items, id)
    }

    /// Name of weapon `id`.
    pub fn weapon_name(&self, id: u32) -> (r: Option<&str>)
        ensures
            entry_name(self.weapons@, id, r),
    {
        name_in(&self.weapons, id)
    }

    /// Name of armor `id`.
    pub fn armor_name(&self, id: u32) -> (r: Option<&str>)
        ensures
            entry_name(self.armors@, id, r),
    {
        name_in(&self.armors, id)
    }

    /// Name of skill `id`.
    pub fn skill_name(&self, id: u32) -> (r: Option<&str>)
        ensures
            entry_name(self.skills@, id, r),
    {
        name_in(&self.skills, id)
    }

    /// Name of state `id`.
    pub fn state_name(&self, id: u32) -> (r: Option<&str>)
        ensures
            entry_name(self.states@, id, r),
    {
        name_in(&self.states, id)
    }

    /// Name of actor `id`.
    pub fn actor_name(&self, id: u32) -> (r: Option<&str>)
        ensures
            entry_name(self.actors@, id, r),
    {
        name_in(&self.actors, id)
    }
}

/// `r` is the name of entry `id` of the table, or `None` past its end.
pub open spec fn entry_name(t: Seq<DbEntry>, id: u32, r: Option<&str>) -> bool {
    if (id as nat) < t.len() {
        r matches Some(s) && s@ == t[id as int].name@
    } else {
        r is None
    }
}

fn name_in(t: &Vec<DbEntry>, id: u32) -> (r: Option<&str>)
    ensures
        entry_name(t@, id, r),
{
    if (id as usize) < t.len() {
        Some(t[id as usize].name.as_str())
    } else {
        None
    }
}

/// An i64 clamped to its range, as a float-to-integer cast does.
pub open spec fn saturate(x: int) -> i64 {
    if x > i64::MAX {
        i64::MAX
    } else if x < i64::MIN {
        i64::MIN
    } else {
        x as i64
    }
}

/// Total experience for level `l` from the VX / VX Ace curve parameters:
/// base·(l−1) + extra·(l−1)·l/2 + accel·(l−1)·l·(2l−1)/6.
pub open spec fn exp_for_level(base: int, extra: int, accel: int, l: int) -> int {
    base * (l - 1) + extra * ((l - 1) * l / 2) + accel * ((l - 1) * l * (2 * l - 1) / 6)
}

/// `p * k` for a small non-negative `k`, in 128 bits.
fn mul_small(p: i64, k: i128) -> (r: i128)
    requires
        0 <= k < 0x10_0000,
    ensures
        r == p * k,
        -0x80_0000_0000_0000_0000_0000 <= r <= 0x80_0000_0000_0000_0000_0000,
{
    assert(-0x80_0000_0000_0000_0000_0000 <= p * k <= 0x80_0000_0000_0000_0000_0000) by (nonlinear_arith)
        requires
            0 <= k < 0x10_0000,
            i64::MIN <= p <= i64::MAX,
    ;
    (p as i128) * k
}

/// The experience table of a VX / VX Ace class from its curve parameters
/// (base, extra, accel[, max level]): entries 1 to 99 by the curve, entry 0 is 0.
/// There is none with fewer than three parameters or a base that is not positive.
/// The curve is evaluated exactly and clamped to the i64 range.
pub fn exp_table_from_params(params: &[i64]) -> (r: Option<Vec<i64>>)
    ensures
        params@.len() < 3 || params@[0] <= 0 ==> r is None,
        params@.len() >= 3 && params@[0] > 0 ==> (r matches Some(t) && t@.len() == 100 && t@[0] == 0
            && forall|l: int| 1 <= l < 100 ==> #[trigger] t@[l] == saturate(
                exp_for_level(params@[0] as int, params@[1] as int, params@[2] as int, l),
            )),
{
    if params.len() < 3 || params[0] <= 0 {
        return None;
    }
    let base = params[0];
    let extra = params[1];
    let accel = params[2];
    let mut table: Vec<i64> = Vec::new();
    table.push(0);
    let mut l: i128 = 1;
    while l <= 99
        invariant
            1 <= l <= 100,
            table@.len() == l,
            table@[0] == 0,
            params@.len() >= 3,
            base == params@[0],
            extra == params@[1],
            accel == params@[2],
            forall|k: int| 1 <= k < l ==> #[trigger] table@[k] == saturate(
                exp_for_level(base as int, extra as int, accel as int, k),
            ),
        decreases 100 - l,
    {
        let a = mul_small(base, l - 1);
        assert(0 <= (l - 1) * l < 10000) by (nonlinear_arith)
            requires
                1 <= l <= 99,
        ;
        let b = mul_small(extra, (l - 1) * l / 2);
        assert((l - 1) * l * (2 * l - 1) < 0x10_0000 * 6) by (nonlinear_arith)
            requires
                1 <= l <= 99,
        ;
        assert((l - 1) * l * (2 * l - 1) >= 0) by (nonlinear_arith)
            requires
                1 <= l <= 99,
        ;
        let c = mul_small(accel, (l - 1) * l * (2 * l - 1) / 6);
        let x = a + b + c;
        let v: i64 = if x > 0x7fff_ffff_ffff_ffff {
            0x7fff_ffff_ffff_ffff
        } else if x < -0x8000_0000_0000_0000 {
            -0x8000_0000_0000_0000
        } else {
            x as i64
        };
        table.push(v);
        l = l + 1;
    }
    Some(table)
}

/// Text of an optional name node as the tables keep it.
pub open spec fn icon_chars(m: TreeModel, item: u32) -> Seq<char> {
    let by_index = match ivar_of(m, item, "icon_index".spec_bytes()) {
        Some(n) => match fixnum_of(m, n) {
            Some(v) => Some(i64_chars(v)),
            None => None,
        },
        None => None,
    };
    match by_index {
        Some(t) => t,
        None => text_or_empty(m, ivar_of(m, item, "icon_name".spec_bytes())),
    }
}


/// The entry that the tables keep for data object `item` at index `i`.
pub open spec fn entry_of(m: TreeModel, item: u32, i: int, e: DbEntry) -> bool {
    &&& e.id == i as u32
    &&& e.name@ == text_or_empty(m, ivar_of(m, item, "name".spec_bytes()))
    &&& e.extra@ == text_or_empty(m, ivar_of(m, item, "description".spec_bytes()))
    &&& e.icon@ == icon_chars(m, item)
}

/// The placeholder entry 0.
pub open spec fn is_placeholder(e: DbEntry) -> bool {
    e.id == 0 && e.name@.len() == 0 && e.extra@.len() == 0 && e.icon@.len() == 0
}

fn placeholder() -> (e: DbEntry)
    ensures
        is_placeholder(e),
{
    DbEntry { id: 0, name: String::new(), extra: String::new(), icon: String::new() }
}

/// Every item of the array from index 1 on is a node of the arena (no nil sentinel).
pub open spec fn items_are_nodes(m: TreeModel, items: Seq<u32>) -> bool {
    forall|i: int| 1 <= i < items.len() ==> ((#[trigger] items[i]) as nat) < m.nodes.len()
}

/// The entries of a database file whose root is `[nil, object, object, ...]`:
/// a placeholder, then for each object its name, description and icon.
pub fn extract_entries(tree: &Tree, field: &str) -> (r: Vec<DbEntry>)
    requires
        tree@.refs_ok(),
        tree@.root as nat >= tree@.nodes.len() || (match tree@.nodes[tree@.root as int] {
            Kind::Array(items) => items_are_nodes(tree@, items@),
            _ => true,
        }),
    ensures
        r@.len() >= 1,
        is_placeholder(r@[0]),
        match (if (tree@.root as nat) < tree@.nodes.len() { Some(tree@.nodes[tree@.root as int]) } else { None }) {
            Some(Kind::Array(items)) => r@.len() == (if items@.len() == 0 { 1 } else { items@.len() })
                && forall|i: int| 1 <= i < items@.len() ==> entry_of(tree@, items@[i], i, #[trigger] r@[i]),
            _ => r@.len() == 1,
        },
{
    let mut out: Vec<DbEntry> = Vec::new();
    out.push(placeholder());
    let root = tree.root();
    if (root as usize) < tree.node_count() {
        if let Kind::Array(items) = tree.kind(root) {
            let mut i: usize = 1;
            while i < items.len()
                invariant
                    tree@.refs_ok(),
                    (tree@.root as nat) < tree@.nodes.len(),
                    tree@.nodes[tree@.root as int] == Kind::Array(*items),
                    items_are_nodes(tree@, items@),
                    1 <= i <= items@.len() || (items@.len() == 0 && i == 1),
                    out@.len() == i,
                    is_placeholder(out@[0]),
                    forall|k: int| 1 <= k < i ==> entry_of(tree@, items@[k], k, #[trigger] out@[k]),
                decreases items@.len() - i,
            {
                let item = items[i];
                assert(tree@.node_ok(item));
                let name = match tree.ivar(item, "name") {
                    Some(n) => match tree.as_string(n) {
                        Some(s) => s,
                        None => String::new(),
                    },
                    None => String::new(),
                };
                let extra = match tree.ivar(item, "description") {
                    Some(n) => match tree.as_string(n) {
                        Some(s) => s,
                        None => String::new(),
                    },
                    None => String::new(),
                };
                let by_index = match tree.ivar(item, "icon_index") {
                    Some(n) => match tree.as_fixnum(n) {
                        Some(v) => Some(i64_text(v)),
                        None => None,
                    },
                    None => None,
                };
                let icon = match by_index {
                    Some(t) => t,
                    None => match tree.ivar(item, "icon_name") {
                        Some(n) => match tree.as_string(n) {
                            Some(s) => s,
                            None => String::new(),
                        },
                        None => String::new(),
                    },
                };
                out.push(DbEntry { id: i as u32, name, extra, icon });
                i = i + 1;
            }
        }
    }
    out
}

/// A list of names whose entry 0 is a placeholder: `""` first, then the text of
/// each string item (empty for other items).
pub fn extract_name_array(tree: &Tree, arr: u32) -> (r: Vec<String>)
    requires
        tree@.node_ok(arr),
    ensures
        match tree@.nodes[arr as int] {
            Kind::Array(items) => r@.len() == items@.len() && (items@.len() > 0 ==> r@[0]@.len() == 0)
                && forall|i: int| 1 <= i < items@.len() ==> (#[trigger] r@[i])@ == text_or_empty(tree@, Some(items@[i])),
            _ => r@.len() == 0,
        },
{
    let mut out: Vec<String> = Vec::new();
    if let Kind::Array(items) = tree.kind(arr) {
        let mut i: usize = 0;
        while i < items.len()
            invariant
                tree@.node_ok(arr),
                tree@.nodes[arr as int] == Kind::Array(*items),
                i <= items@.len(),
                out@.len() == i,
                i > 0 ==> out@[0]@.len() == 0,
                forall|k: int| 1 <= k < i ==> (#[trigger] out@[k])@ == text_or_empty(tree@, Some(items@[k])),
            decreases items@.len() - i,
        {
            if i == 0 {
                out.push(String::new());
            } else {
                let item = items[i];
                let s = match tree.as_string(item) {
                    Some(s) => s,
                    None => String::new(),
                };
                out.push(s);
            }
            i = i + 1;
        }
    }
    out
}


/// Integer value of a node, 0 when it is not an integer.
pub open spec fn int_or_zero(m: TreeModel, n: u32) -> i64 {
    match fixnum_of(m, n) {
        Some(v) => v,
        None => 0,
    }
}

/// The integers of a list of nodes (0 for non-integers).
pub open spec fn ints_of(m: TreeModel, es: Seq<u32>) -> Seq<i64> {
    Seq::new(es.len(), |j: int| int_or_zero(m, es[j]))
}

/// The non-empty integer table stored in instance variable `@exp` of `item` (XP).
pub open spec fn stored_table(m: TreeModel, item: u32) -> Option<Seq<i64>> {
    match ivar_of(m, item, "exp".spec_bytes()) {
        Some(e) => match m.nodes[e as int] {
            Kind::Array(es) => if es@.len() > 0 { Some(ints_of(m, es@)) } else { None },
            _ => None,
        },
        None => None,
    }
}

/// The curve parameters stored in `@exp_params` of `item` (VX Ace), as integers.
pub open spec fn curve_params(m: TreeModel, item: u32) -> Option<Seq<i64>> {
    match ivar_of(m, item, "exp_params".spec_bytes()) {
        Some(e) => match m.nodes[e as int] {
            Kind::Array(es) => Some(ints_of(m, es@)),
            _ => None,
        },
        None => None,
    }
}

/// The table generated from curve parameters (see `exp_table_from_params`).
pub open spec fn curve_table(p: Seq<i64>) -> Option<Seq<i64>> {
    if p.len() < 3 || p[0] <= 0 {
        None
    } else {
        Some(Seq::new(100, |l: int| if l == 0 { 0 } else {
            saturate(exp_for_level(p[0] as int, p[1] as int, p[2] as int, l))
        }))
    }
}

/// The experience table of class object `item`: its stored table, else the one
/// generated from its curve parameters.
pub open spec fn class_table(m: TreeModel, item: u32) -> Option<Seq<i64>> {
    match stored_table(m, item) {
        Some(t) => Some(t),
        None => match curve_params(m, item) {
            Some(p) => curve_table(p),
            None => None,
        },
    }
}

/// The instance variables that reading a class consults lead to arena slots.
pub open spec fn class_readable(m: TreeModel, item: u32) -> bool {
    &&& (item as nat) < m.nodes.len()
    &&& (ivar_of(m, item, "exp".spec_bytes()) matches Some(e) ==> (e as nat) < m.nodes.len())
    &&& (stored_table(m, item) is None ==> (ivar_of(m, item, "exp_params".spec_bytes()) matches Some(e)
        ==> (e as nat) < m.nodes.len()))
}

/// Integers of the nodes `es` (0 for non-integers).
fn read_ints(tree: &Tree, es: &Vec<u32>) -> (r: Vec<i64>)
    requires
        tree@.refs_ok(),
        forall|j: int| 0 <= j < es@.len() ==> crate::marshal::model::ref_ok(#[trigger] es@[j], tree@.nodes.len()),
    ensures
        r@ == ints_of(tree@, es@),
{
    let mut out: Vec<i64> = Vec::new();
    let mut j: usize = 0;
    while j < es.len()
        invariant
            j <= es@.len(),
            forall|k: int| 0 <= k < es@.len() ==> crate::marshal::model::ref_ok(#[trigger] es@[k], tree@.nodes.len()),
            out@ == ints_of(tree@, es@).subrange(0, j as int),
        decreases es@.len() - j,
    {
        let v = match tree.as_fixnum(es[j]) {
            Some(v) => v,
            None => 0,
        };
        out.push(v);
        j = j + 1;
        assert(out@ =~= ints_of(tree@, es@).subrange(0, j as int));
    }
    assert(out@ =~= ints_of(tree@, es@));
    out
}

/// Experience table of one class object.
fn class_exp_table(tree: &Tree, item: u32) -> (r: Option<Vec<i64>>)
    requires
        tree@.refs_ok(),
        class_readable(tree@, item),
    ensures
        match class_table(tree@, item) {
            Some(t) => r matches Some(v) && v@ == t,
            None => r is None,
        },
{
    if let Some(exp) = tree.ivar(item, "exp") {
        if let Kind::Array(es) = tree.kind(exp) {
            let table = read_ints(tree, es);
            if table.len() > 0 {
                return Some(table);
            }
        }
    }
    if let Some(exp) = tree.ivar(item, "exp_params") {
        if let Kind::Array(es) = tree.kind(exp) {
            let params = read_ints(tree, es);
            let t = exp_table_from_params(params.as_slice());
            proof {
                if t is Some {
                    assert(t->0@ =~= curve_table(params@).unwrap());
                }
            }
            return t;
        }
    }
    None
}

/// The experience tables of a classes file `[nil, class, class, ...]`, keyed by class id;
/// classes without a table are left out.
pub fn class_exp_tables(tree: &Tree) -> (r: HashMap<u32, Vec<i64>>)
    requires
        tree@.refs_ok(),
        (tree@.root as nat) < tree@.nodes.len() ==> (tree@.nodes[tree@.root as int] matches Kind::Array(items)
            ==> items@.len() <= u32::MAX && forall|i: int| 1 <= i < items@.len() && #[trigger] items@[i] != NIL_NODE
            ==> class_readable(tree@, items@[i])),
    ensures
        (tree@.root as nat) < tree@.nodes.len() && tree@.nodes[tree@.root as int] is Array ==> {
            let items = tree@.nodes[tree@.root as int]->Array_0@;
            forall|k: u32| #[trigger] r@.contains_key(k) <==> (1 <= k < items.len() && items[k as int] != NIL_NODE
                && class_table(tree@, items[k as int]) is Some)
        },
        (tree@.root as nat) < tree@.nodes.len() && tree@.nodes[tree@.root as int] is Array ==> {
            let items = tree@.nodes[tree@.root as int]->Array_0@;
            forall|k: u32| #[trigger] r@.contains_key(k) ==> r@[k]@ == class_table(tree@, items[k as int]).unwrap()
        },
        !((tree@.root as nat) < tree@.nodes.len() && tree@.nodes[tree@.root as int] is Array) ==> r@.len() == 0,
{
    let mut out: HashMap<u32, Vec<i64>> = HashMap::new();
    let root = tree.root();
    if (root as usize) < tree.node_count() {
        if let Kind::Array(items) = tree.kind(root) {
            let mut i: usize = 1;
            while i < items.len()
                invariant
                    tree@.refs_ok(),
                    (tree@.root as nat) < tree@.nodes.len(),
                    tree@.nodes[tree@.root as int] == Kind::Array(*items),
                    items@.len() <= u32::MAX,
                    forall|j: int| 1 <= j < items@.len() && #[trigger] items@[j] != NIL_NODE
                        ==> class_readable(tree@, items@[j]),
                    1 <= i,
                    i <= items@.len() || items@.len() == 0,
                    forall|k: u32| #[trigger] out@.contains_key(k) <==> (1 <= k < i && k < items@.len()
                        && items@[k as int] != NIL_NODE && class_table(tree@, items@[k as int]) is Some),
                    forall|k: u32| #[trigger] out@.contains_key(k) ==> out@[k]@ == class_table(tree@, items@[k as int]).unwrap(),
                decreases items@.len() - i,
            {
                let item = items[i];
                if item != NIL_NODE {
                    if let Some(t) = class_exp_table(tree, item) {
                        out.insert(i as u32, t);
                    }
                }
                i = i + 1;
            }
        }
    }
    out
}


/// Display text of an optional stored string (empty when absent).
pub open spec fn opt_text(o: Option<Vec<u8>>) -> Seq<char> {
    match o {
        Some(b) => text_of(b@),
        None => Seq::empty(),
    }
}

fn decode_opt(o: &Option<Vec<u8>>) -> (r: String)
    ensures
        r@ == opt_text(*o),
{
    match o {
        Some(b) => decode_text(b.as_slice()),
        None => String::new(),
    }
}

/// The entries of an LDB database array, from its (id, name, description)
/// texts: a placeholder, then each entry with its texts decoded.
pub fn lcf_entries(list: &Vec<(u32, Option<Vec<u8>>, Option<Vec<u8>>)>) -> (r: Vec<DbEntry>)
    ensures
        r@.len() == list@.len() + 1,
        is_placeholder(r@[0]),
        forall|i: int| 0 <= i < list@.len() ==> (#[trigger] r@[i + 1]).id == list@[i].0
            && r@[i + 1].name@ == opt_text(list@[i].1) && r@[i + 1].extra@ == opt_text(list@[i].2)
            && r@[i + 1].icon@.len() == 0,
{
    let mut out: Vec<DbEntry> = Vec::new();
    out.push(placeholder());
    let mut i: usize = 0;
    while i < list.len()
        invariant
            i <= list@.len(),
            out@.len() == i + 1,
            is_placeholder(out@[0]),
            forall|k: int| 0 <= k < i ==> (#[trigger] out@[k + 1]).id == list@[k].0
                && out@[k + 1].name@ == opt_text(list@[k].1) && out@[k + 1].extra@ == opt_text(list@[k].2)
                && out@[k + 1].icon@.len() == 0,
        decreases list@.len() - i,
    {
        let name = decode_opt(&list[i].1);
        let extra = decode_opt(&list[i].2);
        out.push(DbEntry { id: list[i].0, name, extra, icon: String::new() });
        i = i + 1;
    }
    out
}

/// A name table from LDB texts: `""` for entry 0, then each decoded name.
pub fn lcf_names(list: &Vec<(u32, Option<Vec<u8>>, Option<Vec<u8>>)>) -> (r: Vec<String>)
    ensures
        r@.len() == list@.len() + 1,
        r@[0]@.len() == 0,
        forall|i: int| 0 <= i < list@.len() ==> (#[trigger] r@[i + 1])@ == opt_text(list@[i].1),
{
    let mut out: Vec<String> = Vec::new();
    out.push(String::new());
    let mut i: usize = 0;
    while i < list.len()
        invariant
            i <= list@.len(),
            out@.len() == i + 1,
            out@[0]@.len() == 0,
            forall|k: int| 0 <= k < i ==> (#[trigger] out@[k + 1])@ == opt_text(list@[k].1),
        decreases list@.len() - i,
    {
        out.push(decode_opt(&list[i].1));
        i = i + 1;
    }
    out
}

} // verus!
