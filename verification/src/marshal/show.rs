//! The Marshal dump listing: a tree shown one node per line, nested values
//! indented two spaces per level, cut off below depth 24.
use vstd::prelude::*;
use crate::marshal::model::{Kind, TreeModel, FALSE_NODE, NIL_NODE, TRUE_NODE};
use crate::marshal::tree::Tree;
use crate::text::{dec_chars, i64_chars, utf8_lossy, debug_quoted, joined, name, numbered, usize_text, i64_text, debug_text};

verus! {

/// `n` levels of indentation, two spaces each.
pub open spec fn indent(n: nat) -> Seq<char>
    decreases n,
{
    if n == 0 {
        seq![]
    } else {
        indent((n - 1) as nat) + "  "@
    }
}

/// A symbol's text, or a mark when the index is not a symbol.
pub open spec fn sym_text(m: TreeModel, s: u32) -> Seq<char> {
    if (s as int) < m.syms.len() {
        utf8_lossy(m.syms[s as int].bytes@)
    } else {
        "<符号 "@ + dec_chars(s as nat) + ">"@
    }
}

/// The label given for the float at `idx` (`?` without one).
pub open spec fn float_label(fl: Seq<String>, idx: u32) -> Seq<char> {
    if (idx as int) < fl.len() {
        fl[idx as int]@
    } else {
        "?"@
    }
}

/// The type of a value in words (with its value for numbers, strings and symbols).
pub open spec fn type_text(m: TreeModel, idx: u32, fl: Seq<String>) -> Seq<char> {
    if idx == NIL_NODE {
        "nil"@
    } else if idx == TRUE_NODE {
        "true"@
    } else if idx == FALSE_NODE {
        "false"@
    } else if (idx as int) >= m.nodes.len() {
        "?"@
    } else {
        match m.nodes[idx as int] {
            Kind::Nil => "nil"@,
            Kind::True => "true"@,
            Kind::False => "false"@,
            Kind::Fixnum(v) => "整数 "@ + i64_chars(v),
            Kind::Bignum { .. } => "大整数"@,
            Kind::Float(_) => "浮点 "@ + float_label(fl, idx),
            Kind::Str(s) => "字符串 "@ + debug_quoted(utf8_lossy(s.bytes@)),
            Kind::Sym(s) => "符号 "@ + sym_text(m, s),
            Kind::Regexp { .. } => "正则"@,
            Kind::Array(_) => "数组"@,
            Kind::Hash { .. } => "哈希"@,
            Kind::Object { class, .. } => "对象 "@ + sym_text(m, class),
            Kind::Struct { class, .. } => "结构体 "@ + sym_text(m, class),
            Kind::Class(_) => "类"@,
            Kind::Module { .. } => "模块"@,
            Kind::Extended { .. } => "扩展"@,
            Kind::UClass { .. } => "用户类"@,
            Kind::Ival { .. } => "Ivar包装"@,
            Kind::UserDef { class, .. } => "UserDef "@ + sym_text(m, class),
            Kind::UserMarshal { class, .. } => "UserMarshal "@ + sym_text(m, class),
            Kind::Data { class, .. } => "Data "@ + sym_text(m, class),
        }
    }
}

/// Texts quoted with `{:?}` and separated by `, `.
pub open spec fn debug_items(names: Seq<Seq<char>>) -> Seq<char>
    decreases names.len(),
{
    if names.len() == 0 {
        seq![]
    } else if names.len() == 1 {
        debug_quoted(names[0])
    } else {
        debug_items(names.drop_last()) + ", "@ + debug_quoted(names.last())
    }
}

/// Pairs shown as a head line (`pre` + the key's symbol + `post`) over their value.
pub open spec fn sym_kids(m: TreeModel, pairs: Seq<(u32, u32)>, pre: Seq<char>, post: Seq<char>) -> Seq<(Option<Seq<char>>, u32)> {
    Seq::new(pairs.len(), |j: int| (Some(pre + sym_text(m, pairs[j].0) + post), pairs[j].1))
}

/// The line of a container and the children shown below it (each under an
/// optional head line); `None` for values shown on one line.
pub open spec fn nested_of(m: TreeModel, idx: u32, fl: Seq<String>) -> Option<(Seq<char>, Seq<(Option<Seq<char>>, u32)>)> {
    match m.nodes[idx as int] {
        Kind::Array(items) => Some((
            "数组["@ + dec_chars(items@.len()) + "]"@,
            Seq::new(items@.len(), |j: int| (None::<Seq<char>>, items@[j])),
        )),
        Kind::Hash { pairs, default } => Some((
            "哈希["@ + dec_chars(pairs@.len()) + "]"@ + (if default is Some { " (带默认值)"@ } else { ""@ }),
            Seq::new(pairs@.len(), |j: int| (Some("键: "@ + type_text(m, pairs@[j].0, fl)), pairs@[j].1)) + (match default {
                Some(d) => seq![(Some("默认值:"@), d)],
                None => seq![],
            }),
        )),
        Kind::Object { class, ivars } => Some((
            "对象 "@ + sym_text(m, class) + " ["@ + dec_chars(ivars@.len()) + "]"@,
            sym_kids(m, ivars@, "@"@, ":"@),
        )),
        Kind::Struct { class, members } => Some((
            "结构体 "@ + sym_text(m, class) + " ["@ + dec_chars(members@.len()) + "]"@,
            sym_kids(m, members@, ":"@, ":"@),
        )),
        Kind::Extended { mods, inner } => Some((
            "扩展 ["@ + debug_items(Seq::new(mods@.len(), |j: int| sym_text(m, mods@[j]))) + "] →"@,
            seq![(None::<Seq<char>>, inner)],
        )),
        Kind::UClass { cls, inner } => Some(("用户类 "@ + sym_text(m, cls) + " →"@, seq![(None::<Seq<char>>, inner)])),
        Kind::Ival { inner, pairs } => Some((
            "Ivar包装 ["@ + dec_chars(pairs@.len()) + "] →"@,
            sym_kids(m, pairs@, ":"@, ":"@) + seq![(None::<Seq<char>>, inner)],
        )),
        Kind::UserMarshal { class, inner } => Some((
            "UserMarshal "@ + sym_text(m, class) + " →"@,
            seq![(None::<Seq<char>>, inner)],
        )),
        Kind::Data { class, inner } => Some(("Data "@ + sym_text(m, class) + " →"@, seq![(None::<Seq<char>>, inner)])),
        _ => None,
    }
}

/// The line of a value shown on one line.
pub open spec fn leaf_text(m: TreeModel, idx: u32, fl: Seq<String>) -> Seq<char> {
    match m.nodes[idx as int] {
        Kind::UserDef { class, payload } => "UserDef "@ + sym_text(m, class) + " payload "@ + debug_quoted(
            utf8_lossy(payload.bytes@),
        ),
        _ => type_text(m, idx, fl),
    }
}

/// The lines of the value at `idx`, shown at `depth`: past depth 24 only `...`.
pub open spec fn dump_lines_of(m: TreeModel, idx: u32, depth: nat, fl: Seq<String>) -> Seq<Seq<char>>
    decreases 26 - depth, 1int, 0int,
{
    if depth > 24 {
        seq![indent(depth) + "..."@]
    } else if idx == NIL_NODE || idx == TRUE_NODE || idx == FALSE_NODE || (idx as int) >= m.nodes.len() {
        seq![indent(depth) + type_text(m, idx, fl)]
    } else {
        match nested_of(m, idx, fl) {
            Some(lk) => seq![indent(depth) + lk.0] + kid_lines(m, lk.1, 0, depth, fl),
            None => seq![indent(depth) + leaf_text(m, idx, fl)],
        }
    }
}

/// The lines of children `j..` of a container shown at depth `pd`.
pub open spec fn kid_lines(m: TreeModel, kids: Seq<(Option<Seq<char>>, u32)>, j: int, pd: nat, fl: Seq<String>) -> Seq<Seq<char>>
    decreases 26 - pd, 0int, kids.len() - j,
{
    if pd > 24 || j < 0 || j >= kids.len() {
        seq![]
    } else {
        match kids[j].0 {
            Some(h) => seq![indent(pd + 1) + h] + dump_lines_of(m, kids[j].1, pd + 2, fl) + kid_lines(m, kids, j + 1, pd, fl),
            None => dump_lines_of(m, kids[j].1, pd + 1, fl) + kid_lines(m, kids, j + 1, pd, fl),
        }
    }
}

/// The texts of lines.
pub open spec fn lines_view(v: Seq<String>) -> Seq<Seq<char>> {
    v.map_values(|s: String| s@)
}

/// The children as heads and values.
pub open spec fn kids_view(v: Seq<(Option<String>, u32)>) -> Seq<(Option<Seq<char>>, u32)> {
    v.map_values(|k: (Option<String>, u32)| (match k.0 {
        Some(h) => Some(h@),
        None => None,
    }, k.1))
}

fn indent_text(n: usize) -> (r: String)
    ensures
        r@ == indent(n as nat),
{
    let mut s = String::new();
    let mut i: usize = 0;
    while i < n
        invariant
            i <= n,
            s@ == indent(i as nat),
        decreases n - i,
    {
        s = joined(s.as_str(), "  ");
        i = i + 1;
    }
    s
}

fn sym_text_exec(tree: &Tree, s: u32) -> (r: String)
    ensures
        r@ == sym_text(tree@, s),
{
    if (s as usize) < tree.sym_count() {
        tree.sym_display(s)
    } else {
        joined(numbered("<符号 ", s).as_str(), ">")
    }
}

/// The type of the value at `idx` in words, as the dump listing shows it.
pub fn node_type_text(tree: &Tree, idx: u32, fl: &Vec<String>) -> (r: String)
    ensures
        r@ == type_text(tree@, idx, fl@),
{
    if idx == NIL_NODE {
        return name("nil");
    }
    if idx == TRUE_NODE {
        return name("true");
    }
    if idx == FALSE_NODE {
        return name("false");
    }
    if idx as usize >= tree.node_count() {
        return name("?");
    }
    match tree.kind(idx) {
        Kind::Nil => name("nil"),
        Kind::True => name("true"),
        Kind::False => name("false"),
        Kind::Fixnum(v) => joined("整数 ", i64_text(*v).as_str()),
        Kind::Bignum { .. } => name("大整数"),
        Kind::Float(_) => {
            if (idx as usize) < fl.len() {
                joined("浮点 ", fl[idx as usize].as_str())
            } else {
                joined("浮点 ", "?")
            }
        },
        Kind::Str(s) => joined("字符串 ", debug_text(s.display().as_str()).as_str()),
        Kind::Sym(s) => joined("符号 ", sym_text_exec(tree, *s).as_str()),
        Kind::Regexp { .. } => name("正则"),
        Kind::Array(_) => name("数组"),
        Kind::Hash { .. } => name("哈希"),
        Kind::Object { class, .. } => joined("对象 ", sym_text_exec(tree, *class).as_str()),
        Kind::Struct { class, .. } => joined("结构体 ", sym_text_exec(tree, *class).as_str()),
        Kind::Class(_) => name("类"),
        Kind::Module { .. } => name("模块"),
        Kind::Extended { .. } => name("扩展"),
        Kind::UClass { .. } => name("用户类"),
        Kind::Ival { .. } => name("Ivar包装"),
        Kind::UserDef { class, .. } => joined("UserDef ", sym_text_exec(tree, *class).as_str()),
        Kind::UserMarshal { class, .. } => joined("UserMarshal ", sym_text_exec(tree, *class).as_str()),
        Kind::Data { class, .. } => joined("Data ", sym_text_exec(tree, *class).as_str()),
    }
}


fn sym_kids_exec(tree: &Tree, pairs: &Vec<(u32, u32)>, pre: &str, post: &str) -> (r: Vec<(Option<String>, u32)>)
    ensures
        kids_view(r@) == sym_kids(tree@, pairs@, pre@, post@),
{
    let mut v: Vec<(Option<String>, u32)> = Vec::new();
    let mut j: usize = 0;
    while j < pairs.len()
        invariant
            j <= pairs.len(),
            v.len() == j,
            forall|k: int| 0 <= k < j ==> #[trigger] kids_view(v@)[k] == (Some(pre@ + sym_text(tree@, pairs@[k].0) + post@), pairs@[k].1),
        decreases pairs.len() - j,
    {
        let (key, val) = pairs[j];
        let head = joined(joined(pre, sym_text_exec(tree, key).as_str()).as_str(), post);
        let ghost before = v@;
        v.push((Some(head), val));
        proof {
            assert forall|k: int| 0 <= k < j + 1 implies #[trigger] kids_view(v@)[k] == (Some(pre@ + sym_text(tree@, pairs@[k].0) + post@), pairs@[k].1) by {
                if k < j {
                    assert(v@[k] == before[k]);
                    assert(kids_view(before)[k] == kids_view(v@)[k]);
                }
            }
        }
        j = j + 1;
    }
    assert(kids_view(v@) =~= sym_kids(tree@, pairs@, pre@, post@));
    v
}


fn item_kids(items: &Vec<u32>) -> (r: Vec<(Option<String>, u32)>)
    ensures
        kids_view(r@) == Seq::new(items@.len(), |j: int| (None::<Seq<char>>, items@[j])),
{
    let mut v: Vec<(Option<String>, u32)> = Vec::new();
    let mut j: usize = 0;
    while j < items.len()
        invariant
            j <= items.len(),
            v.len() == j,
            forall|k: int| 0 <= k < j ==> #[trigger] kids_view(v@)[k] == (None::<Seq<char>>, items@[k]),
        decreases items.len() - j,
    {
        let ghost before = v@;
        v.push((None, items[j]));
        proof {
            assert forall|k: int| 0 <= k < j + 1 implies #[trigger] kids_view(v@)[k] == (None::<Seq<char>>, items@[k]) by {
                if k < j {
                    assert(v@[k] == before[k]);
                    assert(kids_view(before)[k] == kids_view(v@)[k]);
                }
            }
        }
        j = j + 1;
    }
    assert(kids_view(v@) =~= Seq::new(items@.len(), |j: int| (None::<Seq<char>>, items@[j])));
    v
}

fn key_kids(tree: &Tree, pairs: &Vec<(u32, u32)>, fl: &Vec<String>) -> (r: Vec<(Option<String>, u32)>)
    ensures
        kids_view(r@) == Seq::new(pairs@.len(), |j: int| (Some("键: "@ + type_text(tree@, pairs@[j].0, fl@)), pairs@[j].1)),
{
    let mut v: Vec<(Option<String>, u32)> = Vec::new();
    let mut j: usize = 0;
    while j < pairs.len()
        invariant
            j <= pairs.len(),
            v.len() == j,
            forall|k: int| 0 <= k < j ==> #[trigger] kids_view(v@)[k] == (Some("键: "@ + type_text(tree@, pairs@[k].0, fl@)), pairs@[k].1),
        decreases pairs.len() - j,
    {
        let (key, val) = pairs[j];
        let head = joined("键: ", node_type_text(tree, key, fl).as_str());
        let ghost before = v@;
        v.push((Some(head), val));
        proof {
            assert forall|k: int| 0 <= k < j + 1 implies #[trigger] kids_view(v@)[k] == (Some("键: "@ + type_text(tree@, pairs@[k].0, fl@)), pairs@[k].1) by {
                if k < j {
                    assert(v@[k] == before[k]);
                    assert(kids_view(before)[k] == kids_view(v@)[k]);
                }
            }
        }
        j = j + 1;
    }
    assert(kids_view(v@) =~= Seq::new(pairs@.len(), |j: int| (Some("键: "@ + type_text(tree@, pairs@[j].0, fl@)), pairs@[j].1)));
    v
}

fn mod_names_text(tree: &Tree, mods: &Vec<u32>) -> (r: String)
    ensures
        r@ == debug_items(Seq::new(mods@.len(), |j: int| sym_text(tree@, mods@[j]))),
{
    let ghost names = Seq::new(mods@.len(), |j: int| sym_text(tree@, mods@[j]));
    let mut s = String::new();
    let mut j: usize = 0;
    while j < mods.len()
        invariant
            j <= mods.len(),
            names == Seq::new(mods@.len(), |j: int| sym_text(tree@, mods@[j])),
            s@ == debug_items(names.take(j as int)),
        decreases mods.len() - j,
    {
        let q = debug_text(sym_text_exec(tree, mods[j]).as_str());
        proof {
            assert(names.take(j + 1).drop_last() =~= names.take(j as int));
            assert(names.take(j + 1).last() == names[j as int]);
        }
        if j == 0 {
            s = q;
        } else {
            s = joined(joined(s.as_str(), ", ").as_str(), q.as_str());
        }
        j = j + 1;
    }
    assert(names.take(mods.len() as int) =~= names);
    s
}

/// The head line and the children of a container node (`None` for a value
/// shown on one line).
fn nested_exec(tree: &Tree, idx: u32, fl: &Vec<String>) -> (r: Option<(String, Vec<(Option<String>, u32)>)>)
    requires
        (idx as int) < tree@.nodes.len(),
    ensures
        match r {
            Some(x) => nested_of(tree@, idx, fl@) == Some((x.0@, kids_view(x.1@))),
            None => nested_of(tree@, idx, fl@) is None,
        },
{
    match tree.kind(idx) {
        Kind::Array(items) => {
            let head = joined(joined("数组[", usize_text(items.len()).as_str()).as_str(), "]");
            Some((head, item_kids(items)))
        },
        Kind::Hash { pairs, default } => {
            let count = joined(joined("哈希[", usize_text(pairs.len()).as_str()).as_str(), "]");
            let head = joined(count.as_str(), if default.is_some() { " (带默认值)" } else { "" });
            let mut kids = key_kids(tree, pairs, fl);
            let ghost base = kids_view(kids@);
            match default {
                Some(d) => {
                    kids.push((Some(name("默认值:")), *d));
                    assert(kids_view(kids@) =~= base + seq![(Some("默认值:"@), *d)]);
                },
                None => {
                    assert(kids_view(kids@) =~= base + seq![]);
                },
            }
            Some((head, kids))
        },
        Kind::Object { class, ivars } => {
            let count = joined(joined(" [", usize_text(ivars.len()).as_str()).as_str(), "]");
            let head = joined(joined("对象 ", sym_text_exec(tree, *class).as_str()).as_str(), count.as_str());
            proof {
                assert(head@ =~= "对象 "@ + sym_text(tree@, *class) + " ["@ + dec_chars(ivars@.len()) + "]"@);
            }
            Some((head, sym_kids_exec(tree, ivars, "@", ":")))
        },
        Kind::Struct { class, members } => {
            let count = joined(joined(" [", usize_text(members.len()).as_str()).as_str(), "]");
            let head = joined(joined("结构体 ", sym_text_exec(tree, *class).as_str()).as_str(), count.as_str());
            proof {
                assert(head@ =~= "结构体 "@ + sym_text(tree@, *class) + " ["@ + dec_chars(members@.len()) + "]"@);
            }
            Some((head, sym_kids_exec(tree, members, ":", ":")))
        },
        Kind::Extended { mods, inner } => {
            let head = joined(joined("扩展 [", mod_names_text(tree, mods).as_str()).as_str(), "] →");
            let mut kids: Vec<(Option<String>, u32)> = Vec::new();
            kids.push((None, *inner));
            assert(kids_view(kids@) =~= seq![(None::<Seq<char>>, *inner)]);
            Some((head, kids))
        },
        Kind::UClass { cls, inner } => {
            let head = joined(joined("用户类 ", sym_text_exec(tree, *cls).as_str()).as_str(), " →");
            let mut kids: Vec<(Option<String>, u32)> = Vec::new();
            kids.push((None, *inner));
            assert(kids_view(kids@) =~= seq![(None::<Seq<char>>, *inner)]);
            Some((head, kids))
        },
        Kind::Ival { inner, pairs } => {
            let head = joined(joined("Ivar包装 [", usize_text(pairs.len()).as_str()).as_str(), "] →");
            let mut kids = sym_kids_exec(tree, pairs, ":", ":");
            let ghost base = kids_view(kids@);
            kids.push((None, *inner));
            assert(kids_view(kids@) =~= base + seq![(None::<Seq<char>>, *inner)]);
            Some((head, kids))
        },
        Kind::UserMarshal { class, inner } => {
            let head = joined(joined("UserMarshal ", sym_text_exec(tree, *class).as_str()).as_str(), " →");
            let mut kids: Vec<(Option<String>, u32)> = Vec::new();
            kids.push((None, *inner));
            assert(kids_view(kids@) =~= seq![(None::<Seq<char>>, *inner)]);
            Some((head, kids))
        },
        Kind::Data { class, inner } => {
            let head = joined(joined("Data ", sym_text_exec(tree, *class).as_str()).as_str(), " →");
            let mut kids: Vec<(Option<String>, u32)> = Vec::new();
            kids.push((None, *inner));
            assert(kids_view(kids@) =~= seq![(None::<Seq<char>>, *inner)]);
            Some((head, kids))
        },
        _ => None,
    }
}


fn leaf_text_exec(tree: &Tree, idx: u32, fl: &Vec<String>) -> (r: String)
    requires
        (idx as int) < tree@.nodes.len(),
    ensures
        r@ == leaf_text(tree@, idx, fl@),
{
    match tree.kind(idx) {
        Kind::UserDef { class, payload } => {
            let head = joined(joined("UserDef ", sym_text_exec(tree, *class).as_str()).as_str(), " payload ");
            joined(head.as_str(), debug_text(payload.display().as_str()).as_str())
        },
        _ => node_type_text(tree, idx, fl),
    }
}

/// Appends one line: `depth` levels of indentation, then `text`.
fn push_line(out: &mut Vec<String>, depth: usize, text: &str)
    ensures
        lines_view(final(out)@) == lines_view(old(out)@) + seq![indent(depth as nat) + text@],
{
    let ghost before = out@;
    out.push(joined(indent_text(depth).as_str(), text));
    assert(lines_view(out@) =~= lines_view(before) + seq![indent(depth as nat) + text@]);
}

fn dump_into(tree: &Tree, idx: u32, depth: usize, fl: &Vec<String>, out: &mut Vec<String>)
    requires
        depth <= 26,
    ensures
        lines_view(final(out)@) == lines_view(old(out)@) + dump_lines_of(tree@, idx, depth as nat, fl@),
    decreases 26 - depth, 1int,
{
    if depth > 24 {
        push_line(out, depth, "...");
        return;
    }
    if idx == NIL_NODE || idx == TRUE_NODE || idx == FALSE_NODE || idx as usize >= tree.node_count() {
        push_line(out, depth, node_type_text(tree, idx, fl).as_str());
        return;
    }
    match nested_exec(tree, idx, fl) {
        Some((head, kids)) => {
            let ghost start = lines_view(out@);
            push_line(out, depth, head.as_str());
            let ghost mid = lines_view(out@);
            kids_into(tree, &kids, depth, fl, out);
            assert(lines_view(out@) =~= start + dump_lines_of(tree@, idx, depth as nat, fl@));
        },
        None => {
            push_line(out, depth, leaf_text_exec(tree, idx, fl).as_str());
        },
    }
}

fn kids_into(tree: &Tree, kids: &Vec<(Option<String>, u32)>, pd: usize, fl: &Vec<String>, out: &mut Vec<String>)
    requires
        pd <= 24,
    ensures
        lines_view(final(out)@) == lines_view(old(out)@) + kid_lines(tree@, kids_view(kids@), 0, pd as nat, fl@),
    decreases 26 - pd, 0int,
{
    let ghost kv = kids_view(kids@);
    let ghost start = lines_view(out@);
    let mut j: usize = 0;
    while j < kids.len()
        invariant
            j <= kids.len(),
            pd <= 24,
            kv == kids_view(kids@),
            start + kid_lines(tree@, kv, 0, pd as nat, fl@) == lines_view(out@) + kid_lines(tree@, kv, j as int, pd as nat, fl@),
        decreases kids.len() - j,
    {
        let ghost before = lines_view(out@);
        let ghost rest = kid_lines(tree@, kv, j + 1, pd as nat, fl@);
        let child = kids[j].1;
        match &kids[j].0 {
            Some(h) => {
                push_line(out, pd + 1, h.as_str());
                dump_into(tree, child, pd + 2, fl, out);
                assert(kid_lines(tree@, kv, j as int, pd as nat, fl@) == seq![indent((pd + 1) as nat) + h@] + dump_lines_of(tree@, child, (pd + 2) as nat, fl@) + rest);
            },
            None => {
                dump_into(tree, child, pd + 1, fl, out);
                assert(kid_lines(tree@, kv, j as int, pd as nat, fl@) == dump_lines_of(tree@, child, (pd + 1) as nat, fl@) + rest);
            },
        }
        assert(start + kid_lines(tree@, kv, 0, pd as nat, fl@) =~= lines_view(out@) + rest);
        j = j + 1;
    }
}

/// The dump listing of the value at `idx`: one line per node, nested values
/// indented two spaces per level, cut off below depth 24. `float_labels[i]` is
/// the text shown for the float at node `i`.
pub fn tree_dump_lines(tree: &Tree, idx: u32, float_labels: &Vec<String>) -> (r: Vec<String>)
    ensures
        lines_view(r@) == dump_lines_of(tree@, idx, 0, float_labels@),
{
    let mut out: Vec<String> = Vec::new();
    assert(lines_view(out@) =~= seq![]);
    dump_into(tree, idx, 0, float_labels, &mut out);
    assert(lines_view(out@) =~= dump_lines_of(tree@, idx, 0, float_labels@));
    out
}

} // verus!
