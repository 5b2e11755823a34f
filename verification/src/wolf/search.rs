//! Finding the numbers of a Wolf RPG save: every leaf that holds a value,
//! by its path of field names and list indices, and the node at such a path.
use vstd::prelude::*;
use crate::text::{dec_chars, unsigned_decimal, lowercased, lower, usize_text, utf8_lossy, sjis_decoded};
use crate::util::{first_index, is_first};
use crate::wolf::node::{num_value, strip_nul, Node};

verus! {

/// The path steps as texts.
pub open spec fn keys_view(path: Seq<String>) -> Seq<Seq<char>> {
    path.map_values(|s: String| s@)
}

/// The hits as segment indices and paths of texts.
pub open spec fn hits_view(out: Seq<(usize, Vec<String>)>) -> Seq<(usize, Seq<Seq<char>>)> {
    out.map_values(|h: (usize, Vec<String>)| (h.0, keys_view(h.1@)))
}

/// The leaves below `n` (at `path` in segment `si`) whose value is `target`,
/// in the order the tree is written: a section's children under their names,
/// a list's items under their indices in decimal.
pub open spec fn num_hits(n: Node, target: u64, si: usize, path: Seq<Seq<char>>) -> Seq<(usize, Seq<Seq<char>>)>
    decreases n,
{
    match n {
        Node::Sec(fields) => field_hits(fields@, target, si, path),
        Node::List(items) => item_hits(items@, target, si, path),
        _ => if num_value(n) == Some(target) {
            seq![(si, path)]
        } else {
            seq![]
        },
    }
}

/// The hits below named children, in order.
pub open spec fn field_hits(s: Seq<(String, Node)>, target: u64, si: usize, path: Seq<Seq<char>>) -> Seq<(usize, Seq<Seq<char>>)>
    decreases s,
{
    if s.len() == 0 {
        seq![]
    } else {
        proof {
            assert(decreases_to!(s => s[s.len() - 1]));
        }
        field_hits(s.drop_last(), target, si, path) + num_hits(s.last().1, target, si, path.push(s.last().0@))
    }
}

/// The hits below the items of a list, in order.
pub open spec fn item_hits(s: Seq<Node>, target: u64, si: usize, path: Seq<Seq<char>>) -> Seq<(usize, Seq<Seq<char>>)>
    decreases s,
{
    if s.len() == 0 {
        seq![]
    } else {
        proof {
            assert(decreases_to!(s => s[s.len() - 1]));
        }
        item_hits(s.drop_last(), target, si, path) + num_hits(s.last(), target, si, path.push(dec_chars((s.len() - 1) as nat)))
    }
}

fn copy_path(path: &Vec<String>) -> (r: Vec<String>)
    ensures
        keys_view(r@) == keys_view(path@),
{
    let mut out: Vec<String> = Vec::new();
    let mut i: usize = 0;
    while i < path.len()
        invariant
            i <= path@.len(),
            out@.len() == i,
            forall|k: int| 0 <= k < i ==> #[trigger] out@[k]@ == path@[k]@,
        decreases path@.len() - i,
    {
        out.push(path[i].clone());
        i = i + 1;
    }
    assert(keys_view(out@) =~= keys_view(path@));
    out
}

/// Appends to `out`, with `si` and its path, every leaf below `node` (found at
/// `path`) whose value is `target` (see [`num_hits`]); `path` is left as it was.
pub fn collect_num_matches(
    node: &Node,
    target: u64,
    si: usize,
    path: &mut Vec<String>,
    out: &mut Vec<(usize, Vec<String>)>,
)
    ensures
        keys_view(final(path)@) == keys_view(old(path)@),
        hits_view(final(out)@) == hits_view(old(out)@) + num_hits(*node, target, si, keys_view(old(path)@)),
    decreases node,
{
    let ghost p0 = keys_view(path@);
    match node {
        Node::Sec(fields) => {
            let mut i: usize = 0;
            while i < fields.len()
                invariant
                    i <= fields@.len(),
                    *node == Node::Sec(*fields),
                    p0 == keys_view(old(path)@),
                    keys_view(path@) == p0,
                    hits_view(out@) == hits_view(old(out)@) + field_hits(fields@.subrange(0, i as int), target, si, p0),
                decreases fields@.len() - i,
            {
                proof {
                    assert(decreases_to!(*node => (*node)->Sec_0));
                    vstd::std_specs::vec::axiom_vec_index_decreases(*fields, i as int);
                    assert(decreases_to!(*fields => fields[i as int]));
                    assert(decreases_to!(fields[i as int] => fields[i as int].1));
                    assert(decreases_to!(*node => fields[i as int].1));
                }
                let ghost before = out@;
                path.push(fields[i].0.clone());
                assert(keys_view(path@) =~= p0.push(fields@[i as int].0@));
                collect_num_matches(&fields[i].1, target, si, path, out);
                let ghost mid = path@;
                assert(keys_view(mid) == p0.push(fields@[i as int].0@));
                path.pop();
                proof {
                    assert(path@ =~= mid.drop_last());
                    assert forall|k: int| 0 <= k < p0.len() implies #[trigger] keys_view(path@)[k] == p0[k] by {
                        assert(keys_view(mid)[k] == p0.push(fields@[i as int].0@)[k]);
                    }
                    assert(keys_view(path@) =~= p0);
                    let s = fields@.subrange(0, i + 1);
                    assert(s.drop_last() =~= fields@.subrange(0, i as int));
                    assert(s.last() == fields@[i as int]);
                }
                i = i + 1;
            }
            assert(fields@.subrange(0, fields@.len() as int) =~= fields@);
        },
        Node::List(items) => {
            let mut i: usize = 0;
            while i < items.len()
                invariant
                    i <= items@.len(),
                    *node == Node::List(*items),
                    p0 == keys_view(old(path)@),
                    keys_view(path@) == p0,
                    hits_view(out@) == hits_view(old(out)@) + item_hits(items@.subrange(0, i as int), target, si, p0),
                decreases items@.len() - i,
            {
                proof {
                    assert(decreases_to!(*node => (*node)->List_0));
                    vstd::std_specs::vec::axiom_vec_index_decreases(*items, i as int);
                    assert(decreases_to!(*node => items[i as int]));
                }
                path.push(crate::text::usize_text(i));
                assert(keys_view(path@) =~= p0.push(dec_chars(i as nat)));
                collect_num_matches(&items[i], target, si, path, out);
                let ghost mid = path@;
                assert(keys_view(mid) == p0.push(dec_chars(i as nat)));
                path.pop();
                proof {
                    assert(path@ =~= mid.drop_last());
                    assert forall|k: int| 0 <= k < p0.len() implies #[trigger] keys_view(path@)[k] == p0[k] by {
                        assert(keys_view(mid)[k] == p0.push(dec_chars(i as nat))[k]);
                    }
                    assert(keys_view(path@) =~= p0);
                    let s = items@.subrange(0, i + 1);
                    assert(s.drop_last() =~= items@.subrange(0, i as int));
                    assert(s.len() - 1 == i);
                }
                i = i + 1;
            }
            assert(items@.subrange(0, items@.len() as int) =~= items@);
        },
        _ => {
            if node.as_u64() == Some(target) {
                let ghost before = out@;
                let p = copy_path(path);
                out.push((si, p));
                assert(hits_view(out@) =~= hits_view(before).push((si, p0)));
                assert(num_hits(*node, target, si, p0) == seq![(si, p0)]);
                assert(hits_view(out@) =~= hits_view(before) + seq![(si, p0)]);
            } else {
                assert(num_hits(*node, target, si, p0) =~= seq![]);
                assert(hits_view(old(out)@) + seq![] =~= hits_view(old(out)@));
            }
        },
    }
}

/// A field named `key`.
pub open spec fn named(key: Seq<char>) -> spec_fn((String, Node)) -> bool {
    |f: (String, Node)| f.0@ == key
}

/// The child of `n` under one path step: a section's first field of that
/// name; a list's item at that decimal index.
pub open spec fn child_at(n: Node, key: Seq<char>) -> Option<Node> {
    match n {
        Node::Sec(fields) => match first_index(fields@, named(key)) {
            Some(j) => Some(fields@[j].1),
            None => None,
        },
        Node::List(items) => match unsigned_decimal(key) {
            Some(i) => if i < items@.len() { Some(items@[i as int]) } else { None },
            None => None,
        },
        _ => None,
    }
}

/// The node reached from `n` by the steps of `keys`.
pub open spec fn descend(n: Node, keys: Seq<Seq<char>>) -> Option<Node>
    decreases keys.len(),
{
    if keys.len() == 0 {
        Some(n)
    } else {
        match child_at(n, keys[0]) {
            Some(c) => descend(c, keys.drop_first()),
            None => None,
        }
    }
}

/// The node at a path of segment `si`: its first step names a field of the
/// segment, the others go down from there.
pub open spec fn path_node(segs: Seq<Vec<(String, Node)>>, si: int, keys: Seq<Seq<char>>) -> Option<Node> {
    if keys.len() == 0 || si < 0 || si >= segs.len() {
        None
    } else {
        match first_index(segs[si]@, named(keys[0])) {
            Some(j) => descend(segs[si]@[j].1, keys.drop_first()),
            None => None,
        }
    }
}

/// `nf` is `of` with only the child at `j` changed, its name kept.
pub open spec fn one_child_changed<A>(of: Seq<A>, nf: Seq<A>, j: int) -> bool {
    &&& nf.len() == of.len()
    &&& forall|k: int| 0 <= k < of.len() && k != j ==> #[trigger] nf[k] == of[k]
}

/// `new` is `old` with the node at `keys` replaced by `v` (false where the path
/// does not resolve).
pub open spec fn replaced(old: Node, new: Node, keys: Seq<Seq<char>>, v: Node) -> bool
    decreases keys.len(),
{
    if keys.len() == 0 {
        new == v
    } else {
        match old {
            Node::Sec(of) => match first_index(of@, named(keys[0])) {
                Some(j) => (new matches Node::Sec(nf) && one_child_changed(of@, nf@, j) && nf@[j].0 == of@[j].0
                    && replaced(of@[j].1, nf@[j].1, keys.drop_first(), v)),
                None => false,
            },
            Node::List(oi) => match unsigned_decimal(keys[0]) {
                Some(i) => i < oi@.len() && (new matches Node::List(ni) && one_child_changed(oi@, ni@, i as int)
                    && replaced(oi@[i as int], ni@[i as int], keys.drop_first(), v)),
                None => false,
            },
            _ => false,
        }
    }
}

/// `new` is `old` with the node at path `keys` of segment `si` replaced by `v`.
pub open spec fn segs_replaced(old: Seq<Vec<(String, Node)>>, new: Seq<Vec<(String, Node)>>, si: int, keys: Seq<Seq<char>>, v: Node) -> bool {
    &&& keys.len() > 0 && 0 <= si < old.len()
    &&& one_child_changed(old, new, si)
    &&& first_index(old[si]@, named(keys[0])) matches Some(j) && {
        let of = old[si]@;
        let nf = new[si]@;
        one_child_changed(of, nf, j) && nf[j].0 == of[j].0 && replaced(of[j].1, nf[j].1, keys.drop_first(), v)
    }
}

fn find_field(fields: &Vec<(String, Node)>, key: &String) -> (r: Option<usize>)
    ensures
        r matches Some(j) ==> first_index(fields@, named(key@)) == Some(j as int),
        r is None ==> first_index(fields@, named(key@)) is None,
{
    let mut i: usize = 0;
    while i < fields.len()
        invariant
            i <= fields@.len(),
            forall|k: int| 0 <= k < i ==> !(named(key@))(#[trigger] fields@[k]),
        decreases fields@.len() - i,
    {
        if fields[i].0 == *key {
            proof {
                crate::util::lemma_first_index_at(fields@, named(key@), i as int);
            }
            return Some(i);
        }
        i = i + 1;
    }
    proof {
        crate::util::lemma_first_index_none(fields@, named(key@));
    }
    None
}

/// The node at `path` of segment `si` (see [`path_node`]).
pub fn node_at<'a>(segments: &'a [Vec<(String, Node)>], si: usize, path: &[String]) -> (r: Option<&'a Node>)
    ensures
        match path_node(segments@, si as int, keys_view(path@)) {
            Some(n) => r matches Some(x) && *x == n,
            None => r is None,
        },
{
    let ghost keys = keys_view(path@);
    if path.len() == 0 || si >= segments.len() {
        return None;
    }
    let j = match find_field(&segments[si], &path[0]) {
        Some(j) => j,
        None => return None,
    };
    let mut cur: &Node = &segments[si][j].1;
    let mut k: usize = 1;
    assert(keys.subrange(1, keys.len() as int) =~= keys.drop_first());
    while k < path.len()
        invariant
            1 <= k <= path@.len(),
            keys == keys_view(path@),
            descend(*cur, keys.subrange(k as int, keys.len() as int)) == path_node(segments@, si as int, keys),
        decreases path@.len() - k,
    {
        let ghost rest = keys.subrange(k as int, keys.len() as int);
        assert(rest.drop_first() =~= keys.subrange(k + 1, keys.len() as int));
        assert(rest[0] == path@[k as int]@);
        match cur {
            Node::Sec(fields) => {
                match find_field(fields, &path[k]) {
                    Some(j) => {
                        cur = &fields[j].1;
                    },
                    None => return None,
                }
            },
            Node::List(items) => {
                let n_items = items.len();
                assert(items@.len() <= u64::MAX);
                match crate::text::parse_u64(path[k].as_str()) {
                    Some(x) => {
                        if x >= n_items as u64 {
                            return None;
                        }
                        cur = &items[x as usize];
                    },
                    None => return None,
                }
            },
            _ => return None,
        }
        k = k + 1;
    }
    assert(keys.subrange(k as int, keys.len() as int) =~= seq![]);
    Some(cur)
}

/// Replaces the node at step `k` on of `path` below `n` (where the path leads) by `v`.
fn replace_in(n: &mut Node, path: &[String], k: usize, v: Node)
    requires
        k <= path@.len(),
        descend(*old(n), keys_view(path@).subrange(k as int, path@.len() as int)) is Some,
    ensures
        replaced(*old(n), *final(n), keys_view(path@).subrange(k as int, path@.len() as int), v),
    decreases path@.len() - k,
{
    let ghost keys = keys_view(path@).subrange(k as int, path@.len() as int);
    if k == path.len() {
        assert(keys =~= seq![]);
        *n = v;
        return;
    }
    assert(keys[0] == path@[k as int]@);
    assert(keys.drop_first() =~= keys_view(path@).subrange(k + 1, path@.len() as int));
    match n {
        Node::Sec(fields) => {
            let j = match find_field(fields, &path[k]) {
                Some(j) => j,
                None => return,
            };
            let (name, mut child) = fields.remove(j);
            replace_in(&mut child, path, k + 1, v);
            fields.insert(j, (name, child));
        },
        Node::List(items) => {
            let n_items = items.len();
            assert(items@.len() <= u64::MAX);
            let idx = match crate::text::parse_u64(path[k].as_str()) {
                Some(x) => x,
                None => return,
            };
            if idx >= n_items as u64 {
                return;
            }
            let i = idx as usize;
            let mut child = items.remove(i);
            replace_in(&mut child, path, k + 1, v);
            items.insert(i, child);
        },
        _ => {},
    }
}

/// Replaces the node at `path` of segment `si` by `v`; false, with nothing
/// changed, where the path leads nowhere (see [`path_node`]).
pub fn set_node_at(segments: &mut Vec<Vec<(String, Node)>>, si: usize, path: &[String], v: Node) -> (r: bool)
    ensures
        r == path_node(old(segments)@, si as int, keys_view(path@)) is Some,
        r ==> segs_replaced(old(segments)@, final(segments)@, si as int, keys_view(path@), v),
        !r ==> final(segments)@ == old(segments)@,
{
    let ghost keys = keys_view(path@);
    if node_at(segments.as_slice(), si, path).is_none() {
        return false;
    }
    let j = match find_field(&segments[si], &path[0]) {
        Some(j) => j,
        None => return false,
    };
    assert(keys.subrange(1, keys.len() as int) =~= keys.drop_first());
    let mut seg = segments.remove(si);
    let (name, mut node) = seg.remove(j);
    replace_in(&mut node, path, 1, v);
    seg.insert(j, (name, node));
    segments.insert(si, seg);
    true
}

/// `needle` occurs in `hay`.
pub open spec fn occurs_in(hay: Seq<char>, needle: Seq<char>) -> bool {
    exists|i: int| 0 <= i <= hay.len() - needle.len() && #[trigger] hay.subrange(i, i + needle.len()) == needle
}

/// The characters of a text.
fn chars_of(s: &str) -> (r: Vec<char>)
    ensures
        r@ == s@,
{
    broadcast use vstd::string::axiom_spec_iter;
    let mut v: Vec<char> = Vec::new();
    for c in it: s.chars()
        invariant
            it.seq() == s@,
            v@ == s@.subrange(0, it.index() as int),
    {
        v.push(c);
        assert(v@ =~= s@.subrange(0, it.index() + 1));
    }
    assert(v@ =~= s@);
    v
}

/// Whether `needle` occurs in `hay`.
pub fn text_contains(hay: &str, needle: &str) -> (r: bool)
    ensures
        r == occurs_in(hay@, needle@),
{
    let h = chars_of(hay);
    let n = chars_of(needle);
    if n.len() > h.len() {
        proof {
            assert forall|i: int| 0 <= i <= hay@.len() - needle@.len() implies #[trigger] hay@.subrange(i, i + needle@.len()) != needle@ by {
            }
        }
        return false;
    }
    let mut i: usize = 0;
    while i <= h.len() - n.len()
        invariant
            h@ == hay@,
            n@ == needle@,
            n@.len() <= h@.len(),
            i <= h@.len() - n@.len() + 1,
            forall|k: int| 0 <= k < i ==> #[trigger] hay@.subrange(k, k + needle@.len()) != needle@,
        decreases h@.len() - n@.len() + 1 - i,
    {
        let mut j: usize = 0;
        let mut same = true;
        while j < n.len()
            invariant
                h@ == hay@,
                n@ == needle@,
                i + n@.len() <= h@.len(),
                i + n.len() <= h.len(),
                j <= n@.len(),
                same ==> forall|t: int| 0 <= t < j ==> h@[i + t] == n@[t],
                !same ==> exists|t: int| 0 <= t < n@.len() && h@[i + t] != n@[t],
            decreases n@.len() - j,
        {
            assert(i + j < h@.len());
            if h[i + j] != n[j] {
                same = false;
            }
            j = j + 1;
        }
        if same {
            assert(hay@.subrange(i as int, i + needle@.len()) =~= needle@);
            return true;
        }
        proof {
            let t = choose|t: int| 0 <= t < n@.len() && h@[i + t] != n@[t];
            assert(hay@.subrange(i as int, i + needle@.len())[t] != needle@[t]);
        }
        i = i + 1;
    }
    false
}

/// A number field equal to `num` (a 32-bit signed field by its signed value,
/// any other number field by its stored bits read as `i64`).
pub open spec fn num_matches(n: Node, num: i64) -> bool {
    match n {
        Node::I32(v) => v as i64 == num,
        _ => match num_value(n) {
            Some(v) => v as i64 == num,
            None => false,
        },
    }
}

/// A string field whose lower-cased text holds `q`.
pub open spec fn str_matches(n: Node, is_utf8: bool, q: Seq<char>) -> bool {
    match n {
        Node::Str { bytes, .. } => occurs_in(
            lowercased(if is_utf8 { utf8_lossy(strip_nul(bytes@)) } else { sjis_decoded(strip_nul(bytes@)) }),
            q,
        ),
        _ => false,
    }
}

/// The label of row `ri` of a variable type: its data name, or its index
/// when the name is missing or empty.
pub open spec fn row_label(name: Option<Seq<char>>, ri: usize) -> Seq<char> {
    match name {
        Some(t) => if t.len() > 0 { t } else { dec_chars(ri as nat) },
        None => dec_chars(ri as nat),
    }
}

/// Whether a row of a variable type passes the filter: with a number, some
/// field holds it; otherwise an empty query passes every row, and a query
/// (already lower-cased) passes a row whose label or some string field holds
/// it once lower-cased.
pub open spec fn row_passes(fs: Seq<(String, Node)>, label: Seq<char>, filter_num: Option<i64>, q: Seq<char>, is_utf8: bool) -> bool {
    match filter_num {
        Some(num) => exists|k: int| 0 <= k < fs.len() && num_matches(#[trigger] fs[k].1, num),
        None => q.len() == 0 || occurs_in(lowercased(label), q) || exists|k: int|
            0 <= k < fs.len() && str_matches(#[trigger] fs[k].1, is_utf8, q),
    }
}

/// Whether row `ri` (with data name `name`) passes the filter of the
/// variable-database view (see `row_passes`); a node that is not a row of
/// fields passes nothing.
pub fn row_matches(row: &Node, name: Option<&str>, ri: usize, filter_num: Option<i64>, query_lower: &str, is_utf8: bool) -> (r: bool)
    ensures
        match *row {
            Node::Sec(fs) => r == row_passes(
                fs@,
                row_label(match name { Some(t) => Some(t@), None => None }, ri),
                filter_num,
                query_lower@,
                is_utf8,
            ),
            _ => !r,
        },
{
    let fs = match row {
        Node::Sec(fs) => fs,
        _ => return false,
    };
    if let Some(num) = filter_num {
        let mut k: usize = 0;
        while k < fs.len()
            invariant
                k <= fs@.len(),
                *row == Node::Sec(*fs),
                filter_num == Some(num),
                forall|j: int| 0 <= j < k ==> !num_matches(#[trigger] fs@[j].1, num),
            decreases fs@.len() - k,
        {
            let hit = match &fs[k].1 {
                Node::I32(v) => *v as i64 == num,
                other => match other.as_u64() {
                    Some(v) => v as i64 == num,
                    None => false,
                },
            };
            if hit {
                assert(num_matches(fs@[k as int].1, num));
                assert(exists|j: int| 0 <= j < fs@.len() && num_matches(#[trigger] fs@[j].1, num));
                return true;
            }
            k = k + 1;
        }
        return false;
    }
    if query_lower.is_empty() {
        return true;
    }
    let label = match name {
        Some(t) => if !t.is_empty() { lower(t) } else { lower(usize_text(ri).as_str()) },
        None => lower(usize_text(ri).as_str()),
    };
    if text_contains(label.as_str(), query_lower) {
        return true;
    }
    let mut k: usize = 0;
    while k < fs.len()
        invariant
            k <= fs@.len(),
            *row == Node::Sec(*fs),
            filter_num is None,
            query_lower@.len() > 0,
            !occurs_in(lowercased(row_label(match name { Some(t) => Some(t@), None => None }, ri)), query_lower@),
            forall|j: int| 0 <= j < k ==> !str_matches(#[trigger] fs@[j].1, is_utf8, query_lower@),
        decreases fs@.len() - k,
    {
        if let Some(t) = fs[k].1.str_display(is_utf8) {
            if text_contains(lower(t.as_str()).as_str(), query_lower) {
                assert(str_matches(fs@[k as int].1, is_utf8, query_lower@));
                assert(exists|j: int| 0 <= j < fs@.len() && str_matches(#[trigger] fs@[j].1, is_utf8, query_lower@));
                return true;
            }
        }
        k = k + 1;
    }
    false
}

} // verus!
