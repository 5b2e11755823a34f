//! The variable-database project file of Wolf RPG Editor
//! (`Data/BasicData/CDataBase.project`): the names of its types, fields and
//! entries.
//!
//! The file is either plain (its first u32, the type count, is at most 0xFF)
//! or XORed with the low bytes of an MSVC `rand()` stream whose seed is found
//! by trying 0x00 to 0xFF, each taken as a signed byte, until the first four
//! bytes decrypt to a count of at most 0xFF.
use vstd::prelude::*;
use crate::text::{name, lossy_utf8, utf8_lossy};
use crate::util::le_at;
use crate::wolf::crypt::{MsvcRand, lcg_state, rand_at};
use crate::wolf::node::strip_nul;

verus! {

/// Names of one type of the database.
#[derive(Debug, Clone, Default)]
pub struct TypeInfo {
    /// Type name.
    pub name: String,
    /// Field names (index = field id).
    pub fields: Vec<String>,
    /// Entry names (index = entry id).
    pub data_names: Vec<String>,
}

/// The names of a variable database.
#[derive(Debug, Clone, Default)]
pub struct Project {
    pub types: Vec<TypeInfo>,
}

/// A type as stored: its name, field names and entry names, as bytes.
pub type RawType = (Seq<u8>, Seq<Seq<u8>>, Seq<Seq<u8>>);

/// The u32 at `p`, if four bytes are there.
pub open spec fn u32_at(d: Seq<u8>, p: int) -> Option<nat> {
    if 0 <= p && p + 4 <= d.len() {
        Some(le_at(d, p, 4))
    } else {
        None
    }
}

/// A string with a 4-byte length prefix at `p`: its bytes and the position after it.
pub open spec fn str_at(d: Seq<u8>, p: int) -> Option<(Seq<u8>, int)> {
    match u32_at(d, p) {
        None => None,
        Some(n) => if p + 4 + n <= d.len() {
            Some((d.subrange(p + 4, p + 4 + n), p + 4 + n))
        } else {
            None
        },
    }
}

/// `k` such strings in a row.
pub open spec fn strs_at(d: Seq<u8>, p: int, k: nat) -> Option<(Seq<Seq<u8>>, int)>
    decreases k,
{
    if k == 0 {
        Some((seq![], p))
    } else {
        match strs_at(d, p, (k - 1) as nat) {
            None => None,
            Some(r) => match str_at(d, r.1) {
                None => None,
                Some(s) => Some((r.0.push(s.0), s.1)),
            },
        }
    }
}

/// The end of `k` lists of strings, each a u32 count and the strings.
pub open spec fn str_lists_end(d: Seq<u8>, p: int, k: nat) -> Option<int>
    decreases k,
{
    if k == 0 {
        Some(p)
    } else {
        match str_lists_end(d, p, (k - 1) as nat) {
            None => None,
            Some(q) => match u32_at(d, q) {
                None => None,
                Some(c) => match strs_at(d, q + 4, c) {
                    None => None,
                    Some(r) => Some(r.1),
                },
            },
        }
    }
}

/// The end of `k` lists of u32 values, each a u32 count and the values.
pub open spec fn u32_lists_end(d: Seq<u8>, p: int, k: nat) -> Option<int>
    decreases k,
{
    if k == 0 {
        Some(p)
    } else {
        match u32_lists_end(d, p, (k - 1) as nat) {
            None => None,
            Some(q) => match u32_at(d, q) {
                None => None,
                Some(c) => if q + 4 + 4 * c <= d.len() {
                    Some(q + 4 + 4 * c)
                } else {
                    None
                },
            },
        }
    }
}

/// The part of a type record after its entry names: a description, the field
/// type list (its size, one byte per field, then the rest of the size), a list
/// of strings, a list of string lists, a list of u32 lists and a list of u32s.
/// The position after it.
pub open spec fn type_tail_end(d: Seq<u8>, p: int, fields: nat) -> Option<int> {
    match str_at(d, p) {
        None => None,
        Some(desc) => match u32_at(d, desc.1) {
            None => None,
            Some(fts) => {
                let p5 = desc.1 + 4 + fields;
                let p6 = p5 + (if fts > fields { fts - fields } else { 0 });
                if p5 > d.len() || p6 > d.len() {
                    None
                } else {
                    match u32_at(d, p6) {
                        None => None,
                        Some(n1) => match strs_at(d, p6 + 4, n1) {
                            None => None,
                            Some(r1) => match u32_at(d, r1.1) {
                                None => None,
                                Some(n2) => match str_lists_end(d, r1.1 + 4, n2) {
                                    None => None,
                                    Some(p8) => match u32_at(d, p8) {
                                        None => None,
                                        Some(n3) => match u32_lists_end(d, p8 + 4, n3) {
                                            None => None,
                                            Some(p9) => match u32_at(d, p9) {
                                                None => None,
                                                Some(n4) => if p9 + 4 + 4 * n4 <= d.len() {
                                                    Some(p9 + 4 + 4 * n4)
                                                } else {
                                                    None
                                                },
                                            },
                                        },
                                    },
                                },
                            },
                        },
                    }
                }
            },
        },
    }
}

#[verifier::opaque]
/// One type record at `p`: its name, its field names, its entry names, then the
/// rest of the record; with the position after it.
pub open spec fn type_at(d: Seq<u8>, p: int) -> Option<(RawType, int)> {
    match str_at(d, p) {
        None => None,
        Some(nm) => match u32_at(d, nm.1) {
            None => None,
            Some(fc) => match strs_at(d, nm.1 + 4, fc) {
                None => None,
                Some(fs) => match u32_at(d, fs.1) {
                    None => None,
                    Some(dc) => match strs_at(d, fs.1 + 4, dc) {
                        None => None,
                        Some(ds) => match type_tail_end(d, ds.1, fc) {
                            None => None,
                            Some(e) => Some(((nm.0, fs.0, ds.0), e)),
                        },
                    },
                },
            },
        },
    }
}

/// `k` type records in a row.
pub open spec fn types_at(d: Seq<u8>, p: int, k: nat) -> Option<(Seq<RawType>, int)>
    decreases k,
{
    if k == 0 {
        Some((seq![], p))
    } else {
        match types_at(d, p, (k - 1) as nat) {
            None => None,
            Some(r) => match type_at(d, r.1) {
                None => None,
                Some(t) => Some((r.0.push(t.0), t.1)),
            },
        }
    }
}

/// The record of a successful [`type_at`].
pub open spec fn raw_type_of(r: Option<(RawType, int)>) -> RawType {
    r.unwrap().0
}

/// The records of a successful [`types_at`].
pub open spec fn raw_types_of(r: Option<(Seq<RawType>, int)>) -> Seq<RawType> {
    r.unwrap().0
}

/// The type records of a plain project file: a u32 count, then the records.
pub open spec fn project_at(d: Seq<u8>) -> Option<Seq<RawType>> {
    match u32_at(d, 0) {
        None => None,
        Some(n) => match types_at(d, 4, n) {
            None => None,
            Some(r) => Some(r.0),
        },
    }
}

/// The generator state that the seed byte `seed` gives, taken as a signed byte.
pub open spec fn seed_state(seed: u8) -> u32 {
    (seed as i8) as u32
}

/// `d` XORed with the low bytes of the `rand()` stream of `seed`.
pub open spec fn project_crypt(d: Seq<u8>, seed: u8) -> Seq<u8> {
    Seq::new(d.len(), |j: int| d[j] ^ (rand_at(seed_state(seed), j as nat) as u8))
}

/// The seed decrypts the first four bytes of `d` to a type count of at most 0xFF.
pub open spec fn seed_hits(d: Seq<u8>, seed: u8) -> bool {
    le_at(project_crypt(d.subrange(0, 4), seed), 0, 4) <= 0xFF
}

/// The first seed from 0x00 to 0xFF that hits.
pub open spec fn found_seed(d: Seq<u8>) -> Option<int> {
    crate::util::first_index(Seq::new(256, |i: int| i as u8), |s: u8| seed_hits(d, s))
}

/// The plain bytes of a project file: the file itself where its first u32 is
/// at most 0xFF, else the file decrypted with the first seed that hits.
pub open spec fn project_plain(d: Seq<u8>) -> Option<Seq<u8>> {
    if d.len() < 4 {
        None
    } else if le_at(d, 0, 4) <= 0xFF {
        Some(d)
    } else {
        match found_seed(d) {
            None => None,
            Some(s) => Some(project_crypt(d, s as u8)),
        }
    }
}

/// The type records of a project file, encrypted or not.
pub open spec fn project_decoded(d: Seq<u8>) -> Option<Seq<RawType>> {
    match project_plain(d) {
        None => None,
        Some(p) => project_at(p),
    }
}

/// How a name is shown: UTF-8 (invalid sequences replaced) without its final NUL.
pub open spec fn shown(b: Seq<u8>) -> Seq<char> {
    utf8_lossy(strip_nul(b))
}

/// The shown forms of the names.
pub open spec fn names_are(v: Seq<String>, raw: Seq<Seq<u8>>) -> bool {
    &&& v.len() == raw.len()
    &&& forall|j: int| 0 <= j < raw.len() ==> (#[trigger] v[j])@ == shown(raw[j])
}

/// The type holds the shown forms of the stored names.
pub open spec fn type_is(t: TypeInfo, raw: RawType) -> bool {
    &&& t.name@ == shown(raw.0)
    &&& names_are(t.fields@, raw.1)
    &&& names_are(t.data_names@, raw.2)
}

/// The project holds the types stored.
pub open spec fn project_is(p: Project, raw: Seq<RawType>) -> bool {
    &&& p.types@.len() == raw.len()
    &&& forall|k: int| 0 <= k < raw.len() ==> type_is(#[trigger] p.types@[k], raw[k])
}

/// Whether a project file is encrypted, judged by its first u32.
fn is_encrypted(header: u32) -> (r: bool)
    ensures
        r == (header > 0xFF),
{
    header > 0xFF
}

fn read_u32_at(d: &[u8], p: usize) -> (r: Result<u32, String>)
    ensures
        r is Ok <==> u32_at(d@, p as int) is Some,
        r is Ok ==> p + 4 <= d@.len() <= usize::MAX,
        r is Ok ==> u32_at(d@, p as int) == Some(r.unwrap() as nat),
{
    if p > d.len() || d.len() - p < 4 {
        return Err(name("读取越界（u32）"));
    }
    proof {
        reveal_with_fuel(le_at, 5);
    }
    Ok(d[p] as u32 + 256 * (d[p + 1] as u32 + 256 * (d[p + 2] as u32 + 256 * (d[p + 3] as u32))))
}

fn read_str_at(d: &[u8], p: usize) -> (r: Result<(Vec<u8>, usize), String>)
    ensures
        r is Ok <==> str_at(d@, p as int) is Some,
        r is Ok ==> str_at(d@, p as int) == Some((r.unwrap().0@, r.unwrap().1 as int)),
{
    let n = read_u32_at(d, p)?;
    if d.len() - (p + 4) < n as usize {
        return Err(name("读取越界（bytes）"));
    }
    let e = p + 4 + n as usize;
    let b = crate::util::copy_range(d, p + 4, e);
    Ok((b, e))
}

/// The bytes of each vector.
pub open spec fn views(v: Seq<Vec<u8>>) -> Seq<Seq<u8>> {
    Seq::new(v.len(), |j: int| v[j]@)
}

proof fn lemma_strs_fail(d: Seq<u8>, p: int, m: nat, k: nat)
    requires
        m <= k,
        strs_at(d, p, m) is None,
    ensures
        strs_at(d, p, k) is None,
    decreases k - m,
{
    if m < k {
        lemma_strs_fail(d, p, m, (k - 1) as nat);
    }
}

proof fn lemma_str_lists_fail(d: Seq<u8>, p: int, m: nat, k: nat)
    requires
        m <= k,
        str_lists_end(d, p, m) is None,
    ensures
        str_lists_end(d, p, k) is None,
    decreases k - m,
{
    if m < k {
        lemma_str_lists_fail(d, p, m, (k - 1) as nat);
    }
}

proof fn lemma_u32_lists_fail(d: Seq<u8>, p: int, m: nat, k: nat)
    requires
        m <= k,
        u32_lists_end(d, p, m) is None,
    ensures
        u32_lists_end(d, p, k) is None,
    decreases k - m,
{
    if m < k {
        lemma_u32_lists_fail(d, p, m, (k - 1) as nat);
    }
}

proof fn lemma_types_fail(d: Seq<u8>, p: int, m: nat, k: nat)
    requires
        m <= k,
        types_at(d, p, m) is None,
    ensures
        types_at(d, p, k) is None,
    decreases k - m,
{
    if m < k {
        lemma_types_fail(d, p, m, (k - 1) as nat);
    }
}

/// Reads `k` strings from `p`; their bytes and the position after them.
fn read_strs(d: &[u8], p: usize, k: u32) -> (r: Result<(Vec<Vec<u8>>, usize), String>)
    ensures
        r is Ok <==> strs_at(d@, p as int, k as nat) is Some,
        r is Ok ==> strs_at(d@, p as int, k as nat) == Some((views(r.unwrap().0@), r.unwrap().1 as int)),
{
    let mut out: Vec<Vec<u8>> = Vec::new();
    let mut q = p;
    let mut i: u32 = 0;
    while i < k
        invariant
            i <= k,
            strs_at(d@, p as int, i as nat) == Some((views(out@), q as int)),
        decreases k - i,
    {
        let (s, e) = match read_str_at(d, q) {
            Ok(x) => x,
            Err(e) => {
                proof {
                    lemma_strs_fail(d@, p as int, (i + 1) as nat, k as nat);
                }
                return Err(e);
            },
        };
        let ghost before = out@;
        out.push(s);
        q = e;
        i = i + 1;
        proof {
            assert(views(out@) =~= views(before).push(s@));
        }
    }
    Ok((out, q))
}

/// Skips `k` lists of strings from `p`.
fn skip_str_lists(d: &[u8], p: usize, k: u32) -> (r: Result<usize, String>)
    ensures
        r is Ok <==> str_lists_end(d@, p as int, k as nat) is Some,
        r is Ok ==> str_lists_end(d@, p as int, k as nat) == Some(r.unwrap() as int),
{
    let mut q = p;
    let mut i: u32 = 0;
    while i < k
        invariant
            i <= k,
            str_lists_end(d@, p as int, i as nat) == Some(q as int),
        decreases k - i,
    {
        let c = match read_u32_at(d, q) {
            Ok(x) => x,
            Err(e) => {
                proof {
                    lemma_str_lists_fail(d@, p as int, (i + 1) as nat, k as nat);
                }
                return Err(e);
            },
        };
        let (_, e) = match read_strs(d, q + 4, c) {
            Ok(x) => x,
            Err(e) => {
                proof {
                    lemma_str_lists_fail(d@, p as int, (i + 1) as nat, k as nat);
                }
                return Err(e);
            },
        };
        q = e;
        i = i + 1;
    }
    Ok(q)
}

/// Skips `k` lists of u32 values from `p`.
fn skip_u32_lists(d: &[u8], p: usize, k: u32) -> (r: Result<usize, String>)
    ensures
        r is Ok <==> u32_lists_end(d@, p as int, k as nat) is Some,
        r is Ok ==> u32_lists_end(d@, p as int, k as nat) == Some(r.unwrap() as int),
{
    let mut q = p;
    let mut i: u32 = 0;
    while i < k
        invariant
            i <= k,
            u32_lists_end(d@, p as int, i as nat) == Some(q as int),
        decreases k - i,
    {
        let c = match read_u32_at(d, q) {
            Ok(x) => x,
            Err(e) => {
                proof {
                    lemma_u32_lists_fail(d@, p as int, (i + 1) as nat, k as nat);
                }
                return Err(e);
            },
        };
        if (d.len() - (q + 4)) / 4 < c as usize {
            proof {
                lemma_u32_lists_fail(d@, p as int, (i + 1) as nat, k as nat);
            }
            return Err(name("读取越界（u32）"));
        }
        q = q + 4 + 4 * (c as usize);
        i = i + 1;
    }
    Ok(q)
}

/// Skips the rest of a type record from `p` (see [`type_tail_end`]).
fn skip_type_tail(d: &[u8], p: usize, fields: u32) -> (r: Result<usize, String>)
    ensures
        r is Ok <==> type_tail_end(d@, p as int, fields as nat) is Some,
        r is Ok ==> type_tail_end(d@, p as int, fields as nat) == Some(r.unwrap() as int),
{
    let (_, q) = read_str_at(d, p)?;
    let fts = read_u32_at(d, q)?;
    if (fields as usize) > d.len() - (q + 4) {
        return Err(name("读取越界（u8）"));
    }
    let p5 = q + 4 + fields as usize;
    let extra: usize = if fts > fields { (fts - fields) as usize } else { 0 };
    if extra > d.len() - p5 {
        return Err(name("读取越界（skip）"));
    }
    let p6 = p5 + extra;
    let n1 = read_u32_at(d, p6)?;
    let (_, p7) = read_strs(d, p6 + 4, n1)?;
    let n2 = read_u32_at(d, p7)?;
    let p8 = skip_str_lists(d, p7 + 4, n2)?;
    let n3 = read_u32_at(d, p8)?;
    let p9 = skip_u32_lists(d, p8 + 4, n3)?;
    let n4 = read_u32_at(d, p9)?;
    if (d.len() - (p9 + 4)) / 4 < n4 as usize {
        return Err(name("读取越界（u32）"));
    }
    Ok(p9 + 4 + 4 * (n4 as usize))
}

/// A name as shown: UTF-8 (invalid sequences replaced) without its final NUL.
fn decode_str(b: &[u8]) -> (r: String)
    ensures
        r@ == shown(b@),
{
    let n = b.len();
    let end = if n > 0 && b[n - 1] == 0 { n - 1 } else { n };
    let raw = vstd::slice::slice_subrange(b, 0, end);
    assert(raw@ =~= strip_nul(b@));
    lossy_utf8(raw)
}

fn decode_all(v: &Vec<Vec<u8>>) -> (r: Vec<String>)
    ensures
        names_are(r@, views(v@)),
{
    let mut out: Vec<String> = Vec::new();
    let mut i: usize = 0;
    while i < v.len()
        invariant
            i <= v@.len(),
            out@.len() == i,
            forall|j: int| 0 <= j < i ==> (#[trigger] out@[j])@ == shown(v@[j]@),
        decreases v@.len() - i,
    {
        out.push(decode_str(v[i].as_slice()));
        i = i + 1;
    }
    out
}

/// Reads one type record at `p` (see [`type_at`]).
fn read_type(d: &[u8], p: usize) -> (r: Result<(TypeInfo, usize), String>)
    ensures
        r is Ok <==> type_at(d@, p as int) is Some,
        r is Ok ==> type_at(d@, p as int) == Some((raw_type_of(type_at(d@, p as int)), r.unwrap().1 as int)),
        r is Ok ==> type_is(r.unwrap().0, raw_type_of(type_at(d@, p as int))),
{
    reveal(type_at);
    let (nm, q1) = read_str_at(d, p)?;
    let fc = read_u32_at(d, q1)?;
    let (fields, q2) = read_strs(d, q1 + 4, fc)?;
    let dc = read_u32_at(d, q2)?;
    let (names, q3) = read_strs(d, q2 + 4, dc)?;
    let e = skip_type_tail(d, q3, fc)?;
    let t = TypeInfo { name: decode_str(nm.as_slice()), fields: decode_all(&fields), data_names: decode_all(&names) };
    Ok((t, e))
}

/// Parses a plain project file (see [`project_at`]).
fn parse_project(d: &[u8]) -> (r: Result<Project, String>)
    ensures
        r is Ok <==> project_at(d@) is Some,
        r is Ok ==> project_is(r.unwrap(), project_at(d@).unwrap()),
{
    let n = read_u32_at(d, 0)?;
    let mut types: Vec<TypeInfo> = Vec::new();
    let mut q: usize = 4;
    let mut i: u32 = 0;
    while i < n
        invariant
            i <= n,
            u32_at(d@, 0) == Some(n as nat),
            types_at(d@, 4, i as nat) == Some((raw_types_of(types_at(d@, 4, i as nat)), q as int)),
            types@.len() == i,
            raw_types_of(types_at(d@, 4, i as nat)).len() == i,
            forall|k: int| 0 <= k < i ==> type_is(#[trigger] types@[k], raw_types_of(types_at(d@, 4, i as nat))[k]),
        decreases n - i,
    {
        let ghost prev = raw_types_of(types_at(d@, 4, i as nat));
        let ghost prev_types = types@;
        let (t, e) = match read_type(d, q) {
            Ok(x) => x,
            Err(err) => {
                proof {
                    lemma_types_fail(d@, 4, (i + 1) as nat, n as nat);
                }
                return Err(err);
            },
        };
        let ghost tq = raw_type_of(type_at(d@, q as int));
        types.push(t);
        q = e;
        i = i + 1;
        proof {
            let now = raw_types_of(types_at(d@, 4, i as nat));
            assert(now == prev.push(tq));
            assert(type_is(t, tq));
            assert forall|k: int| 0 <= k < i implies type_is(#[trigger] types@[k], now[k]) by {
                if k < i - 1 {
                    assert(types@[k] == prev_types[k]);
                    assert(type_is(prev_types[k], prev[k]));
                    assert(now[k] == prev[k]);
                } else {
                    assert(types@[k] == t);
                    assert(now[k] == tq);
                }
            }
        }
    }
    assert(project_at(d@) == Some(raw_types_of(types_at(d@, 4, n as nat))));
    Ok(Project { types })
}

/// The first seed from 0x00 to 0xFF that decrypts the first four bytes to a
/// type count of at most 0xFF.
fn find_seed(data: &[u8]) -> (r: Option<u8>)
    requires
        data@.len() >= 4,
    ensures
        match found_seed(data@) {
            Some(s) => r == Some(s as u8),
            None => r is None,
        },
{
    let ghost cands = Seq::new(256, |i: int| i as u8);
    let ghost pred = |s: u8| seed_hits(data@, s);
    let mut seed: u16 = 0;
    while seed <= 0xFF
        invariant
            seed <= 0x100,
            cands == Seq::new(256, |i: int| i as u8),
            pred == (|s: u8| seed_hits(data@, s)),
            data@.len() >= 4,
            forall|k: int| 0 <= k < seed ==> !pred(#[trigger] cands[k]),
        decreases 0x100 - seed,
    {
        let s = seed as u8;
        let head = [data[0], data[1], data[2], data[3]];
        assert(head@ =~= data@.subrange(0, 4));
        let dec = project_xor(&head, s);
        proof {
            reveal_with_fuel(le_at, 5);
        }
        let v: u32 = dec[0] as u32 + 256 * (dec[1] as u32 + 256 * (dec[2] as u32 + 256 * (dec[3] as u32)));
        if v <= 0xFF {
            proof {
                assert(pred(cands[seed as int]));
                crate::util::lemma_first_index_at(cands, pred, seed as int);
            }
            return Some(s);
        }
        seed = seed + 1;
    }
    proof {
        crate::util::lemma_first_index_none(cands, pred);
    }
    None
}

/// The bytes XORed with the low bytes of the `rand()` stream of `seed`.
fn project_xor(data: &[u8], seed: u8) -> (r: Vec<u8>)
    ensures
        r@ == project_crypt(data@, seed),
{
    let mut r = MsvcRand::new((seed as i8) as u32);
    let mut out: Vec<u8> = Vec::new();
    let mut j: usize = 0;
    while j < data.len()
        invariant
            j <= data@.len(),
            r.state() == lcg_state(seed_state(seed), j as nat),
            out@ == project_crypt(data@, seed).subrange(0, j as int),
        decreases data@.len() - j,
    {
        let k = r.rand();
        out.push(data[j] ^ (k as u8));
        j = j + 1;
        assert(out@ =~= project_crypt(data@, seed).subrange(0, j as int));
    }
    assert(out@ =~= project_crypt(data@, seed));
    out
}

/// Parses a project file, decrypting it first when its first u32 is over 0xFF.
pub fn from_bytes(bytes: &[u8]) -> (r: Result<Project, String>)
    ensures
        r is Ok <==> project_decoded(bytes@) is Some,
        r is Ok ==> project_is(r.unwrap(), project_decoded(bytes@).unwrap()),
{
    if bytes.len() < 4 {
        return Err(name("项目文件过短"));
    }
    let header = read_u32_at(bytes, 0)?;
    if is_encrypted(header) {
        let seed = match find_seed(bytes) {
            Some(s) => s,
            None => {
                return Err(name("无法探测项目文件解密种子"));
            },
        };
        let data = project_xor(bytes, seed);
        parse_project(data.as_slice())
    } else {
        parse_project(bytes)
    }
}

} // verus!
