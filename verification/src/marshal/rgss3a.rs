//! RGSSAD / RGSS2A / RGSS3A archives (`Game.rgssad`, `Game.rgss2a`,
//! `Game.rgss3a` of XP, VX and VX Ace).
//!
//! - Header: `RGSSAD\0` and the version (1 XP, 2 VX, 3 VX Ace).
//! - Versions 1 and 2: the directory fields are XORed with a key chain that
//!   starts at 0xDEADCAFE and steps `k * 7 + 3` once per field and once per name
//!   byte; each file body follows its directory entry and is decrypted from the
//!   key the chain has reached.
//! - Version 3: the key is the first u32 times 9 plus 3; the four u32 fields of
//!   an entry are XORed with it, name byte `i` with its byte `i % 4`; the body
//!   offset is given in the entry, and a zero offset ends the directory.
//! - Bodies: XORed byte by byte with the little-endian bytes of the current key,
//!   which steps once every four bytes.
use vstd::prelude::*;
use crate::text::{name, fmt_num, gbk_decode, gbk_decoded, has_replacement, lossy_utf8, sjis_decode, sjis_decoded, utf8_lossy};
use crate::lcf::{all_ascii, is_ascii_bytes};
use crate::util::le_at;

verus! {

/// A file of the archive: where its body lies and the key it is decrypted from.
#[derive(Debug, Clone)]
pub struct Entry {
    /// Path inside the archive (`\` turned into `/`).
    pub path: String,
    pub size: usize,
    /// Offset of the body in the archive.
    pub offset: usize,
    /// Key the body is decrypted from.
    pub magic: u32,
}

/// A parsed archive (holding all its bytes).
#[derive(Debug, Clone)]
pub struct Archive {
    /// 1 (XP), 2 (VX) or 3 (VX Ace).
    pub version: u8,
    entries: Vec<Entry>,
    data: Vec<u8>,
}

/// First key of the version 1 and 2 chain.
pub const RGSS_MAGIC: u32 = 0xDEADCAFE;

/// A directory entry as stored: the name bytes (after the `\` to `/` change),
/// the body size and offset, and the body key.
pub type RawEntry = (Seq<u8>, nat, nat, u32);

/// One step of the key chain: `m * 7 + 3`, wrapping.
pub open spec fn step(m: u32) -> u32 {
    vstd::wrapping::u32_specs::wrapping_add(vstd::wrapping::u32_specs::wrapping_mul(m, 7), 3)
}

/// The version 3 key from the archive's first u32: `raw * 9 + 3`, wrapping.
pub open spec fn base_of(raw: u32) -> u32 {
    vstd::wrapping::u32_specs::wrapping_add(vstd::wrapping::u32_specs::wrapping_mul(raw, 9), 3)
}

/// The key after `k` steps.
pub open spec fn chain(m: u32, k: nat) -> u32
    decreases k,
{
    if k == 0 {
        m
    } else {
        step(chain(m, (k - 1) as nat))
    }
}

/// The u32 at `p`.
pub open spec fn word_at(d: Seq<u8>, p: int) -> u32 {
    le_at(d, p, 4) as u32
}

/// Byte `b` of `m` (little-endian).
pub open spec fn key_part(m: u32, b: int) -> u8 {
    (m >> ((8 * b) as u32)) as u8
}

/// Backslashes turned into slashes.
pub open spec fn norm_path(b: Seq<u8>) -> Seq<u8> {
    Seq::new(b.len(), |i: int| if b[i] == 0x5C { 0x2Fu8 } else { b[i] })
}

/// How a path is shown: ASCII as it is, else GBK (Chinese games) if it decodes
/// without replacement characters, else Shift-JIS (Japanese games) likewise,
/// else UTF-8 with replacements.
pub open spec fn path_text(b: Seq<u8>) -> Seq<char> {
    if all_ascii(b) {
        utf8_lossy(b)
    } else if !gbk_decoded(b).contains('\u{FFFD}') {
        gbk_decoded(b)
    } else if !sjis_decoded(b).contains('\u{FFFD}') {
        sjis_decoded(b)
    } else {
        utf8_lossy(b)
    }
}

/// The directory of a version 3 archive from `pos`, with the key `base`.
pub open spec fn v3_from(d: Seq<u8>, base: u32, pos: int) -> Option<Seq<RawEntry>>
    decreases d.len() - pos,
{
    if pos < 0 || pos + 4 > d.len() {
        None
    } else {
        let offset = word_at(d, pos) ^ base;
        if offset == 0 {
            Some(seq![])
        } else if pos + 16 > d.len() {
            None
        } else {
            let size = word_at(d, pos + 4) ^ base;
            let magic = word_at(d, pos + 8) ^ base;
            let nl = word_at(d, pos + 12) ^ base;
            let end = pos + 16 + nl;
            if end > d.len() || offset + size > d.len() {
                None
            } else {
                let nm = Seq::new(nl as nat, |i: int| d[pos + 16 + i] ^ key_part(base, i % 4));
                match v3_from(d, base, end) {
                    None => None,
                    Some(rest) => Some(seq![(norm_path(nm), size as nat, offset as nat, magic)] + rest),
                }
            }
        }
    }
}

/// The directory of a version 1 or 2 archive from `pos`, the key chain at `m`;
/// it ends where fewer than four bytes are left.
pub open spec fn v12_from(d: Seq<u8>, pos: int, m: u32) -> Option<Seq<RawEntry>>
    decreases d.len() - pos,
{
    if pos < 0 || pos + 4 > d.len() {
        Some(seq![])
    } else {
        let nl = word_at(d, pos) ^ m;
        let m1 = step(m);
        let p2 = pos + 4 + nl;
        if p2 + 4 > d.len() {
            None
        } else {
            let nm = Seq::new(nl as nat, |i: int| d[pos + 4 + i] ^ ((chain(m1, i as nat) & 0xff) as u8));
            let m2 = chain(m1, nl as nat);
            let size = word_at(d, p2) ^ m2;
            let m3 = step(m2);
            if p2 + 4 + size > d.len() {
                None
            } else {
                match v12_from(d, p2 + 4 + size, m3) {
                    None => None,
                    Some(rest) => Some(seq![(norm_path(nm), size as nat, (p2 + 4) as nat, m3)] + rest),
                }
            }
        }
    }
}

/// The version and directory of an archive, or `None` where it lacks the
/// header, its version is not 1, 2 or 3, or an entry runs past the end.
pub open spec fn archive_decoded(d: Seq<u8>) -> Option<(u8, Seq<RawEntry>)> {
    if d.len() < 9 || d.subrange(0, 7) != seq![0x52u8, 0x47, 0x53, 0x53, 0x41, 0x44, 0] {
        None
    } else if d[7] == 3 {
        if d.len() < 12 {
            None
        } else {
            match v3_from(d, base_of(word_at(d, 8)), 12) {
                None => None,
                Some(es) => Some((3u8, es)),
            }
        }
    } else if d[7] == 1 || d[7] == 2 {
        match v12_from(d, 8, RGSS_MAGIC) {
            None => None,
            Some(es) => Some((d[7], es)),
        }
    } else {
        None
    }
}

/// The bytes of a file body, decrypted from the key `m`.
pub open spec fn body_crypt(raw: Seq<u8>, m: u32) -> Seq<u8> {
    Seq::new(raw.len(), |j: int| raw[j] ^ key_part(chain(m, (j / 4) as nat), j % 4))
}

/// The entry holds the stored fields, its path shown as [`path_text`] gives it.
pub open spec fn entry_is(e: Entry, raw: RawEntry) -> bool {
    &&& e.path@ == path_text(raw.0)
    &&& e.size == raw.1
    &&& e.offset == raw.2
    &&& e.magic == raw.3
}

/// The entries hold the stored directory.
pub open spec fn entries_are(v: Seq<Entry>, raw: Seq<RawEntry>) -> bool {
    &&& v.len() == raw.len()
    &&& forall|k: int| 0 <= k < raw.len() ==> entry_is(#[trigger] v[k], raw[k])
}

/// `a` before what `r` holds, if anything.
pub open spec fn prepend(a: Seq<RawEntry>, r: Option<Seq<RawEntry>>) -> Option<Seq<RawEntry>> {
    match r {
        None => None,
        Some(x) => Some(a + x),
    }
}

fn next_magic(m: &mut u32) -> (r: u32)
    ensures
        r == *old(m),
        *final(m) == step(*old(m)),
{
    let o = *m;
    *m = m.wrapping_mul(7).wrapping_add(3);
    o
}

fn word(d: &[u8], p: usize) -> (r: u32)
    requires
        p + 4 <= d@.len(),
    ensures
        r == word_at(d@, p as int),
{
    proof {
        reveal_with_fuel(le_at, 5);
    }
    d[p] as u32 + 256 * (d[p + 1] as u32 + 256 * (d[p + 2] as u32 + 256 * (d[p + 3] as u32)))
}

/// Shows a path (see [`path_text`]).
fn decode_path(b: &[u8]) -> (r: String)
    ensures
        r@ == path_text(b@),
{
    if is_ascii_bytes(b) {
        return lossy_utf8(b);
    }
    let gbk = gbk_decode(b);
    if !has_replacement(gbk.as_str()) {
        return gbk;
    }
    let sjis = sjis_decode(b);
    if !has_replacement(sjis.as_str()) {
        return sjis;
    }
    lossy_utf8(b)
}

/// The name of a version 3 entry: `n` bytes from `p`, each XORed with byte
/// `i % 4` of `base`, backslashes made slashes.
fn v3_name(d: &[u8], p: usize, n: usize, base: u32) -> (r: Vec<u8>)
    requires
        p + n <= d@.len(),
    ensures
        r@ == norm_path(Seq::new(n as nat, |i: int| d@[p + i] ^ key_part(base, i % 4))),
{
    let ghost nm = Seq::new(n as nat, |i: int| d@[p + i] ^ key_part(base, i % 4));
    let len = d.len();
    let mut out: Vec<u8> = Vec::new();
    let mut i: usize = 0;
    while i < n
        invariant
            len == d@.len(),
            p + n <= d@.len(),
            nm == Seq::new(n as nat, |i: int| d@[p + i] ^ key_part(base, i % 4)),
            i <= n,
            out@ == norm_path(nm).subrange(0, i as int),
        decreases n - i,
    {
        let sh: u32 = (8 * (i % 4)) as u32;
        assert(sh < 32);
        let x = d[p + i] ^ ((base >> sh) as u8);
        out.push(if x == 0x5C { 0x2F } else { x });
        i = i + 1;
        assert(out@ =~= norm_path(nm).subrange(0, i as int));
    }
    assert(out@ =~= norm_path(nm));
    out
}

/// The name of a version 1 or 2 entry: `n` bytes from `p`, each XORed with the
/// low byte of the next key of the chain, backslashes made slashes.
fn v12_name(d: &[u8], p: usize, n: usize, m: &mut u32) -> (r: Vec<u8>)
    requires
        p + n <= d@.len(),
    ensures
        r@ == norm_path(Seq::new(n as nat, |i: int| d@[p + i] ^ ((chain(*old(m), i as nat) & 0xff) as u8))),
        *final(m) == chain(*old(m), n as nat),
{
    let ghost m0 = *m;
    let ghost nm = Seq::new(n as nat, |i: int| d@[p + i] ^ ((chain(m0, i as nat) & 0xff) as u8));
    let len = d.len();
    let mut out: Vec<u8> = Vec::new();
    let mut i: usize = 0;
    while i < n
        invariant
            len == d@.len(),
            p + n <= d@.len(),
            nm == Seq::new(n as nat, |i: int| d@[p + i] ^ ((chain(m0, i as nat) & 0xff) as u8)),
            i <= n,
            *m == chain(m0, i as nat),
            out@ == norm_path(nm).subrange(0, i as int),
        decreases n - i,
    {
        let k = next_magic(m);
        let x = d[p + i] ^ ((k & 0xFF) as u8);
        out.push(if x == 0x5C { 0x2F } else { x });
        i = i + 1;
        assert(out@ =~= norm_path(nm).subrange(0, i as int));
    }
    assert(out@ =~= norm_path(nm));
    out
}

proof fn lemma_prepend(a: Seq<RawEntry>, e: RawEntry, r: Option<Seq<RawEntry>>)
    ensures
        prepend(a, prepend(seq![e], r)) == prepend(a.push(e), r),
{
    if let Some(x) = r {
        assert(a + (seq![e] + x) =~= a.push(e) + x);
    }
}

proof fn lemma_entries_push(v: Seq<Entry>, raw: Seq<RawEntry>, e: Entry, re: RawEntry)
    requires
        entries_are(v, raw),
        entry_is(e, re),
    ensures
        entries_are(v.push(e), raw.push(re)),
{
    assert forall|k: int| 0 <= k < raw.len() + 1 implies entry_is(#[trigger] v.push(e)[k], raw.push(re)[k]) by {
        if k < raw.len() {
            assert(v.push(e)[k] == v[k]);
        }
    }
}

/// Reads the directory of a version 3 archive.
fn parse_v3(d: &[u8]) -> (r: Result<Vec<Entry>, String>)
    requires
        d@.len() >= 12,
    ensures
        r is Ok <==> v3_from(d@, base_of(word_at(d@, 8)), 12) is Some,
        r is Ok ==> entries_are(r.unwrap()@, v3_from(d@, base_of(word_at(d@, 8)), 12).unwrap()),
{
    let n = d.len();
    let raw = word(d, 8);
    let base = raw.wrapping_mul(9).wrapping_add(3);
    let mut pos: usize = 12;
    let mut entries: Vec<Entry> = Vec::new();
    let ghost mut done: Seq<RawEntry> = seq![];
    loop
        invariant
            n == d@.len(),
            base == base_of(word_at(d@, 8)),
            pos <= n,
            entries_are(entries@, done),
            v3_from(d@, base, 12) == prepend(done, v3_from(d@, base, pos as int)),
        decreases n - pos,
    {
        if n - pos < 4 {
            return Err(name("加密包数据越界"));
        }
        let offset = word(d, pos) ^ base;
        if offset == 0 {
            assert(done + seq![] =~= done);
            return Ok(entries);
        }
        if n - pos < 16 {
            return Err(name("加密包数据越界"));
        }
        let size = word(d, pos + 4) ^ base;
        let magic = word(d, pos + 8) ^ base;
        let nl = word(d, pos + 12) ^ base;
        if (nl as usize) > n - (pos + 16) {
            return Err(name("目录项文件名越界"));
        }
        let nm = v3_name(d, pos + 16, nl as usize, base);
        let end = pos + 16 + nl as usize;
        if (offset as usize) > n || (size as usize) > n - (offset as usize) {
            return Err(name("目录项文件体越界"));
        }
        let e = Entry { path: decode_path(nm.as_slice()), size: size as usize, offset: offset as usize, magic };
        proof {
            let re: RawEntry = (nm@, size as nat, offset as nat, magic);
            lemma_prepend(done, re, v3_from(d@, base, end as int));
            lemma_entries_push(entries@, done, e, re);
            done = done.push(re);
        }
        entries.push(e);
        pos = end;
    }
}

/// Reads the directory of a version 1 or 2 archive.
fn parse_v12(d: &[u8]) -> (r: Result<Vec<Entry>, String>)
    requires
        d@.len() >= 8,
    ensures
        r is Ok <==> v12_from(d@, 8, RGSS_MAGIC) is Some,
        r is Ok ==> entries_are(r.unwrap()@, v12_from(d@, 8, RGSS_MAGIC).unwrap()),
{
    let n = d.len();
    let mut magic: u32 = RGSS_MAGIC;
    let mut pos: usize = 8;
    let mut entries: Vec<Entry> = Vec::new();
    let ghost mut done: Seq<RawEntry> = seq![];
    loop
        invariant
            n == d@.len(),
            pos <= n,
            entries_are(entries@, done),
            v12_from(d@, 8, RGSS_MAGIC) == prepend(done, v12_from(d@, pos as int, magic)),
        decreases n - pos,
    {
        if n - pos < 4 {
            assert(done + seq![] =~= done);
            return Ok(entries);
        }
        let ghost m0 = magic;
        let nl = word(d, pos) ^ next_magic(&mut magic);
        if (nl as usize) > n - (pos + 4) {
            return Err(name("目录项文件名越界"));
        }
        let nm = v12_name(d, pos + 4, nl as usize, &mut magic);
        let p2 = pos + 4 + nl as usize;
        if n - p2 < 4 {
            return Err(name("加密包数据越界"));
        }
        let size = word(d, p2) ^ next_magic(&mut magic);
        let offset = p2 + 4;
        if (size as usize) > n - offset {
            return Err(name("目录项文件体越界"));
        }
        let e = Entry { path: decode_path(nm.as_slice()), size: size as usize, offset, magic };
        proof {
            let re: RawEntry = (nm@, size as nat, offset as nat, magic);
            lemma_prepend(done, re, v12_from(d@, (offset + size) as int, magic));
            lemma_entries_push(entries@, done, e, re);
            done = done.push(re);
        }
        entries.push(e);
        pos = offset + size as usize;
    }
}

impl Archive {
    /// The directory entries.
    pub closed spec fn entry_list(self) -> Seq<Entry> {
        self.entries@
    }

    /// The archive's bytes.
    pub closed spec fn bytes(self) -> Seq<u8> {
        self.data@
    }

    /// The archive's version.
    pub closed spec fn version_of(self) -> u8 {
        self.version
    }

    /// Parses an archive: its header and directory (the bodies stay encrypted).
    pub fn parse(bytes: &[u8]) -> (r: Result<Archive, String>)
        ensures
            r is Ok <==> archive_decoded(bytes@) is Some,
            r is Ok ==> r.unwrap().version_of() == archive_decoded(bytes@).unwrap().0,
            r is Ok ==> entries_are(r.unwrap().entry_list(), archive_decoded(bytes@).unwrap().1),
            r is Ok ==> r.unwrap().bytes() == bytes@,
    {
        let magic: [u8; 7] = [0x52, 0x47, 0x53, 0x53, 0x41, 0x44, 0];
        if bytes.len() < 9 || !crate::util::bytes_eq(vstd::slice::slice_subrange(bytes, 0, 7), &magic) {
            proof {
                if bytes@.len() >= 9 {
                    assert(magic@ =~= seq![0x52u8, 0x47, 0x53, 0x53, 0x41, 0x44, 0]);
                }
            }
            return Err(name("不是 RGSS 加密包（缺少 RGSSAD 头部）"));
        }
        assert(magic@ =~= seq![0x52u8, 0x47, 0x53, 0x53, 0x41, 0x44, 0]);
        let version = bytes[7];
        let entries = if version == 3 {
            if bytes.len() < 12 {
                return Err(name("加密包数据越界"));
            }
            parse_v3(bytes)?
        } else if version == 1 || version == 2 {
            parse_v12(bytes)?
        } else {
            return Err(fmt_num("不支持的加密包版本 ", version as u128, "（仅支持 1/2/3）"));
        };
        Ok(Archive { version, entries, data: vstd::slice::slice_to_vec(bytes) })
    }

    pub fn entries(&self) -> (r: &[Entry])
        ensures
            r@ == self.entry_list(),
    {
        self.entries.as_slice()
    }

    pub fn entry(&self, i: usize) -> (r: Option<&Entry>)
        ensures
            i < self.entry_list().len() ==> r == Some(&self.entry_list()[i as int]),
            i >= self.entry_list().len() ==> r is None,
    {
        if i < self.entries.len() {
            Some(&self.entries[i])
        } else {
            None
        }
    }

    /// Decrypts the body of entry `i`; `None` where there is no such entry or
    /// its body lies outside the archive.
    pub fn unpack_entry(&self, i: usize) -> (r: Option<Vec<u8>>)
        ensures
            match r {
                None => i >= self.entry_list().len() || !body_inside(self.entry_list()[i as int], self.bytes()),
                Some(v) => i < self.entry_list().len() && body_inside(self.entry_list()[i as int], self.bytes())
                    && v@ == body_of(self.entry_list()[i as int], self.bytes()),
            },
    {
        if i >= self.entries.len() {
            return None;
        }
        let e = &self.entries[i];
        if e.offset > self.data.len() || e.size > self.data.len() - e.offset {
            return None;
        }
        let raw = vstd::slice::slice_subrange(self.data.as_slice(), e.offset, e.offset + e.size);
        Some(decrypt_body(raw, e.magic))
    }

    /// Every body that lies inside the archive, decrypted, with its path (in directory order).
    pub fn unpack_all(&self) -> (r: Vec<(String, Vec<u8>)>)
        ensures
            r@.len() == unpacked_count(self.entry_list(), self.bytes(), self.entry_list().len() as int),
            forall|k: int| 0 <= k < self.entry_list().len() && body_inside(self.entry_list()[k], self.bytes())
                ==> ({
                    let j = unpacked_count(self.entry_list(), self.bytes(), k);
                    &&& r@[j].0@ == self.entry_list()[k].path@
                    &&& r@[j].1@ == body_of(self.entry_list()[k], self.bytes())
                }),
    {
        let mut out: Vec<(String, Vec<u8>)> = Vec::new();
        let mut i: usize = 0;
        while i < self.entries.len()
            invariant
                i <= self.entries@.len(),
                out@.len() == unpacked_count(self.entries@, self.data@, i as int),
                forall|k: int| 0 <= k < i && body_inside(self.entries@[k], self.data@) ==> ({
                    let j = unpacked_count(self.entries@, self.data@, k);
                    &&& out@[j].0@ == self.entries@[k].path@
                    &&& out@[j].1@ == body_of(self.entries@[k], self.data@)
                }),
            decreases self.entries@.len() - i,
        {
            let e = &self.entries[i];
            let ghost before = out@;
            if e.offset <= self.data.len() && e.size <= self.data.len() - e.offset {
                let raw = vstd::slice::slice_subrange(self.data.as_slice(), e.offset, e.offset + e.size);
                out.push((e.path.clone(), decrypt_body(raw, e.magic)));
            }
            proof {
                assert forall|k: int| 0 <= k < i + 1 && body_inside(self.entries@[k], self.data@) implies ({
                    let j = unpacked_count(self.entries@, self.data@, k);
                    &&& out@[j].0@ == self.entries@[k].path@
                    &&& out@[j].1@ == body_of(self.entries@[k], self.data@)
                }) by {
                    if k < i {
                        lemma_count_below(self.entries@, self.data@, k, i as int);
                        assert(out@[unpacked_count(self.entries@, self.data@, k)] == before[unpacked_count(self.entries@, self.data@, k)]);
                    }
                }
            }
            i = i + 1;
        }
        out
    }
}

/// The entry's body lies inside the archive.
pub open spec fn body_inside(e: Entry, d: Seq<u8>) -> bool {
    e.offset + e.size <= d.len()
}

/// The decrypted body of an entry.
pub open spec fn body_of(e: Entry, d: Seq<u8>) -> Seq<u8> {
    body_crypt(d.subrange(e.offset as int, e.offset + e.size), e.magic)
}

/// How many of the first `k` entries have their body inside the archive.
pub open spec fn unpacked_count(es: Seq<Entry>, d: Seq<u8>, k: int) -> int
    decreases k,
{
    if k <= 0 {
        0
    } else {
        unpacked_count(es, d, k - 1) + if body_inside(es[k - 1], d) { 1int } else { 0 }
    }
}

proof fn lemma_count_below(es: Seq<Entry>, d: Seq<u8>, k: int, i: int)
    requires
        0 <= k < i,
        body_inside(es[k], d),
    ensures
        0 <= unpacked_count(es, d, k) < unpacked_count(es, d, i),
    decreases i - k,
{
    lemma_count_nonneg(es, d, k);
    if k < i - 1 {
        lemma_count_below(es, d, k, i - 1);
    }
}

proof fn lemma_count_nonneg(es: Seq<Entry>, d: Seq<u8>, k: int)
    ensures
        0 <= unpacked_count(es, d, k),
    decreases k,
{
    if k > 0 {
        lemma_count_nonneg(es, d, k - 1);
    }
}

/// Decrypts a file body from the key `start`.
fn decrypt_body(raw: &[u8], start: u32) -> (r: Vec<u8>)
    ensures
        r@ == body_crypt(raw@, start),
{
    let mut m = start;
    let mut out: Vec<u8> = Vec::new();
    let mut j: usize = 0;
    while j < raw.len()
        invariant
            j <= raw@.len(),
            j == 0 ==> m == start,
            j > 0 ==> m == chain(start, ((j - 1) / 4) as nat),
            out@ == body_crypt(raw@, start).subrange(0, j as int),
        decreases raw@.len() - j,
    {
        if j % 4 == 0 && j > 0 {
            m = m.wrapping_mul(7).wrapping_add(3);
        }
        assert(m == chain(start, (j / 4) as nat));
        out.push(raw[j] ^ ((m >> ((8 * (j % 4)) as u32)) as u8));
        j = j + 1;
        assert(out@ =~= body_crypt(raw@, start).subrange(0, j as int));
    }
    assert(out@ =~= body_crypt(raw@, start));
    out
}

/// Decrypting a body twice from the same key gives it back: the same XOR
/// stream encrypts and decrypts.
pub proof fn lemma_body_crypt_involution(raw: Seq<u8>, m: u32)
    ensures
        body_crypt(body_crypt(raw, m), m) == raw,
{
    assert forall|j: int| 0 <= j < raw.len() implies #[trigger] body_crypt(body_crypt(raw, m), m)[j] == raw[j] by {
        let k = key_part(chain(m, (j / 4) as nat), j % 4);
        let x = raw[j];
        assert((x ^ k) ^ k == x) by (bit_vector);
    }
    assert(body_crypt(body_crypt(raw, m), m) =~= raw);
}

} // verus!
