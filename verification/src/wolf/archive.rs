//! DXLib archives (the `.wolf` packs of Wolf RPG Editor): the header, the
//! key trials, the name / file-head / directory tables and the files.
//!
//! - The header starts with `DX` and a u16 version (Wolf uses 5, 6 and 8).
//! - Up to version 7 the header and the tables are XORed with a 12-byte key
//!   derived from a password; the right key is found by trying the known ones
//!   on the first bytes.
//! - From version 8 the header is plain; the tables sit at the end of the file,
//!   Huffman- then LZ-compressed, under a 7-byte key of the password; each file
//!   has a key of its own, derived from the password and the upper-case names
//!   of the file and of its directories.
use vstd::prelude::*;
use crate::text::{name, fmt_num, fmt_hex, joined};
use crate::util::{le_at, first_index, is_first};
use crate::wolf::dxa::{
    DEFAULT_PASSWORD, key7_of, key12_of, key7_create, key12_create, lz_decoded, lz_decode,
    huffman_decoded, huffman_decode,
};

verus! {

/// Flag of a plain header: the archive has no key.
pub const FLAG_NO_KEY: u32 = 1;

/// Flag of a plain header: the tables are not compressed.
pub const FLAG_NO_HEAD_PRESS: u32 = 2;

/// Attribute bit of a file head that is a directory.
pub const ATTR_DIRECTORY: u64 = 0x10;

/// Largest size of the tables accepted.
pub const MAX_HEAD_SIZE: usize = 0x2000_0000;

/// Deepest directory nesting accepted.
pub const MAX_DEPTH: usize = 128;

/// Most entries accepted.
pub const MAX_ENTRIES: usize = 10_000_000;

/// Password of Wolf RPG Editor 1.01 to 2.02a (before its key derivation).
pub const WOLF_PASSWORD_101: [u8; 12] = [0x0F, 0x53, 0xE1, 0x3E, 0x04, 0x37, 0x12, 0x17, 0x60, 0x0F, 0x53, 0xE1];

/// Password of Wolf RPG Editor 2.10.
pub const WOLF_PASSWORD_210: [u8; 12] = [0x4C, 0xD9, 0x2A, 0xB7, 0x28, 0x9B, 0xAC, 0x07, 0x3E, 0x77, 0xEC, 0x4C];

/// Password of Wolf RPG Editor 2.20 to 2.24.
pub const WOLF_PASSWORD_220: [u8; 12] = [0x38, 0x50, 0x40, 0x28, 0x72, 0x4F, 0x21, 0x70, 0x3B, 0x73, 0x35, 0x38];

// ---------------- bytes ----------------

/// The `w`-byte little-endian value at `off`, when the bytes are there.
pub open spec fn rd_at(b: Seq<u8>, off: int, w: nat) -> Option<nat> {
    if 0 <= off && off + w <= b.len() {
        Some(le_at(b, off, w))
    } else {
        None
    }
}

/// `data` XORed with the key stream `key` started at `phase` (unchanged by an empty key).
pub open spec fn keyed(data: Seq<u8>, phase: int, key: Seq<u8>) -> Seq<u8> {
    if key.len() == 0 {
        data
    } else {
        Seq::new(data.len(), |i: int| data[i] ^ key[(phase + i) % (key.len() as int)])
    }
}

/// [`keyed`] under an optional key.
pub open spec fn keyed_opt(data: Seq<u8>, phase: int, key: Option<Seq<u8>>) -> Seq<u8> {
    match key {
        Some(k) => keyed(data, phase, k),
        None => data,
    }
}

/// The bytes of `s` before its first NUL (all of them without one).
pub open spec fn until_nul(s: Seq<u8>) -> Seq<u8> {
    match first_index(s, |b: u8| b == 0) {
        Some(j) => s.take(j),
        None => s,
    }
}

fn rd_le(buf: &[u8], off: usize, w: usize) -> (r: Result<u64, String>)
    requires
        w == 2 || w == 4 || w == 8,
    ensures
        r is Ok <==> rd_at(buf@, off as int, w as nat) is Some,
        r matches Ok(v) ==> v as nat == le_at(buf@, off as int, w as nat),
{
    if off > buf.len() || buf.len() - off < w {
        return Err(fmt_hex("头部读取越界（@", off as u64, "）"));
    }
    proof {
        reveal_with_fuel(le_at, 9);
    }
    let b0 = buf[off] as u64;
    let b1 = buf[off + 1] as u64;
    if w == 2 {
        return Ok(b0 + 256 * b1);
    }
    let b2 = buf[off + 2] as u64;
    let b3 = buf[off + 3] as u64;
    if w == 4 {
        return Ok(b0 + 256 * (b1 + 256 * (b2 + 256 * b3)));
    }
    let b4 = buf[off + 4] as u64;
    let b5 = buf[off + 5] as u64;
    let b6 = buf[off + 6] as u64;
    let b7 = buf[off + 7] as u64;
    Ok(b0 + 256 * (b1 + 256 * (b2 + 256 * (b3 + 256 * (b4 + 256 * (b5 + 256 * (b6 + 256 * b7)))))))
}

fn rd_u16(buf: &[u8], off: usize) -> (r: Result<u16, String>)
    ensures
        r is Ok <==> rd_at(buf@, off as int, 2) is Some,
        r matches Ok(v) ==> v as nat == le_at(buf@, off as int, 2),
{
    let v = rd_le(buf, off, 2)?;
    proof {
        reveal_with_fuel(le_at, 3);
    }
    Ok(v as u16)
}

fn rd_u32(buf: &[u8], off: usize) -> (r: Result<u32, String>)
    ensures
        r is Ok <==> rd_at(buf@, off as int, 4) is Some,
        r matches Ok(v) ==> v as nat == le_at(buf@, off as int, 4),
{
    let v = rd_le(buf, off, 4)?;
    proof {
        reveal_with_fuel(le_at, 5);
    }
    Ok(v as u32)
}

fn rd_u64(buf: &[u8], off: usize) -> (r: Result<u64, String>)
    ensures
        r is Ok <==> rd_at(buf@, off as int, 8) is Some,
        r matches Ok(v) ==> v as nat == le_at(buf@, off as int, 8),
{
    rd_le(buf, off, 8)
}

/// XORs `data` with the key stream `key` from `phase` on.
pub fn key_conv(data: &mut Vec<u8>, phase: usize, key: &[u8])
    ensures
        final(data)@ == keyed(old(data)@, phase as int, key@),
{
    let n = key.len();
    if n == 0 {
        return;
    }
    let mut j: usize = phase % n;
    let mut i: usize = 0;
    while i < data.len()
        invariant
            n == key@.len() > 0,
            i <= data@.len() == old(data)@.len(),
            j == (phase + i) % (n as int),
            forall|k: int| 0 <= k < i ==> #[trigger] data@[k] == old(data)@[k] ^ key@[(phase + k) % (n as int)],
            forall|k: int| i <= k < data@.len() ==> #[trigger] data@[k] == old(data)@[k],
        decreases data@.len() - i,
    {
        let b = data[i] ^ key[j];
        data.set(i, b);
        proof {
            assert((phase + i + 1) % (n as int) == if j + 1 == n { 0 } else { j + 1 }) by (nonlinear_arith)
                requires
                    n > 0,
                    j == (phase + i) % (n as int),
            {
                vstd::arithmetic::div_mod::lemma_add_mod_noop(phase + i, 1, n as int);
            }
        }
        j = j + 1;
        if j == n {
            j = 0;
        }
        i = i + 1;
    }
    assert(data@ =~= keyed(old(data)@, phase as int, key@));
}

/// Decrypting is encrypting: the key stream applied twice from the same
/// phase gives the data back.
pub proof fn law_keyed_involution(data: Seq<u8>, phase: int, key: Seq<u8>)
    ensures
        keyed(keyed(data, phase, key), phase, key) == data,
{
    if key.len() > 0 {
        let once = keyed(data, phase, key);
        assert forall|i: int| 0 <= i < data.len() implies #[trigger] keyed(once, phase, key)[i] == data[i] by {
            let k = key[(phase + i) % (key.len() as int)];
            let d = data[i];
            assert((d ^ k) ^ k == d) by (bit_vector);
        }
        assert(keyed(once, phase, key) =~= data);
    }
}

// ---------------- header ----------------

/// What the header says.
pub struct HeadView {
    pub version: u16,
    pub code_page: u32,
    pub head_size: usize,
    pub data_start: u64,
    pub name_tbl: u64,
    pub file_tbl: u64,
    pub dir_tbl: u64,
    pub no_key: bool,
    pub no_head_press: bool,
    pub huff_kb: u8,
    pub key: Option<Seq<u8>>,
}

/// A header read from an archive.
struct RawHead {
    version: u16,
    code_page: u32,
    head_size: usize,
    data_start: u64,
    name_tbl: u64,
    file_tbl: u64,
    dir_tbl: u64,
    no_key: bool,
    no_head_press: bool,
    huff_kb: u8,
    /// The archive's key: the 12-byte key that opened an encrypted header, or
    /// the 7-byte key of a password of a plain one.
    key: Option<Vec<u8>>,
}

impl View for RawHead {
    type V = HeadView;

    closed spec fn view(&self) -> HeadView {
        HeadView {
            version: self.version,
            code_page: self.code_page,
            head_size: self.head_size,
            data_start: self.data_start,
            name_tbl: self.name_tbl,
            file_tbl: self.file_tbl,
            dir_tbl: self.dir_tbl,
            no_key: self.no_key,
            no_head_press: self.no_head_press,
            huff_kb: self.huff_kb,
            key: match self.key {
                Some(k) => Some(k@),
                None => None,
            },
        }
    }
}

/// The plain header (version 8 and later) of the first bytes: `None` under 48 bytes.
pub open spec fn plain_head_of(first: Seq<u8>) -> Option<HeadView> {
    if first.len() < 48 {
        None
    } else {
        let flags = le_at(first, 44, 4) as u32;
        Some(HeadView {
            version: le_at(first, 2, 2) as u16,
            code_page: le_at(first, 40, 4) as u32,
            head_size: le_at(first, 4, 4) as usize,
            data_start: le_at(first, 8, 8) as u64,
            name_tbl: le_at(first, 16, 8) as u64,
            file_tbl: le_at(first, 24, 8) as u64,
            dir_tbl: le_at(first, 32, 8) as u64,
            no_key: flags & FLAG_NO_KEY != 0,
            no_head_press: flags & FLAG_NO_HEAD_PRESS != 0,
            huff_kb: if first.len() >= 49 { first[48] } else { 0xFF },
            key: None,
        })
    }
}

/// `a + b`, or `u64::MAX` where that is larger.
pub open spec fn sat_add(a: u64, b: int) -> int {
    if a + b > u64::MAX { u64::MAX as int } else { a + b }
}

/// The header is sound for an archive of `total` bytes: tables of 1 byte to
/// [`MAX_HEAD_SIZE`] that start inside it and, unless they are compressed
/// (version 8), end inside it.
pub open spec fn head_ok(h: HeadView, total: u64) -> bool {
    &&& 0 < h.head_size <= MAX_HEAD_SIZE
    &&& h.name_tbl < total
    &&& ((h.version >= 8 && !h.no_head_press) || sat_add(h.name_tbl, h.head_size as int) <= total)
}

/// Bytes an encrypted header of `version` needs.
pub open spec fn enc_need(version: int) -> int {
    if version >= 6 { 48 } else if version >= 4 { 28 } else { 24 }
}

/// The header of decrypted bytes `hdr` (versions 1 to 7; wider fields from version 6).
pub open spec fn enc_fields(hdr: Seq<u8>, key: Seq<u8>) -> HeadView {
    let v = le_at(hdr, 2, 2);
    HeadView {
        version: v as u16,
        code_page: if v >= 6 {
            le_at(hdr, 40, 8) as u32
        } else if v >= 4 {
            le_at(hdr, 24, 4) as u32
        } else {
            932
        },
        head_size: le_at(hdr, 4, 4) as usize,
        data_start: (if v >= 6 { le_at(hdr, 8, 8) } else { le_at(hdr, 8, 4) }) as u64,
        name_tbl: (if v >= 6 { le_at(hdr, 16, 8) } else { le_at(hdr, 12, 4) }) as u64,
        file_tbl: (if v >= 6 { le_at(hdr, 24, 8) } else { le_at(hdr, 16, 4) }) as u64,
        dir_tbl: (if v >= 6 { le_at(hdr, 32, 8) } else { le_at(hdr, 20, 4) }) as u64,
        no_key: false,
        no_head_press: true,
        huff_kb: 0xFF,
        key: Some(key),
    }
}

/// The header that the 12-byte key `key` opens: the first 48 bytes decrypted
/// start with `DX`, a version of 1 to 7, enough bytes for it and sound fields.
pub open spec fn enc_head_with(first: Seq<u8>, key: Seq<u8>) -> Option<HeadView> {
    let n = if first.len() < 48 { first.len() as int } else { 48 };
    let hdr = keyed(first.take(n), 0, key);
    if hdr.len() < 4 || hdr[0] != 68 || hdr[1] != 88 {
        None
    } else {
        let v = le_at(hdr, 2, 2);
        if !(1 <= v <= 7) || hdr.len() < enc_need(v as int) {
            None
        } else {
            let h = enc_fields(hdr, key);
            if head_ok(h, u64::MAX) { Some(h) } else { None }
        }
    }
}

/// The keys tried on an encrypted header, in order: those of the three Wolf
/// passwords, the passwords themselves, the default password's, the empty
/// password's and twelve bytes 0xFF.
pub open spec fn candidate(i: int) -> Seq<u8> {
    if i == 0 {
        key12_of(WOLF_PASSWORD_101@)
    } else if i == 1 {
        key12_of(WOLF_PASSWORD_210@)
    } else if i == 2 {
        key12_of(WOLF_PASSWORD_220@)
    } else if i == 3 {
        WOLF_PASSWORD_101@
    } else if i == 4 {
        WOLF_PASSWORD_210@
    } else if i == 5 {
        WOLF_PASSWORD_220@
    } else if i == 6 {
        key12_of(DEFAULT_PASSWORD@)
    } else if i == 7 {
        key12_of(seq![])
    } else {
        Seq::new(12, |k: int| 0xFFu8)
    }
}

/// The header of the first candidate key from `i` on that opens one.
pub open spec fn enc_head_from(first: Seq<u8>, i: nat) -> Option<HeadView>
    decreases 9 - i,
{
    if i >= 9 {
        None
    } else {
        match enc_head_with(first, candidate(i as int)) {
            Some(h) => Some(h),
            None => enc_head_from(first, i + 1),
        }
    }
}

/// The encrypted header (versions 1 to 7) of the first bytes.
pub open spec fn enc_head(first: Seq<u8>) -> Option<HeadView> {
    enc_head_from(first, 0)
}

fn candidate_keys_12() -> (r: Vec<Vec<u8>>)
    ensures
        r@.len() == 9,
        forall|i: int| 0 <= i < 9 ==> #[trigger] r@[i]@ == candidate(i),
{
    let mut out: Vec<Vec<u8>> = Vec::new();
    let k = key12_create(&WOLF_PASSWORD_101);
    out.push(vstd::slice::slice_to_vec(k.as_slice()));
    let k = key12_create(&WOLF_PASSWORD_210);
    out.push(vstd::slice::slice_to_vec(k.as_slice()));
    let k = key12_create(&WOLF_PASSWORD_220);
    out.push(vstd::slice::slice_to_vec(k.as_slice()));
    out.push(vstd::slice::slice_to_vec(WOLF_PASSWORD_101.as_slice()));
    out.push(vstd::slice::slice_to_vec(WOLF_PASSWORD_210.as_slice()));
    out.push(vstd::slice::slice_to_vec(WOLF_PASSWORD_220.as_slice()));
    let k = key12_create(&DEFAULT_PASSWORD);
    out.push(vstd::slice::slice_to_vec(k.as_slice()));
    let empty: [u8; 0] = [];
    let k = key12_create(&empty);
    assert(empty@ =~= seq![]);
    out.push(vstd::slice::slice_to_vec(k.as_slice()));
    let ff: [u8; 12] = [0xFF; 12];
    out.push(vstd::slice::slice_to_vec(ff.as_slice()));
    assert(ff@ =~= Seq::new(12, |k: int| 0xFFu8));
    out
}

/// v8+: the plain header.
fn parse_plain_head(first: &[u8]) -> (r: Result<RawHead, String>)
    ensures
        r is Ok <==> plain_head_of(first@) is Some,
        r matches Ok(h) ==> h@ == plain_head_of(first@).unwrap(),
{
    if first.len() < 0x30 {
        return Err(name("明文头部不完整"));
    }
    let flags = rd_u32(first, 44)?;
    let huff_kb: u8 = if first.len() >= 49 { first[48] } else { 0xFF };
    let version = rd_u16(first, 2)?;
    let code_page = rd_u32(first, 40)?;
    let head_size = rd_u32(first, 4)? as usize;
    let data_start = rd_u64(first, 8)?;
    let name_tbl = rd_u64(first, 16)?;
    let file_tbl = rd_u64(first, 24)?;
    let dir_tbl = rd_u64(first, 32)?;
    Ok(RawHead {
        version,
        code_page,
        head_size,
        data_start,
        name_tbl,
        file_tbl,
        dir_tbl,
        no_key: flags & FLAG_NO_KEY != 0,
        no_head_press: flags & FLAG_NO_HEAD_PRESS != 0,
        huff_kb,
        key: None,
    })
}

/// Up to v7: code page, table size and table offsets of a decrypted header.
fn read_head_fields(hdr: &[u8], version: u16) -> (r: Result<(u32, usize, u64, u64, u64, u64), String>)
    requires
        version == le_at(hdr@, 2, 2),
        hdr@.len() >= enc_need(version as int),
    ensures
        r matches Ok(f) && ({
            let h = enc_fields(hdr@, seq![]);
            f == (h.code_page, h.head_size, h.data_start, h.name_tbl, h.file_tbl, h.dir_tbl)
        }),
{
    if version >= 6 {
        let cp = rd_u64(hdr, 40)?;
        Ok((
            cp as u32,
            rd_u32(hdr, 4)? as usize,
            rd_u64(hdr, 8)?,
            rd_u64(hdr, 16)?,
            rd_u64(hdr, 24)?,
            rd_u64(hdr, 32)?,
        ))
    } else {
        let cp = if version >= 4 { rd_u32(hdr, 24)? } else { 932 };
        Ok((
            cp,
            rd_u32(hdr, 4)? as usize,
            rd_u32(hdr, 8)? as u64,
            rd_u32(hdr, 12)? as u64,
            rd_u32(hdr, 16)? as u64,
            rd_u32(hdr, 20)? as u64,
        ))
    }
}

fn validate_head(head: &RawHead, total_len: u64) -> (r: Result<(), String>)
    ensures
        r is Ok <==> head_ok(head@, total_len),
{
    if head.head_size == 0 || head.head_size > MAX_HEAD_SIZE {
        return Err(fmt_num("表区大小异常（", head.head_size as u128, "）"));
    }
    if head.name_tbl >= total_len {
        return Err(name("表区偏移越界（密钥可能不对）"));
    }
    let end: u64 = if head.name_tbl > u64::MAX - head.head_size as u64 {
        u64::MAX
    } else {
        head.name_tbl + head.head_size as u64
    };
    if !(head.version >= 8 && !head.no_head_press) && end > total_len {
        return Err(name("表区越过文件末尾（密钥可能不对）"));
    }
    Ok(())
}

/// Up to v7: tries the candidate keys on the header.
fn try_encrypted_head(first: &[u8]) -> (r: Result<RawHead, String>)
    ensures
        r is Ok <==> enc_head(first@) is Some,
        r matches Ok(h) ==> h@ == enc_head(first@).unwrap(),
{
    let cands = candidate_keys_12();
    let mut last_err = name("无可用密钥");
    let mut c: usize = 0;
    while c < cands.len()
        invariant
            cands@.len() == 9,
            forall|i: int| 0 <= i < 9 ==> #[trigger] cands@[i]@ == candidate(i),
            c <= 9,
            enc_head_from(first@, c as nat) == enc_head(first@),
        decreases 9 - c,
    {
        let cand = &cands[c];
        assert(cand@ == candidate(c as int));
        let n = if first.len() < 0x30 { first.len() } else { 0x30 };
        let mut hdr = crate::util::copy_range(first, 0, n);
        key_conv(&mut hdr, 0, cand.as_slice());
        assert(first@.take(n as int) =~= first@.subrange(0, n as int));
        if hdr.len() < 4 || hdr[0] != 68 || hdr[1] != 88 {
            last_err = name("魔数不符");
            c = c + 1;
            continue;
        }
        let version = match rd_u16(hdr.as_slice(), 2) {
            Ok(v) => v,
            Err(e) => {
                last_err = e;
                c = c + 1;
                continue;
            },
        };
        if !(1 <= version && version <= 7) {
            last_err = fmt_num("版本 ", version as u128, " 超出范围");
            c = c + 1;
            continue;
        }
        let need: usize = if version >= 6 { 48 } else if version >= 4 { 28 } else { 24 };
        if hdr.len() < need {
            last_err = name("头部不完整");
            c = c + 1;
            continue;
        }
        let (code_page, head_size, data_start, name_tbl, file_tbl, dir_tbl) =
            match read_head_fields(hdr.as_slice(), version) {
                Ok(v) => v,
                Err(e) => {
                    last_err = e;
                    c = c + 1;
                    continue;
                },
            };
        let head = RawHead {
            version,
            code_page,
            head_size,
            data_start,
            name_tbl,
            file_tbl,
            dir_tbl,
            no_key: false,
            no_head_press: true,
            huff_kb: 0xFF,
            key: Some(vstd::slice::slice_to_vec(cand.as_slice())),
        };
        assert(head@ == enc_fields(hdr@, cand@));
        if validate_head(&head, u64::MAX).is_ok() {
            return Ok(head);
        }
        last_err = name("头部字段不合理");
        c = c + 1;
    }
    Err(joined(&joined("无法识别加密包密钥（", last_err.as_str()), "）"))
}

// ---------------- tables ----------------

/// The decrypted tables: the name table, the file heads and the directories
/// share one buffer; file heads and directories are addressed from their bases.
pub struct TablesView {
    pub buf: Seq<u8>,
    pub version: u16,
    pub file_base: usize,
    pub dir_base: usize,
}

struct Tables<'a> {
    buf: &'a [u8],
    version: u16,
    file_base: usize,
    dir_base: usize,
}

impl<'a> View for Tables<'a> {
    type V = TablesView;

    closed spec fn view(&self) -> TablesView {
        TablesView { buf: self.buf@, version: self.version, file_base: self.file_base, dir_base: self.dir_base }
    }
}

/// Width of an address in the tables: 8 bytes from version 6, else 4.
pub open spec fn addr_w(version: u16) -> nat {
    if version >= 6 { 8 } else { 4 }
}

/// Offsets in a file head of the attributes, data address, size, LZ size and
/// Huffman size (`usize::MAX`: none), and the file head's length; the name
/// address comes first.
pub open spec fn layout(version: u16) -> (usize, usize, usize, usize, usize, usize) {
    if version >= 6 {
        if version >= 8 {
            (8, 40, 48, 56, 64, 72)
        } else {
            (8, 40, 48, 56, usize::MAX, 64)
        }
    } else {
        (4, 32, 36, 40, usize::MAX, if version >= 2 { 44 } else { 40 })
    }
}

fn file_head_layout(version: u16) -> (r: (usize, usize, usize, usize, usize, usize))
    ensures
        r == layout(version),
{
    if version >= 6 {
        if version >= 8 {
            (8, 40, 48, 56, 64, 72)
        } else {
            (8, 40, 48, 56, usize::MAX, 64)
        }
    } else {
        (4, 32, 36, 40, usize::MAX, if version >= 2 { 44 } else { 40 })
    }
}

/// A file head: name address, attributes, data address, size, LZ-compressed
/// size and Huffman-compressed size (`u64::MAX`: not compressed that way).
pub struct FileHeadView {
    pub attr: u64,
    pub name_addr: u64,
    pub data_addr: u64,
    pub size: u64,
    pub press: u64,
    pub huff_press: u64,
}

struct RawFileHead {
    attr: u64,
    name_addr: u64,
    data_addr: u64,
    size: u64,
    press: u64,
    huff_press: u64,
}

impl View for RawFileHead {
    type V = FileHeadView;

    closed spec fn view(&self) -> FileHeadView {
        FileHeadView {
            attr: self.attr,
            name_addr: self.name_addr,
            data_addr: self.data_addr,
            size: self.size,
            press: self.press,
            huff_press: self.huff_press,
        }
    }
}

/// A directory: the address of its own file head, that of its parent, its
/// number of files and the address of its first file head.
pub open spec fn dir_entry_of(t: TablesView, off: int) -> Option<(u64, u64, u64, u64)> {
    let w = addr_w(t.version);
    let base = t.dir_base + off;
    if base + 4 * w > t.buf.len() {
        None
    } else {
        Some((
            le_at(t.buf, base, w) as u64,
            le_at(t.buf, base + w, w) as u64,
            le_at(t.buf, base + 2 * w, w) as u64,
            le_at(t.buf, base + 3 * w, w) as u64,
        ))
    }
}

/// The file head at `off` from the file-head base.
pub open spec fn file_head_of(t: TablesView, off: int) -> Option<FileHeadView> {
    let l = layout(t.version);
    let w = addr_w(t.version);
    let base = t.file_base + off;
    if base + l.5 > t.buf.len() || base + l.3 + w > t.buf.len() {
        None
    } else {
        Some(FileHeadView {
            attr: le_at(t.buf, base + l.0, w) as u64,
            name_addr: le_at(t.buf, base, w) as u64,
            data_addr: le_at(t.buf, base + l.1, w) as u64,
            size: le_at(t.buf, base + l.2, w) as u64,
            press: le_at(t.buf, base + l.3, w) as u64,
            huff_press: if l.4 != usize::MAX { le_at(t.buf, base + l.4, w) as u64 } else { u64::MAX },
        })
    }
}

/// The upper-case name of the name record at `addr` (its length in 4-byte
/// units, a check sum, then the name up to a NUL inside that block).
pub open spec fn upper_name_of(t: TablesView, addr: u64) -> Option<Seq<u8>> {
    let base = (addr as usize) as int;
    match rd_at(t.buf, base, 2) {
        None => None,
        Some(units) => {
            let start = base + 4;
            if start > t.buf.len() {
                None
            } else {
                let end = if start + 4 * units < t.buf.len() { start + 4 * units } else { t.buf.len() as int };
                Some(until_nul(t.buf.subrange(start, end)))
            }
        },
    }
}

/// All bytes are ASCII.
pub open spec fn all_ascii(b: Seq<u8>) -> bool {
    forall|i: int| 0 <= i < b.len() ==> #[trigger] b[i] < 0x80
}

/// How a file name is decoded: ASCII as it is; else by the code page
/// (936: GBK, otherwise Shift-JIS), then GBK, as long as the text has no
/// replacement character; else as lossy UTF-8.
pub open spec fn name_text(bytes: Seq<u8>, code_page: u32) -> Seq<char> {
    if all_ascii(bytes) {
        crate::text::utf8_lossy(bytes)
    } else {
        let primary = if code_page == 936 {
            crate::text::gbk_decoded(bytes)
        } else {
            crate::text::sjis_decoded(bytes)
        };
        if !primary.contains('\u{FFFD}') {
            primary
        } else if !crate::text::gbk_decoded(bytes).contains('\u{FFFD}') {
            crate::text::gbk_decoded(bytes)
        } else {
            crate::text::utf8_lossy(bytes)
        }
    }
}

/// The name as written (after the upper-case block), up to a NUL, decoded as Shift-JIS.
pub open spec fn original_name_of(t: TablesView, addr: u64) -> Option<Seq<char>> {
    let base = (addr as usize) as int;
    match rd_at(t.buf, base, 2) {
        None => None,
        Some(units) => {
            let start = base + 4 + 4 * units;
            if start > t.buf.len() {
                None
            } else {
                Some(name_text(until_nul(t.buf.subrange(start, t.buf.len() as int)), 932))
            }
        },
    }
}

fn nul_end(s: &[u8], start: usize, end: usize) -> (r: usize)
    requires
        start <= end <= s@.len(),
    ensures
        start <= r <= end,
        s@.subrange(start as int, r as int) == until_nul(s@.subrange(start as int, end as int)),
{
    let ghost sub = s@.subrange(start as int, end as int);
    let mut i = start;
    while i < end
        invariant
            start <= i <= end <= s@.len(),
            sub == s@.subrange(start as int, end as int),
            forall|k: int| 0 <= k < i - start ==> sub[k] != 0,
        decreases end - i,
    {
        if s[i] == 0 {
            proof {
                crate::util::lemma_first_index_at(sub, |b: u8| b == 0, i - start);
                assert(sub.take(i - start) =~= s@.subrange(start as int, i as int));
            }
            return i;
        }
        i = i + 1;
    }
    proof {
        crate::util::lemma_first_index_none(sub, |b: u8| b == 0);
    }
    end
}

fn is_all_ascii(b: &[u8]) -> (r: bool)
    ensures
        r == all_ascii(b@),
{
    let mut i: usize = 0;
    while i < b.len()
        invariant
            i <= b@.len(),
            forall|k: int| 0 <= k < i ==> #[trigger] b@[k] < 0x80,
        decreases b@.len() - i,
    {
        if b[i] >= 0x80 {
            return false;
        }
        i = i + 1;
    }
    true
}

/// A file name by its code page (see [`name_text`]).
fn decode_name(bytes: &[u8], code_page: u32) -> (r: String)
    ensures
        r@ == name_text(bytes@, code_page),
{
    if is_all_ascii(bytes) {
        return crate::text::lossy_utf8(bytes);
    }
    let primary = if code_page == 936 {
        crate::text::gbk_decode(bytes)
    } else {
        crate::text::sjis_decode(bytes)
    };
    if !crate::text::has_replacement(primary.as_str()) {
        return primary;
    }
    let gbk = crate::text::gbk_decode(bytes);
    if !crate::text::has_replacement(gbk.as_str()) {
        return gbk;
    }
    crate::text::lossy_utf8(bytes)
}

impl<'a> Tables<'a> {
    fn addr_width(&self) -> (r: usize)
        ensures
            r == addr_w(self.version),
    {
        if self.version >= 6 { 8 } else { 4 }
    }

    fn fh_stride(&self) -> (r: usize)
        ensures
            r == layout(self.version).5,
    {
        file_head_layout(self.version).5
    }

    fn rd(&self, off: usize) -> (r: Result<u64, String>)
        ensures
            r is Ok <==> rd_at(self.buf@, off as int, addr_w(self.version)) is Some,
            r matches Ok(v) ==> v as nat == le_at(self.buf@, off as int, addr_w(self.version)),
    {
        if self.version >= 6 {
            rd_u64(self.buf, off)
        } else {
            let v = rd_u32(self.buf, off)?;
            Ok(v as u64)
        }
    }

    fn dir_entry(&self, off: usize) -> (r: Result<(u64, u64, u64, u64), String>)
        ensures
            r is Ok <==> dir_entry_of(self@, off as int) is Some,
            r matches Ok(d) ==> d == dir_entry_of(self@, off as int).unwrap(),
    {
        let w = self.addr_width();
        if self.dir_base > self.buf.len() || off > self.buf.len() - self.dir_base
            || self.buf.len() - self.dir_base - off < w * 4 {
            return Err(fmt_hex("目录表越界（@", off as u64, "）"));
        }
        let base = self.dir_base + off;
        let a = self.rd(base)?;
        let b = self.rd(base + w)?;
        let c = self.rd(base + w * 2)?;
        let d = self.rd(base + w * 3)?;
        Ok((a, b, c, d))
    }

    fn file_head(&self, off: usize) -> (r: Result<RawFileHead, String>)
        ensures
            r is Ok <==> file_head_of(self@, off as int) is Some,
            r matches Ok(h) ==> h@ == file_head_of(self@, off as int).unwrap(),
    {
        let (attr_o, data_o, size_o, press_o, huff_o, stride) = file_head_layout(self.version);
        if self.file_base > self.buf.len() || off > self.buf.len() - self.file_base
            || self.buf.len() - self.file_base - off < stride {
            return Err(fmt_hex("文件头表越界（@", off as u64, "）"));
        }
        let base = self.file_base + off;
        let press = self.rd(base + press_o)?;
        let huff = if huff_o != usize::MAX { self.rd(base + huff_o)? } else { u64::MAX };
        let attr = self.rd(base + attr_o)?;
        let name_addr = self.rd(base)?;
        let data_addr = self.rd(base + data_o)?;
        let size = self.rd(base + size_o)?;
        Ok(RawFileHead { attr, name_addr, data_addr, size, press, huff_press: huff })
    }

    /// The upper-case name bytes (for key derivation).
    fn upper_name(&self, addr: u64) -> (r: Result<Vec<u8>, String>)
        ensures
            r is Ok <==> upper_name_of(self@, addr) is Some,
            r matches Ok(n) ==> n@ == upper_name_of(self@, addr).unwrap(),
    {
        let base = #[verifier::truncate] (addr as usize);
        let units = match rd_u16(self.buf, base) {
            Ok(v) => v as usize,
            Err(_) => return Err(name("名字记录越界")),
        };
        let len = self.buf.len();
        if len < 4 || base > len - 4 {
            return Err(name("名字块越界"));
        }
        let start = base + 4;
        let end = if units * 4 < len - start { start + units * 4 } else { len };
        let stop = nul_end(self.buf, start, end);
        Ok(crate::util::copy_range(self.buf, start, stop))
    }

    /// The name as written (for display).
    fn original_name(&self, addr: u64) -> (r: Result<String, String>)
        ensures
            r is Ok <==> original_name_of(self@, addr) is Some,
            r matches Ok(n) ==> n@ == original_name_of(self@, addr).unwrap(),
    {
        let base = #[verifier::truncate] (addr as usize);
        let units = match rd_u16(self.buf, base) {
            Ok(v) => v as usize,
            Err(_) => return Err(name("名字记录越界")),
        };
        let len = self.buf.len();
        if len < 4 || base > len - 4 || units * 4 > len - base - 4 {
            return Err(name("原始文件名越界"));
        }
        let start = base + 4 + units * 4;
        let stop = nul_end(self.buf, start, len);
        let bytes = crate::util::copy_range(self.buf, start, stop);
        Ok(decode_name(bytes.as_slice(), 932))
    }
}

// ---------------- entries ----------------

/// A file of an archive (directories are not listed; they make up the paths).
#[derive(Debug)]
pub struct Entry {
    /// Path in the archive, `/`-separated, in the names' own case.
    pub path: String,
    /// Size once decompressed.
    pub size: u64,
    /// Where the data starts, from the archive's data start.
    pub data_addr: u64,
    /// Size of the LZ-compressed data, when it is compressed that way.
    pub press_size: Option<u64>,
    /// Size of the Huffman-compressed data, when it is compressed that way.
    pub huff_press_size: Option<u64>,
    /// The file's key: derived for it from version 7, else the archive's.
    pub key: Vec<u8>,
}

pub struct EntryView {
    pub path: Seq<char>,
    pub size: u64,
    pub data_addr: u64,
    pub press_size: Option<u64>,
    pub huff_press_size: Option<u64>,
    pub key: Seq<u8>,
}

impl View for Entry {
    type V = EntryView;

    open spec fn view(&self) -> EntryView {
        EntryView {
            path: self.path@,
            size: self.size,
            data_addr: self.data_addr,
            press_size: self.press_size,
            huff_press_size: self.huff_press_size,
            key: self.key@,
        }
    }
}

pub open spec fn entries_view(s: Seq<Entry>) -> Seq<EntryView> {
    s.map_values(|e: Entry| e@)
}

pub open spec fn names_view(s: Seq<Vec<u8>>) -> Seq<Seq<u8>> {
    s.map_values(|v: Vec<u8>| v@)
}

pub open spec fn key_view(k: Option<Vec<u8>>) -> Option<Seq<u8>> {
    match k {
        Some(v) => Some(v@),
        None => None,
    }
}

/// `prefix/name`, or `name` under an empty prefix.
pub open spec fn join_path(prefix: Seq<char>, name: Seq<char>) -> Seq<char> {
    if prefix.len() == 0 {
        name
    } else {
        prefix + seq!['/'] + name
    }
}

/// The names `anc[len-1]`, ..., `anc[k]` one after another.
pub open spec fn rev_from(anc: Seq<Seq<u8>>, k: int) -> Seq<u8>
    decreases anc.len() - k,
{
    if k >= anc.len() || k < 0 {
        seq![]
    } else {
        rev_from(anc, k + 1) + anc[k]
    }
}

/// The key of a file: from version 7, the 7-byte key of the password, the
/// file's upper-case name and those of its directories, the nearest first;
/// before, the archive's key.
pub open spec fn entry_key(t: TablesView, fh: FileHeadView, anc: Seq<Seq<u8>>, gkey: Option<Seq<u8>>, pw: Seq<u8>) -> Option<Seq<u8>> {
    if t.version >= 7 {
        match upper_name_of(t, fh.name_addr) {
            None => None,
            Some(up) => Some(key7_of(pw + up + rev_from(anc, 0))),
        }
    } else {
        gkey
    }
}

/// The path prefix and upper-case directory names inside a directory: the
/// root (own and parent address `u64::MAX`) adds nothing; another directory
/// adds its name.
pub open spec fn dir_prefix(t: TablesView, dir_addr: u64, parent: u64, prefix: Seq<char>, anc: Seq<Seq<u8>>) -> Option<(Seq<char>, Seq<Seq<u8>>)> {
    if dir_addr != u64::MAX && parent != u64::MAX {
        match file_head_of(t, (dir_addr as usize) as int) {
            None => None,
            Some(fh) => match (upper_name_of(t, fh.name_addr), original_name_of(t, fh.name_addr)) {
                (Some(up), Some(nm)) => Some((join_path(prefix, nm), anc.push(up))),
                _ => None,
            },
        }
    } else {
        Some((prefix, anc))
    }
}

/// The entries after those in `acc` once the directory at `off` is walked
/// depth first: its files in order, each subdirectory's entries where its head
/// stands. `None` where a table read fails, the nesting passes [`MAX_DEPTH`]
/// or more than [`MAX_ENTRIES`] entries were found before a directory.
pub open spec fn walk(t: TablesView, off: int, prefix: Seq<char>, anc: Seq<Seq<u8>>, gkey: Option<Seq<u8>>, pw: Seq<u8>, acc: Seq<EntryView>, depth: nat) -> Option<Seq<EntryView>>
    decreases MAX_DEPTH + 1 - depth, u64::MAX as int + 1,
{
    if depth > MAX_DEPTH || acc.len() > MAX_ENTRIES {
        None
    } else {
        match dir_entry_of(t, off) {
            None => None,
            Some(d) => match dir_prefix(t, d.0, d.1, prefix, anc) {
                None => None,
                Some(pa) => walk_files(t, d.3, 0, d.2, pa.0, pa.1, gkey, pw, acc, depth),
            },
        }
    }
}

/// The file heads `i` to `n - 1` of a directory whose first head is at `first`.
pub open spec fn walk_files(t: TablesView, first: u64, i: nat, n: u64, prefix: Seq<char>, anc: Seq<Seq<u8>>, gkey: Option<Seq<u8>>, pw: Seq<u8>, acc: Seq<EntryView>, depth: nat) -> Option<Seq<EntryView>>
    decreases MAX_DEPTH + 1 - depth, n - i,
{
    if depth > MAX_DEPTH {
        None
    } else if i >= n {
        Some(acc)
    } else {
        let off = (first as usize) as int + (i as usize) as int * layout(t.version).5;
        if off > usize::MAX {
            None
        } else {
            match file_head_of(t, off) {
                None => None,
                Some(fh) => if fh.attr & ATTR_DIRECTORY != 0 {
                    if fh.data_addr == u64::MAX {
                        walk_files(t, first, i + 1, n, prefix, anc, gkey, pw, acc, depth)
                    } else {
                        match walk(t, (fh.data_addr as usize) as int, prefix, anc, gkey, pw, acc, depth + 1) {
                            None => None,
                            Some(acc2) => walk_files(t, first, i + 1, n, prefix, anc, gkey, pw, acc2, depth),
                        }
                    }
                } else {
                    match (original_name_of(t, fh.name_addr), entry_key(t, fh, anc, gkey, pw)) {
                        (Some(nm), Some(k)) => walk_files(
                            t,
                            first,
                            i + 1,
                            n,
                            prefix,
                            anc,
                            gkey,
                            pw,
                            acc.push(
                                EntryView {
                                    path: join_path(prefix, nm),
                                    size: fh.size,
                                    data_addr: fh.data_addr,
                                    press_size: if fh.press != u64::MAX { Some(fh.press) } else { None },
                                    huff_press_size: if fh.huff_press != u64::MAX { Some(fh.huff_press) } else { None },
                                    key: k,
                                },
                            ),
                            depth,
                        ),
                        _ => None,
                    }
                },
            }
        }
    }
}

fn copy_names(a: &Vec<Vec<u8>>) -> (r: Vec<Vec<u8>>)
    ensures
        names_view(r@) == names_view(a@),
{
    let mut out: Vec<Vec<u8>> = Vec::new();
    let mut i: usize = 0;
    while i < a.len()
        invariant
            i <= a@.len(),
            out@.len() == i,
            forall|k: int| 0 <= k < i ==> #[trigger] out@[k]@ == a@[k]@,
        decreases a@.len() - i,
    {
        out.push(vstd::slice::slice_to_vec(a[i].as_slice()));
        i = i + 1;
    }
    assert(names_view(out@) =~= names_view(a@));
    out
}

fn join_path_exec(prefix: &str, nm: String) -> (r: String)
    ensures
        r@ == join_path(prefix@, nm@),
{
    if prefix.is_empty() {
        nm
    } else {
        let slash = "/";
        proof {
            reveal_strlit("/");
        }
        joined(joined(prefix, slash).as_str(), nm.as_str())
    }
}

/// The key of a file (see [`entry_key`]).
fn file_key(t: &Tables, fh: &RawFileHead, anc: &Vec<Vec<u8>>, global_key: &Option<Vec<u8>>, password: &[u8]) -> (r: Result<Vec<u8>, String>)
    ensures
        r is Ok <==> entry_key(t@, fh@, names_view(anc@), key_view(*global_key), password@) is Some,
        r matches Ok(k) ==> k@ == entry_key(t@, fh@, names_view(anc@), key_view(*global_key), password@).unwrap(),
{
    if t.version >= 7 {
        let up = t.upper_name(fh.name_addr)?;
        let mut ks = vstd::slice::slice_to_vec(password);
        crate::util::append_bytes(&mut ks, up.as_slice());
        let ghost base = ks@;
        let mut k = anc.len();
        while k > 0
            invariant
                k <= anc@.len(),
                ks@ == base + rev_from(names_view(anc@), k as int),
            decreases k,
        {
            k = k - 1;
            crate::util::append_bytes(&mut ks, anc[k].as_slice());
            proof {
                assert(names_view(anc@)[k as int] == anc@[k as int]@);
                assert(ks@ =~= base + rev_from(names_view(anc@), k as int));
            }
        }
        let key = key7_create(ks.as_slice());
        Ok(vstd::slice::slice_to_vec(key.as_slice()))
    } else {
        match global_key {
            Some(k) => Ok(vstd::slice::slice_to_vec(k.as_slice())),
            None => Err(name("缺少全局密钥")),
        }
    }
}

/// Walks the directory at `dir_off` depth first and appends its files to `out`
/// (see [`walk`]).
fn walk_dir(
    t: &Tables,
    dir_off: usize,
    prefix: &str,
    ancestors: &Vec<Vec<u8>>,
    global_key: &Option<Vec<u8>>,
    password: &[u8],
    out: &mut Vec<Entry>,
    depth: usize,
) -> (r: Result<(), String>)
    ensures
        r is Ok <==> walk(t@, dir_off as int, prefix@, names_view(ancestors@), key_view(*global_key), password@, entries_view(old(out)@), depth as nat) is Some,
        r is Ok ==> entries_view(final(out)@) == walk(t@, dir_off as int, prefix@, names_view(ancestors@), key_view(*global_key), password@, entries_view(old(out)@), depth as nat).unwrap(),
    decreases MAX_DEPTH + 1 - depth,
{
    if depth > MAX_DEPTH {
        return Err(name("目录嵌套过深"));
    }
    if out.len() > MAX_ENTRIES {
        return Err(name("条目数超出上限"));
    }
    let ghost total = walk(t@, dir_off as int, prefix@, names_view(ancestors@), key_view(*global_key), password@, entries_view(old(out)@), depth as nat);
    let (dir_addr, parent_addr, file_num, file_head_addr) = t.dir_entry(dir_off)?;
    let mut my_prefix = prefix.to_owned();
    let mut my_ancestors = copy_names(ancestors);
    if dir_addr != u64::MAX && parent_addr != u64::MAX {
        let fh = t.file_head(#[verifier::truncate] (dir_addr as usize))?;
        let upper = t.upper_name(fh.name_addr)?;
        let nm = t.original_name(fh.name_addr)?;
        my_prefix = join_path_exec(prefix, nm);
        my_ancestors.push(upper);
        proof {
            assert(names_view(my_ancestors@) =~= names_view(ancestors@).push(upper@));
        }
    }
    let stride = t.fh_stride();
    let mut i: u64 = 0;
    while i < file_num
        invariant
            depth <= MAX_DEPTH,
            stride == layout(t.version).5,
            total == walk(t@, dir_off as int, prefix@, names_view(ancestors@), key_view(*global_key), password@, entries_view(old(out)@), depth as nat),
            walk_files(t@, file_head_addr, i as nat, file_num, my_prefix@, names_view(my_ancestors@), key_view(*global_key), password@, entries_view(out@), depth as nat) == total,
        decreases file_num - i,
    {
        let fa = #[verifier::truncate] (file_head_addr as usize);
        let ii = #[verifier::truncate] (i as usize);
        let step = match ii.checked_mul(stride) {
            Some(v) => v,
            None => return Err(name("文件头地址溢出")),
        };
        let off = match fa.checked_add(step) {
            Some(v) => v,
            None => return Err(name("文件头地址溢出")),
        };
        let fh = t.file_head(off)?;
        if fh.attr & ATTR_DIRECTORY != 0 {
            if fh.data_addr == u64::MAX {
                i = i + 1;
                continue;
            }
            walk_dir(
                t,
                #[verifier::truncate] (fh.data_addr as usize),
                my_prefix.as_str(),
                &my_ancestors,
                global_key,
                password,
                out,
                depth + 1,
            )?;
            i = i + 1;
            continue;
        }
        let nm = t.original_name(fh.name_addr)?;
        let key = file_key(t, &fh, &my_ancestors, global_key, password)?;
        let path = join_path_exec(my_prefix.as_str(), nm);
        let press_size = if fh.press != u64::MAX { Some(fh.press) } else { None };
        let huff_press_size = if fh.huff_press != u64::MAX { Some(fh.huff_press) } else { None };
        let ghost before = out@;
        out.push(Entry { path, size: fh.size, data_addr: fh.data_addr, press_size, huff_press_size, key });
        proof {
            assert(entries_view(out@) =~= entries_view(before).push(out@.last()@));
        }
        i = i + 1;
    }
    Ok(())
}

// ---------------- the archive ----------------

/// What an archive holds besides its bytes.
pub struct ArchiveView {
    pub version: u16,
    pub code_page: u32,
    pub huff_kb: u8,
    pub entries: Seq<EntryView>,
    pub data_start: u64,
}

/// A DXLib archive read from memory.
#[derive(Debug)]
pub struct Archive {
    /// Archive version (Wolf uses 5, 6 and 8).
    pub version: u16,
    /// Code page of the file names (932: Shift-JIS).
    pub code_page: u32,
    /// Huffman block size in KiB (0xFF: whole files).
    pub huff_kb: u8,
    entries: Vec<Entry>,
    source: Vec<u8>,
    data_start: u64,
}

impl View for Archive {
    type V = ArchiveView;

    closed spec fn view(&self) -> ArchiveView {
        ArchiveView {
            version: self.version,
            code_page: self.code_page,
            huff_kb: self.huff_kb,
            entries: entries_view(self.entries@),
            data_start: self.data_start,
        }
    }
}

/// Every entry has a key.
pub open spec fn keys_ok(es: Seq<EntryView>) -> bool {
    forall|i: int| 0 <= i < es.len() ==> (#[trigger] es[i]).key.len() > 0
}

impl Archive {
    /// The archive file's bytes.
    pub closed spec fn bytes(&self) -> Seq<u8> {
        self.source@
    }

    /// What reading the archive keeps true: every entry has a key.
    pub open spec fn wf(&self) -> bool {
        keys_ok(self@.entries)
    }
}

/// `n` bytes of `src` from `off`, when they are there.
pub open spec fn read_span(src: Seq<u8>, off: int, n: int) -> Option<Seq<u8>> {
    if off + n > src.len() {
        None
    } else {
        Some(src.subrange(off, off + n))
    }
}

/// The decrypted (and, in version 8, decompressed) tables of an archive:
/// version 8 tables run from their offset to the end of the file and must come
/// out at the stated size; other tables are read at their size, under the key
/// from phase 0 (version 5 on) or from their offset modulo 12.
pub open spec fn tables_of(bytes: Seq<u8>, h: HeadView) -> Option<Seq<u8>> {
    if h.version >= 8 && !h.no_head_press {
        if h.name_tbl > bytes.len() {
            None
        } else {
            let blob = keyed_opt(bytes.subrange(h.name_tbl as int, bytes.len() as int), 0, h.key);
            match huffman_decoded(blob) {
                None => None,
                Some(l) => match lz_decoded(l) {
                    None => None,
                    Some(b) => if b.len() == h.head_size { Some(b) } else { None },
                },
            }
        }
    } else {
        let phase = if h.version >= 5 { 0 } else { h.name_tbl % 12 };
        match read_span(bytes, h.name_tbl as int, h.head_size as int) {
            None => None,
            Some(blob) => Some(keyed_opt(blob, phase as int, h.key)),
        }
    }
}

/// The archive of a header and a password: its tables, then the walk of the
/// root directory, which must find at least one file.
#[verifier::opaque]
pub open spec fn build_of(bytes: Seq<u8>, h: HeadView, pw: Seq<u8>) -> Option<ArchiveView> {
    match tables_of(bytes, h) {
        None => None,
        Some(buf) => {
            let t = TablesView { buf, version: h.version, file_base: h.file_tbl as usize, dir_base: h.dir_tbl as usize };
            match walk(t, 0, seq![], seq![], h.key, pw, seq![], 0) {
                None => None,
                Some(es) => if es.len() == 0 {
                    None
                } else {
                    Some(ArchiveView {
                        version: h.version,
                        code_page: h.code_page,
                        huff_kb: h.huff_kb,
                        entries: es,
                        data_start: h.data_start,
                    })
                },
            }
        },
    }
}

/// A plain header under the key of a password (none for a keyless archive).
pub open spec fn with_password(h: HeadView, pw: Seq<u8>) -> HeadView {
    HeadView { key: if !h.no_key { Some(key7_of(pw)) } else { None }, ..h }
}

/// The archive of the first password from `i` on that opens a plain header.
pub open spec fn plain_from(bytes: Seq<u8>, h: HeadView, pws: Seq<Seq<u8>>, i: int) -> Option<ArchiveView>
    decreases pws.len() - i,
{
    if i < 0 || i >= pws.len() {
        None
    } else {
        match build_of(bytes, with_password(h, pws[i]), pws[i]) {
            Some(a) => Some(a),
            None => plain_from(bytes, h, pws, i + 1),
        }
    }
}

/// The archive in `bytes`, with `extra` passwords tried after the default one
/// on a plain header: at least 24 bytes; a plain header (`DX`) of version 8 or
/// later, sound for the file, opened by the first password that gives an
/// archive; else an encrypted header opened by a candidate key.
pub open spec fn parsed(bytes: Seq<u8>, extra: Seq<Seq<u8>>) -> Option<ArchiveView> {
    if bytes.len() < 0x18 {
        None
    } else {
        let first = bytes.take(if bytes.len() < 0x40 { bytes.len() as int } else { 0x40 });
        if first[0] == 68 && first[1] == 88 {
            match plain_head_of(first) {
                None => None,
                Some(h) => if h.version < 8 || !head_ok(h, bytes.len() as u64) {
                    None
                } else {
                    plain_from(bytes, h, seq![DEFAULT_PASSWORD@] + extra, 0)
                },
            }
        } else {
            match enc_head(first) {
                None => None,
                Some(h) => build_of(bytes, h, DEFAULT_PASSWORD@),
            }
        }
    }
}

/// The data of an entry: read at the data start plus its address, decrypted
/// from phase size (version 5 on) or address modulo the key length, then
/// Huffman- or LZ-decoded when compressed; it must come out at its size.
/// Huffman data split into head and tail blocks (a file larger than twice the
/// block size) is refused.
pub open spec fn entry_data(a: ArchiveView, src: Seq<u8>, e: EntryView) -> Option<Seq<u8>> {
    let abs = a.data_start + e.data_addr;
    if abs > u64::MAX || e.key.len() == 0 {
        None
    } else {
        let phase = (if a.version >= 5 { e.size as int } else { abs }) % (e.key.len() as int);
        let raw = match e.huff_press_size {
            Some(hs) => if a.huff_kb != 0xFF && e.size > a.huff_kb * 2048 {
                None
            } else {
                match read_span(src, abs, (hs as usize) as int) {
                    None => None,
                    Some(blob) => huffman_decoded(keyed(blob, phase, e.key)),
                }
            },
            None => {
                let stored = (match e.press_size { Some(p) => p, None => e.size }) as usize;
                match read_span(src, abs, stored as int) {
                    None => None,
                    Some(blob) => match e.press_size {
                        Some(_) => lz_decoded(keyed(blob, phase, e.key)),
                        None => Some(keyed(blob, phase, e.key)),
                    },
                }
            },
        };
        match raw {
            Some(d) => if d.len() == e.size { Some(d) } else { None },
            None => None,
        }
    }
}

/// `pb` ends with `/` and then `nb`.
pub open spec fn slash_suffix(pb: Seq<u8>, nb: Seq<u8>) -> bool {
    &&& pb.len() > nb.len()
    &&& pb.subrange(pb.len() - nb.len(), pb.len() as int) == nb
    &&& pb[pb.len() - nb.len() - 1] == 0x2F
}

/// How a path is compared: `\` as `/`, in lower case.
pub open spec fn norm_path(s: Seq<char>) -> Seq<char> {
    crate::text::lowercased(crate::text::slashed(s))
}

/// An entry's path matches a path looked for: the same once normalised, or
/// it ends with `/` and the path.
pub open spec fn path_matches(p: Seq<char>, n: Seq<char>) -> bool {
    norm_path(p) == norm_path(n) || slash_suffix(
        vstd::utf8::encode_utf8(norm_path(p)),
        vstd::utf8::encode_utf8(norm_path(n)),
    )
}

fn ends_with_slash(pb: &[u8], nb: &[u8]) -> (r: bool)
    ensures
        r == slash_suffix(pb@, nb@),
{
    if pb.len() <= nb.len() {
        return false;
    }
    let d = pb.len() - nb.len();
    let mut k: usize = 0;
    while k < nb.len()
        invariant
            nb@.len() < pb@.len() <= usize::MAX,
            d == pb@.len() - nb@.len(),
            k <= nb@.len(),
            forall|j: int| 0 <= j < k ==> pb@[d + j] == #[trigger] nb@[j],
        decreases nb@.len() - k,
    {
        if pb[d + k] != nb[k] {
            assert(pb@.subrange(d as int, pb@.len() as int)[k as int] != nb@[k as int]);
            return false;
        }
        k = k + 1;
    }
    assert(pb@.subrange(d as int, pb@.len() as int) =~= nb@);
    pb[d - 1] == 0x2F
}

fn read_span_exec(src: &Vec<u8>, off: u64, n: usize) -> (r: Result<Vec<u8>, String>)
    ensures
        r is Ok <==> read_span(src@, off as int, n as int) is Some,
        r matches Ok(b) ==> b@ == read_span(src@, off as int, n as int).unwrap(),
{
    let len = src.len();
    if off > len as u64 || n > len - (off as usize) {
        return Err(fmt_hex("读取越界（", off, "）"));
    }
    let start = off as usize;
    Ok(crate::util::copy_range(src.as_slice(), start, start + n))
}

/// A copy of a header with another key.
fn head_with_key(h: &RawHead, key: Option<Vec<u8>>) -> (r: RawHead)
    ensures
        r@ == (HeadView { key: key_view(key), ..h@ }),
{
    RawHead {
        version: h.version,
        code_page: h.code_page,
        head_size: h.head_size,
        data_start: h.data_start,
        name_tbl: h.name_tbl,
        file_tbl: h.file_tbl,
        dir_tbl: h.dir_tbl,
        no_key: h.no_key,
        no_head_press: h.no_head_press,
        huff_kb: h.huff_kb,
        key,
    }
}

fn copy_key(k: &Option<Vec<u8>>) -> (r: Option<Vec<u8>>)
    ensures
        key_view(r) == key_view(*k),
{
    match k {
        Some(v) => Some(vstd::slice::slice_to_vec(v.as_slice())),
        None => None,
    }
}

/// Reads the tables of a header (see [`tables_of`]).
fn read_tables(bytes: &Vec<u8>, head: &RawHead) -> (r: Result<Vec<u8>, String>)
    ensures
        r is Ok <==> tables_of(bytes@, head@) is Some,
        r matches Ok(b) ==> b@ == tables_of(bytes@, head@).unwrap(),
{
    if head.version >= 8 && !head.no_head_press {
        if head.name_tbl > bytes.len() as u64 {
            return Err(name("表区偏移越界"));
        }
        let mut blob = read_span_exec(bytes, head.name_tbl, bytes.len() - head.name_tbl as usize)?;
        if let Some(k) = &head.key {
            key_conv(&mut blob, 0, k.as_slice());
        }
        let lzed = match huffman_decode(blob.as_slice()) {
            Ok(v) => v,
            Err(e) => return Err(joined(joined("表区解压失败：", e.as_str()).as_str(), "（密钥可能不对）")),
        };
        let buf = match lz_decode(lzed.as_slice()) {
            Ok(v) => v,
            Err(e) => return Err(joined(joined("表区二次解压失败：", e.as_str()).as_str(), "（密钥可能不对）")),
        };
        if buf.len() != head.head_size {
            return Err(fmt_num("表区解压大小不符（得 ", buf.len() as u128, "）；密钥可能不对"));
        }
        Ok(buf)
    } else {
        let phase: usize = if head.version >= 5 { 0 } else { (head.name_tbl % 12) as usize };
        let mut blob = read_span_exec(bytes, head.name_tbl, head.head_size)?;
        if let Some(k) = &head.key {
            key_conv(&mut blob, phase, k.as_slice());
        }
        Ok(blob)
    }
}

/// Builds the archive of a header and a password (see [`build_of`]); the
/// bytes are not kept.
fn build_archive(bytes: &Vec<u8>, head: &RawHead, password: &[u8]) -> (r: Result<Archive, String>)
    ensures
        r is Ok <==> build_of(bytes@, head@, password@) is Some,
        r matches Ok(a) ==> a@ == build_of(bytes@, head@, password@).unwrap(),
{
    proof {
        reveal(build_of);
    }
    let buf = read_tables(bytes, head)?;
    let t = Tables {
        buf: buf.as_slice(),
        version: head.version,
        file_base: #[verifier::truncate] (head.file_tbl as usize),
        dir_base: #[verifier::truncate] (head.dir_tbl as usize),
    };
    let mut entries: Vec<Entry> = Vec::new();
    let anc: Vec<Vec<u8>> = Vec::new();
    let root = "";
    proof {
        reveal_strlit("");
        assert(names_view(anc@) =~= seq![]);
        assert(entries_view(entries@) =~= seq![]);
    }
    assert(t@ == (TablesView { buf: tables_of(bytes@, head@).unwrap(), version: head@.version, file_base: head@.file_tbl as usize, dir_base: head@.dir_tbl as usize }));
    assert(key_view(head.key) == head@.key);
    assert(root@ == Seq::<char>::empty());
    match walk_dir(&t, 0, root, &anc, &head.key, password, &mut entries, 0) {
        Ok(()) => {},
        Err(e) => return Err(joined("目录树展开失败：", e.as_str())),
    }
    if entries.len() == 0 {
        return Err(name("未解析出任何文件（密钥可能不对）"));
    }
    Ok(Archive {
        version: head.version,
        code_page: head.code_page,
        huff_kb: head.huff_kb,
        entries,
        source: Vec::new(),
        data_start: head.data_start,
    })
}

/// Tries the default password, then each of `extra`, on a plain header (see [`plain_from`]).
fn open_plain(source: &Vec<u8>, head: &RawHead, extra: &[&[u8]]) -> (r: Result<Archive, String>)
    ensures
        r is Ok <==> plain_from(source@, head@, seq![DEFAULT_PASSWORD@] + extra@.map_values(|p: &[u8]| p@), 0) is Some,
        r matches Ok(a) ==> a@ == plain_from(source@, head@, seq![DEFAULT_PASSWORD@] + extra@.map_values(|p: &[u8]| p@), 0).unwrap() && a.wf(),
{
    let ghost pws = seq![DEFAULT_PASSWORD@] + extra@.map_values(|p: &[u8]| p@);
    let mut last_err = name("无可用结果");
    let mut i: usize = 0;
    loop
        invariant
            i <= extra@.len(),
            pws.len() == extra@.len() + 1,
            pws == seq![DEFAULT_PASSWORD@] + extra@.map_values(|p: &[u8]| p@),
            plain_from(source@, head@, pws, i as int) == plain_from(source@, head@, pws, 0),
        ensures
            plain_from(source@, head@, pws, 0) is None,
        decreases extra@.len() - i,
    {
        let pw: &[u8] = if i == 0 { DEFAULT_PASSWORD.as_slice() } else { extra[i - 1] };
        assert(pw@ == pws[i as int]);
        let key = if !head.no_key {
            let k = key7_create(pw);
            Some(vstd::slice::slice_to_vec(k.as_slice()))
        } else {
            None
        };
        let cand = head_with_key(head, key);
        assert(cand@ == with_password(head@, pws[i as int]));
        match build_archive(source, &cand, pw) {
            Ok(a) => {
                proof {
                    lemma_build_keys(source@, cand@, pw@);
                }
                return Ok(a);
            },
            Err(e) => last_err = e,
        }
        if i == extra.len() {
            assert(plain_from(source@, head@, pws, i + 1) is None);
            break;
        }
        i = i + 1;
    }
    Err(joined(
        joined("无法解密档案表区（", last_err.as_str()).as_str(),
        "）。该加密包很可能使用了自定义密码，可尝试 Archive::open_with_password 提供打包时设置的密码",
    ))
}


impl Archive {
    /// Reads an archive from memory (see [`parsed`]).
    pub fn from_bytes(bytes: &[u8]) -> (r: Result<Archive, String>)
        ensures
            r is Ok <==> parsed(bytes@, seq![]) is Some,
            r matches Ok(a) ==> a@ == parsed(bytes@, seq![]).unwrap() && a.bytes() == bytes@ && a.wf(),
    {
        let none: [&[u8]; 0] = [];
        let r = Archive::from_bytes_with_password(bytes, none.as_slice());
        proof {
            assert(none@.map_values(|p: &[u8]| p@) =~= seq![]);
        }
        r
    }

    /// [`Archive::from_bytes`] with more passwords to try on a plain header.
    pub fn from_bytes_with_password(bytes: &[u8], extra: &[&[u8]]) -> (r: Result<Archive, String>)
        ensures
            r is Ok <==> parsed(bytes@, extra@.map_values(|p: &[u8]| p@)) is Some,
            r matches Ok(a) ==> a@ == parsed(bytes@, extra@.map_values(|p: &[u8]| p@)).unwrap()
                && a.bytes() == bytes@ && a.wf(),
    {
        let source = vstd::slice::slice_to_vec(bytes);
        let mut arch = Archive::parse_with(&source, extra)?;
        arch.source = source;
        Ok(arch)
    }

    fn parse_with(source: &Vec<u8>, extra: &[&[u8]]) -> (r: Result<Archive, String>)
        ensures
            r is Ok <==> parsed(source@, extra@.map_values(|p: &[u8]| p@)) is Some,
            r matches Ok(a) ==> a@ == parsed(source@, extra@.map_values(|p: &[u8]| p@)).unwrap() && a.wf(),
    {
        let ghost extra_v = extra@.map_values(|p: &[u8]| p@);
        let total_len = source.len();
        if total_len < 0x18 {
            return Err(fmt_num("加密包过小（", total_len as u128, " 字节）"));
        }
        let n = if total_len < 0x40 { total_len } else { 0x40 };
        let first = crate::util::copy_range(source.as_slice(), 0, n);
        assert(first@ =~= source@.take(n as int));
        if first.len() >= 4 && first[0] == 68 && first[1] == 88 {
            let head = parse_plain_head(first.as_slice())?;
            if head.version < 8 {
                return Err(fmt_num("不支持的明文头部版本 ", head.version as u128, ""));
            }
            validate_head(&head, total_len as u64)?;
            return open_plain(source, &head, extra);
        }
        let head = try_encrypted_head(first.as_slice())?;
        proof {
            lemma_enc_head_key(first@, 0);
        }
        let a = build_archive(source, &head, DEFAULT_PASSWORD.as_slice())?;
        proof {
            lemma_build_keys(source@, head@, DEFAULT_PASSWORD@);
        }
        Ok(a)
    }

    /// All entries, in the order of the directory walk.
    pub fn entries(&self) -> (r: &[Entry])
        ensures
            entries_view(r@) == self@.entries,
    {
        self.entries.as_slice()
    }

    /// Entry `i`, if there is one.
    pub fn entry(&self, i: usize) -> (r: Option<&Entry>)
        ensures
            r is Some <==> i < self@.entries.len(),
            r matches Some(e) ==> e@ == self@.entries[i as int],
    {
        if i < self.entries.len() {
            Some(&self.entries[i])
        } else {
            None
        }
    }

    /// The first entry whose path matches `path` (see [`path_matches`]):
    /// case and `\` / `/` do not matter; a whole path or one that ends it
    /// after a `/`.
    pub fn find(&self, path: &str) -> (r: Option<usize>)
        ensures
            r matches Some(i) ==> first_index(self@.entries, |e: EntryView| path_matches(e.path, path@)) == Some(i as int),
            r is None ==> first_index(self@.entries, |e: EntryView| path_matches(e.path, path@)) is None,
    {
        let norm = crate::text::lower(crate::text::forward_slashes(path).as_str());
        let nb = norm.as_str().as_bytes();
        let mut i: usize = 0;
        while i < self.entries.len()
            invariant
                i <= self.entries@.len(),
                norm@ == norm_path(path@),
                nb@ == vstd::utf8::encode_utf8(norm@),
                forall|k: int| 0 <= k < i ==> !path_matches(#[trigger] entries_view(self.entries@)[k].path, path@),
            decreases self.entries@.len() - i,
        {
            let p = crate::text::lower(crate::text::forward_slashes(self.entries[i].path.as_str()).as_str());
            let pb = p.as_str().as_bytes();
            let same = p == norm;
            let tail = ends_with_slash(pb, nb);
            let hit = same || tail;
            proof {
                let ev = entries_view(self.entries@)[i as int];
                assert(ev == self.entries@[i as int]@);
                assert(p@ == norm_path(ev.path));
                assert(pb@ == vstd::utf8::encode_utf8(p@));
                assert(same == (norm_path(ev.path) == norm_path(path@)));
                assert(hit == path_matches(ev.path, path@));
            }
            if hit {
                proof {
                    crate::util::lemma_first_index_at(self@.entries, |e: EntryView| path_matches(e.path, path@), i as int);
                }
                return Some(i);
            }
            i = i + 1;
        }
        proof {
            crate::util::lemma_first_index_none(self@.entries, |e: EntryView| path_matches(e.path, path@));
        }
        None
    }

    /// Reads and decrypts entry `i` (see [`entry_data`]).
    pub fn read_entry(&self, i: usize) -> (r: Result<Vec<u8>, String>)
        requires
            self.wf(),
        ensures
            r is Ok <==> i < self@.entries.len() && entry_data(self@, self.bytes(), self@.entries[i as int]) is Some,
            r matches Ok(d) ==> d@ == entry_data(self@, self.bytes(), self@.entries[i as int]).unwrap(),
    {
        if i >= self.entries.len() {
            return Err(fmt_num("条目越界（", i as u128, "）"));
        }
        let e = &self.entries[i];
        assert(e@ == self@.entries[i as int]);
        if e.data_addr > u64::MAX - self.data_start {
            return Err(name("数据地址溢出"));
        }
        let abs = self.data_start + e.data_addr;
        let klen = e.key.len() as u64;
        let phase = (if self.version >= 5 { e.size } else { abs }) % klen;
        let raw = if let Some(hs) = e.huff_press_size {
            if self.huff_kb != 0xFF && e.size > self.huff_kb as u64 * 2048 {
                return Err(joined(e.path.as_str(), "：「头尾分段」哈夫曼压缩暂不支持"));
            }
            let mut blob = read_span_exec(&self.source, abs, #[verifier::truncate] (hs as usize))?;
            key_conv(&mut blob, phase as usize, e.key.as_slice());
            huffman_decode(blob.as_slice())?
        } else {
            let stored = #[verifier::truncate] ((match e.press_size { Some(p) => p, None => e.size }) as usize);
            let mut blob = read_span_exec(&self.source, abs, stored)?;
            key_conv(&mut blob, phase as usize, e.key.as_slice());
            match e.press_size {
                Some(_) => lz_decode(blob.as_slice())?,
                None => blob,
            }
        };
        if raw.len() as u64 != e.size {
            return Err(joined(e.path.as_str(), "：解压后大小不符"));
        }
        Ok(raw)
    }
}

// ---------------- keys of what reading gives ----------------

/// The header an encrypted header opens carries a 12-byte key.
proof fn lemma_enc_head_key(first: Seq<u8>, i: nat)
    ensures
        enc_head_from(first, i) matches Some(h) ==> (h.key matches Some(k) && k.len() == 12),
    decreases 9 - i,
{
    if i < 9 {
        lemma_enc_head_key(first, i + 1);
    }
}

proof fn lemma_walk_keys(t: TablesView, off: int, prefix: Seq<char>, anc: Seq<Seq<u8>>, gkey: Option<Seq<u8>>, pw: Seq<u8>, acc: Seq<EntryView>, depth: nat)
    requires
        keys_ok(acc),
        gkey matches Some(k) ==> k.len() > 0,
    ensures
        walk(t, off, prefix, anc, gkey, pw, acc, depth) matches Some(es) ==> keys_ok(es),
    decreases MAX_DEPTH + 1 - depth, u64::MAX as int + 1,
{
    if depth <= MAX_DEPTH && acc.len() <= MAX_ENTRIES {
        if let Some(d) = dir_entry_of(t, off) {
            if let Some(pa) = dir_prefix(t, d.0, d.1, prefix, anc) {
                lemma_walk_files_keys(t, d.3, 0, d.2, pa.0, pa.1, gkey, pw, acc, depth);
            }
        }
    }
}

proof fn lemma_walk_files_keys(t: TablesView, first: u64, i: nat, n: u64, prefix: Seq<char>, anc: Seq<Seq<u8>>, gkey: Option<Seq<u8>>, pw: Seq<u8>, acc: Seq<EntryView>, depth: nat)
    requires
        keys_ok(acc),
        gkey matches Some(k) ==> k.len() > 0,
    ensures
        walk_files(t, first, i, n, prefix, anc, gkey, pw, acc, depth) matches Some(es) ==> keys_ok(es),
    decreases MAX_DEPTH + 1 - depth, n - i,
{
    if depth <= MAX_DEPTH && i < n {
        let off = (first as usize) as int + (i as usize) as int * layout(t.version).5;
        if off <= usize::MAX {
            if let Some(fh) = file_head_of(t, off) {
                if fh.attr & ATTR_DIRECTORY != 0 {
                    if fh.data_addr == u64::MAX {
                        lemma_walk_files_keys(t, first, i + 1, n, prefix, anc, gkey, pw, acc, depth);
                    } else {
                        lemma_walk_keys(t, (fh.data_addr as usize) as int, prefix, anc, gkey, pw, acc, depth + 1);
                        if let Some(acc2) = walk(t, (fh.data_addr as usize) as int, prefix, anc, gkey, pw, acc, depth + 1) {
                            lemma_walk_files_keys(t, first, i + 1, n, prefix, anc, gkey, pw, acc2, depth);
                        }
                    }
                } else {
                    if let (Some(nm), Some(k)) = (original_name_of(t, fh.name_addr), entry_key(t, fh, anc, gkey, pw)) {
                        let e = EntryView {
                            path: join_path(prefix, nm),
                            size: fh.size,
                            data_addr: fh.data_addr,
                            press_size: if fh.press != u64::MAX { Some(fh.press) } else { None },
                            huff_press_size: if fh.huff_press != u64::MAX { Some(fh.huff_press) } else { None },
                            key: k,
                        };
                        assert(k.len() > 0);
                        assert(keys_ok(acc.push(e)));
                        lemma_walk_files_keys(t, first, i + 1, n, prefix, anc, gkey, pw, acc.push(e), depth);
                    }
                }
            }
        }
    }
}

/// An archive built from a header whose key, if any, is not empty has a key for every entry.
proof fn lemma_build_keys(bytes: Seq<u8>, h: HeadView, pw: Seq<u8>)
    requires
        h.key matches Some(k) ==> k.len() > 0,
    ensures
        build_of(bytes, h, pw) matches Some(a) ==> keys_ok(a.entries),
{
    reveal(build_of);
    if let Some(buf) = tables_of(bytes, h) {
        let t = TablesView { buf, version: h.version, file_base: h.file_tbl as usize, dir_base: h.dir_tbl as usize };
        lemma_walk_keys(t, 0, seq![], seq![], h.key, pw, seq![], 0);
    }
}

} // verus!
