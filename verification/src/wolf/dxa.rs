//! Pieces of DXLib's archive format (`.wolf` packs of Wolf RPG Editor): the
//! CRC-32 and key derivations of its passwords and its LZ decompression.
use vstd::prelude::*;
use crate::text::{name, fmt_num};
use crate::util::le_at;

verus! {

/// Default password of version 7 and 8 archives (the final NUL takes part in the CRC).
pub const DEFAULT_PASSWORD: [u8; 9] = [68, 88, 66, 68, 88, 65, 82, 67, 0];

/// One bit step of the reflected CRC-32 (polynomial 0xEDB88320).
pub open spec fn crc_bit(c: u32) -> u32 {
    if c & 1 == 1 {
        (c >> 1u32) ^ 0xEDB8_8320u32
    } else {
        c >> 1u32
    }
}

/// Eight bit steps.
pub open spec fn crc_bits(c: u32, k: nat) -> u32
    decreases k,
{
    if k == 0 {
        c
    } else {
        crc_bits(crc_bit(c), (k - 1) as nat)
    }
}

/// The register after the bytes of `s`, starting from `c`.
pub open spec fn crc_fold(c: u32, s: Seq<u8>) -> u32
    decreases s.len(),
{
    if s.len() == 0 {
        c
    } else {
        crc_bits(crc_fold(c, s.drop_last()) ^ (s.last() as u32), 8)
    }
}

/// Standard CRC-32 of the bytes (initial value and final inversion 0xFFFFFFFF).
pub open spec fn crc32_of(s: Seq<u8>) -> u32 {
    !crc_fold(0xFFFF_FFFFu32, s)
}

/// Standard CRC-32 (reflected polynomial 0xEDB88320).
pub fn crc32(data: &[u8]) -> (r: u32)
    ensures
        r == crc32_of(data@),
{
    let mut crc: u32 = 0xFFFF_FFFF;
    let mut i: usize = 0;
    while i < data.len()
        invariant
            i <= data@.len(),
            crc == crc_fold(0xFFFF_FFFFu32, data@.subrange(0, i as int)),
        decreases data@.len() - i,
    {
        let ghost before = crc;
        crc = crc ^ (data[i] as u32);
        let ghost start = crc;
        let mut k: u32 = 0;
        while k < 8
            invariant
                k <= 8,
                crc_bits(start, 8) == crc_bits(crc, (8 - k) as nat),
            decreases 8 - k,
        {
            let mask: u32 = if crc & 1 == 1 { 0xFFFF_FFFF } else { 0 };
            proof {
                assert((crc & 1 == 1 ==> (crc >> 1u32) ^ (0xEDB8_8320u32 & 0xFFFF_FFFFu32) == (crc >> 1u32) ^ 0xEDB8_8320u32)
                    && (0xEDB8_8320u32 & 0u32) == 0u32 && (crc >> 1u32) ^ 0u32 == crc >> 1u32) by (bit_vector);
            }
            crc = (crc >> 1) ^ (0xEDB8_8320 & mask);
            k = k + 1;
        }
        proof {
            assert(data@.subrange(0, i + 1).drop_last() =~= data@.subrange(0, i as int));
        }
        i = i + 1;
    }
    assert(data@.subrange(0, data@.len() as int) =~= data@);
    !crc
}

/// Every other byte from `start`.
pub open spec fn every_other(s: Seq<u8>, start: int) -> Seq<u8> {
    Seq::new(
        (if s.len() > start { (s.len() - start + 1) / 2 } else { 0 }) as nat,
        |i: int| s[start + 2 * i],
    )
}

/// The password a 7-byte key is derived from: padded with the default password when shorter than 4.
pub open spec fn key7_source(password: Seq<u8>) -> Seq<u8> {
    if password.len() < 4 {
        password + DEFAULT_PASSWORD@
    } else {
        password
    }
}

/// The 7-byte key of version 7 and 8 archives: the little-endian CRC-32 of the
/// even-position bytes of the password, then three bytes of that of the odd ones.
pub open spec fn key7_of(password: Seq<u8>) -> Seq<u8> {
    let src = key7_source(password);
    let c0 = crc32_of(every_other(src, 0));
    let c1 = crc32_of(every_other(src, 1));
    seq![
        (c0 & 0xff) as u8,
        ((c0 >> 8u32) & 0xff) as u8,
        ((c0 >> 16u32) & 0xff) as u8,
        ((c0 >> 24u32) & 0xff) as u8,
        (c1 & 0xff) as u8,
        ((c1 >> 8u32) & 0xff) as u8,
        ((c1 >> 16u32) & 0xff) as u8,
    ]
}

fn take_every_other(s: &Vec<u8>, start: usize) -> (r: Vec<u8>)
    requires
        start <= 1,
    ensures
        r@ == every_other(s@, start as int),
{
    let n = s.len();
    let count: usize = if n > start { (n - start) / 2 + (n - start) % 2 } else { 0 };
    assert(count == (if s@.len() > start { (s@.len() - start + 1) / 2 } else { 0 }));
    let mut out: Vec<u8> = Vec::new();
    let mut j: usize = 0;
    while j < count
        invariant
            n == s@.len(),
            start <= 1,
            j <= count,
            count == (if s@.len() > start { (s@.len() - start + 1) / 2 } else { 0 }),
            out@.len() == j,
            forall|k: int| 0 <= k < j ==> #[trigger] out@[k] == s@[start + 2 * k],
        decreases count - j,
    {
        out.push(s[start + 2 * j]);
        j = j + 1;
    }
    assert(out@ =~= every_other(s@, start as int));
    out
}

/// Derives the 7-byte key of version 7 and 8 archives from a password.
pub fn key7_create(password: &[u8]) -> (r: [u8; 7])
    ensures
        r@ == key7_of(password@),
{
    let mut src = vstd::slice::slice_to_vec(password);
    if src.len() < 4 {
        let d = DEFAULT_PASSWORD;
        crate::util::append_bytes(&mut src, &d);
    }
    let even = take_every_other(&src, 0);
    let odd = take_every_other(&src, 1);
    let c0 = crc32(even.as_slice());
    let c1 = crc32(odd.as_slice());
    let key = [
        (c0 & 0xff) as u8,
        ((c0 >> 8) & 0xff) as u8,
        ((c0 >> 16) & 0xff) as u8,
        ((c0 >> 24) & 0xff) as u8,
        (c1 & 0xff) as u8,
        ((c1 >> 8) & 0xff) as u8,
        ((c1 >> 16) & 0xff) as u8,
    ];
    assert(key@ =~= key7_of(password@));
    key
}

/// The password byte that fills position `i` of a 12-byte key (0xAA for an empty password).
pub open spec fn key12_fill(password: Seq<u8>, i: int) -> u8 {
    if password.len() == 0 {
        0xAA
    } else {
        password[i % password.len() as int]
    }
}

/// Bits of `x` rotated right by `n` (1 to 7).
pub open spec fn rotr(x: u8, n: u8) -> u8 {
    ((x >> n) | (x << (8 - n) as u8)) as u8
}

/// The 12-byte key of archives up to version 6: the password repeated over 12
/// bytes, each byte then transformed by its own rule.
pub open spec fn key12_of(password: Seq<u8>) -> Seq<u8> {
    let k = |i: int| key12_fill(password, i);
    seq![
        !k(0),
        rotr(k(1), 4),
        k(2) ^ 0x8A,
        !rotr(k(3), 4),
        !k(4),
        k(5) ^ 0xAC,
        !k(6),
        !rotr(k(7), 3),
        rotr(k(8), 5),
        k(9) ^ 0x7F,
        rotr(k(10), 4) ^ 0xD6,
        k(11) ^ 0xCC,
    ]
}

fn rot_right(x: u8, n: u8) -> (r: u8)
    requires
        1 <= n <= 7,
    ensures
        r == rotr(x, n),
{
    ((x >> n) | (x << (8 - n))) as u8
}

/// Derives the 12-byte key of archives up to version 6 from a password.
pub fn key12_create(password: &[u8]) -> (r: [u8; 12])
    ensures
        r@ == key12_of(password@),
{
    let mut k: [u8; 12] = [0xAA; 12];
    let n = password.len();
    if n > 0 {
        let mut i: usize = 0;
        while i < 12
            invariant
                n == password@.len(),
                n > 0,
                i <= 12,
                k@.len() == 12,
                forall|j: int| 0 <= j < i ==> #[trigger] k@[j] == key12_fill(password@, j),
            decreases 12 - i,
        {
            k.set(i, password[i % n]);
            i = i + 1;
        }
    } else {
        assert forall|j: int| 0 <= j < 12 implies #[trigger] k@[j] == key12_fill(password@, j) by {
        }
    }
    let key = [
        !k[0],
        rot_right(k[1], 4),
        k[2] ^ 0x8A,
        !rot_right(k[3], 4),
        !k[4],
        k[5] ^ 0xAC,
        !k[6],
        !rot_right(k[7], 3),
        rot_right(k[8], 5),
        k[9] ^ 0x7F,
        rot_right(k[10], 4) ^ 0xD6,
        k[11] ^ 0xCC,
    ];
    assert(key@ =~= key12_of(password@));
    key
}

/// `out` after `n` bytes copied one by one from `dist` bytes back (the run may
/// overlap what it writes).
pub open spec fn lz_copy(out: Seq<u8>, dist: int, n: nat) -> Seq<u8>
    decreases n,
{
    if n == 0 {
        out
    } else {
        lz_copy(out.push(out[out.len() - dist]), dist, (n - 1) as nat)
    }
}

/// One token of the LZ stream `d` at `i` with control byte `key`: the next
/// position and the output after it, or `None` on a truncated or invalid token.
/// A byte other than `key` is a literal; `key` twice is a literal `key`; `key`
/// then a code byte is a back reference whose length (4 and more) and distance
/// width (1 to 3 bytes) the code gives, with one more length byte when bit 2 is set.
pub open spec fn lz_step(d: Seq<u8>, key: u8, i: int, out: Seq<u8>) -> Option<(int, Seq<u8>)> {
    let b = d[i];
    if b != key {
        Some((i + 1, out.push(b)))
    } else if i + 1 >= d.len() {
        None
    } else if d[i + 1] == key {
        Some((i + 2, out.push(key)))
    } else {
        let code: int = if d[i + 1] > key { d[i + 1] - 1 } else { d[i + 1] as int };
        let ext = code % 8 >= 4;
        let j = if ext { i + 3 } else { i + 2 };
        let w = code % 4;
        if ext && i + 2 >= d.len() {
            None
        } else if w == 3 || j + w + 1 > d.len() {
            None
        } else {
            let len = code / 8 + (if ext { 32 * d[i + 2] } else { 0 }) + 4;
            let dist = le_at(d, j, (w + 1) as nat) + 1;
            if dist > out.len() {
                None
            } else {
                Some((j + w + 1, lz_copy(out, dist as int, len as nat)))
            }
        }
    }
}

/// Tokens from `i` on, until the stream ends or `dest` bytes are out.
pub open spec fn lz_run(d: Seq<u8>, key: u8, dest: nat, i: int, out: Seq<u8>) -> Option<Seq<u8>>
    decreases d.len() - i,
{
    if i < 0 || i >= d.len() || out.len() >= dest {
        Some(out)
    } else {
        match lz_step(d, key, i, out) {
            None => None,
            Some(next) => if i < next.0 <= d.len() {
                lz_run(d, key, dest, next.0, next.1)
            } else {
                None
            },
        }
    }
}

/// What a DXLib LZ block decodes to: a header of the output size (u32), the
/// block size counting the 9 header bytes (u32) and the control byte, then the
/// tokens; `None` where the block is short, its size field is under 9, a token
/// is invalid, or the output does not come to the stated size.
pub open spec fn lz_decoded(src: Seq<u8>) -> Option<Seq<u8>> {
    if src.len() < 9 {
        None
    } else {
        let dest = le_at(src, 0, 4);
        let field = le_at(src, 4, 4);
        if field < 9 {
            None
        } else {
            let end = if field < src.len() { field as int } else { src.len() as int };
            match lz_run(src.subrange(9, end), src[8], dest, 0, seq![]) {
                None => None,
                Some(out) => if out.len() == dest { Some(out) } else { None },
            }
        }
    }
}

proof fn lemma_lz_step_advances(d: Seq<u8>, key: u8, i: int, out: Seq<u8>)
    requires
        0 <= i < d.len(),
    ensures
        lz_step(d, key, i, out) matches Some(next) ==> i < next.0 <= d.len(),
{
}

/// Copies `n` bytes from `dist` back, one at a time.
fn copy_back(out: &mut Vec<u8>, dist: usize, n: usize)
    requires
        1 <= dist <= old(out)@.len(),
    ensures
        final(out)@ == lz_copy(old(out)@, dist as int, n as nat),
{
    let ghost target = lz_copy(old(out)@, dist as int, n as nat);
    let mut k: usize = 0;
    while k < n
        invariant
            k <= n,
            1 <= dist <= out@.len(),
            lz_copy(out@, dist as int, (n - k) as nat) == target,
        decreases n - k,
    {
        let b = out[out.len() - dist];
        out.push(b);
        k = k + 1;
    }
}

/// Decodes the token of `d` at `i` onto `out` and gives the next position.
#[verifier::spinoff_prover]
fn lz_token(d: &Vec<u8>, key: u8, i: usize, out: &mut Vec<u8>) -> (r: Result<usize, String>)
    requires
        i < d@.len(),
    ensures
        r is Ok <==> lz_step(d@, key, i as int, old(out)@) is Some,
        r is Ok ==> lz_step(d@, key, i as int, old(out)@) == Some((r.unwrap() as int, final(out)@)),
{
    let n = d.len();
    let b = d[i];
    if b != key {
        out.push(b);
        return Ok(i + 1);
    }
    if i + 1 >= n {
        return Err(name("LZ 数据截断"));
    }
    let b2 = d[i + 1];
    if b2 == key {
        out.push(key);
        return Ok(i + 2);
    }
    let code: usize = if b2 > key { b2 as usize - 1 } else { b2 as usize };
    let ext = code % 8 >= 4;
    if ext && i + 2 >= d.len() {
        return Err(name("LZ 数据截断"));
    }
    let j: usize = if ext { i + 3 } else { i + 2 };
    let w = code % 4;
    if w == 3 {
        return Err(name("LZ 引用宽度非法"));
    }
    if w + 1 > d.len() - j {
        return Err(name("LZ 数据截断"));
    }
    let len: usize = code / 8 + (if ext { 32 * (d[i + 2] as usize) } else { 0 }) + 4;
    let index: usize = if w == 0 {
        d[j] as usize
    } else if w == 1 {
        d[j] as usize + 256 * (d[j + 1] as usize)
    } else {
        d[j] as usize + 256 * (d[j + 1] as usize + 256 * (d[j + 2] as usize))
    };
    proof {
        reveal_with_fuel(le_at, 4);
    }
    assert(index == le_at(d@, j as int, (w + 1) as nat));
    let dist = index + 1;
    if dist > out.len() {
        return Err(fmt_num("LZ 回引越界（", dist as u128, "）"));
    }
    copy_back(out, dist, len);
    Ok(j + w + 1)
}

/// Decodes the tokens of `d` until it ends or `dest` bytes are out.
fn lz_tokens(d: &Vec<u8>, key: u8, dest: usize) -> (r: Result<Vec<u8>, String>)
    ensures
        r is Ok <==> lz_run(d@, key, dest as nat, 0, seq![]) is Some,
        r is Ok ==> lz_run(d@, key, dest as nat, 0, seq![]) == Some(r.unwrap()@),
{
    let mut out: Vec<u8> = Vec::new();
    let mut i: usize = 0;
    while i < d.len() && out.len() < dest
        invariant
            i <= d@.len(),
            lz_run(d@, key, dest as nat, i as int, out@) == lz_run(d@, key, dest as nat, 0, seq![]),
        decreases d@.len() - i,
    {
        proof {
            lemma_lz_step_advances(d@, key, i as int, out@);
        }
        let next = lz_token(d, key, i, &mut out)?;
        i = next;
    }
    Ok(out)
}

/// Decodes a DXLib LZ block (see [`lz_decoded`]).
pub fn lz_decode(src: &[u8]) -> (r: Result<Vec<u8>, String>)
    ensures
        r is Ok <==> lz_decoded(src@) is Some,
        r is Ok ==> r.unwrap()@ == lz_decoded(src@).unwrap(),
{
    if src.len() < 9 {
        return Err(name("LZ 数据过短"));
    }
    proof {
        reveal_with_fuel(le_at, 5);
    }
    let dest_size: u32 = src[0] as u32 + 256 * (src[1] as u32 + 256 * (src[2] as u32 + 256 * (src[3] as u32)));
    let field: u32 = src[4] as u32 + 256 * (src[5] as u32 + 256 * (src[6] as u32 + 256 * (src[7] as u32)));
    assert(dest_size == le_at(src@, 0, 4));
    assert(field == le_at(src@, 4, 4));
    if field < 9 {
        return Err(name("LZ 压缩大小异常"));
    }
    let end: usize = if (field as usize) < src.len() { field as usize } else { src.len() };
    let data = crate::util::copy_range(src, 9, end);
    let out = lz_tokens(&data, src[8], dest_size as usize)?;
    if out.len() != dest_size as usize {
        return Err(fmt_num("LZ 解压大小不符（得 ", out.len() as u128, "）"));
    }
    Ok(out)
}

// ---------------- Huffman ----------------

/// Bit `k` of `s`, the most significant bit of each byte first.
pub open spec fn bit_msb(s: Seq<u8>, k: int) -> u8 {
    (s[k / 8] >> ((7 - k % 8) as u8)) & 1u8
}

/// Bit `k` of `s`, the least significant bit of each byte first.
pub open spec fn bit_lsb(s: Seq<u8>, k: int) -> u8 {
    (s[k / 8] >> ((k % 8) as u8)) & 1u8
}

/// The `n` bits of `s` from bit `p` (most significant first) as a number.
pub open spec fn msb_val(s: Seq<u8>, p: int, n: nat) -> nat
    decreases n,
{
    if n == 0 {
        0
    } else {
        2 * msb_val(s, p, (n - 1) as nat) + bit_msb(s, p + n - 1) as nat
    }
}

proof fn lemma_bit01(x: u8, k: u8)
    by (bit_vector)
    ensures
        (x >> k) & 1u8 <= 1,
{
}

proof fn lemma_msb_val_bound(s: Seq<u8>, p: int, n: nat)
    ensures
        msb_val(s, p, n) < vstd::arithmetic::power2::pow2(n),
    decreases n,
{
    vstd::arithmetic::power2::lemma_pow2_pos(n);
    if n > 0 {
        lemma_msb_val_bound(s, p, (n - 1) as nat);
        vstd::arithmetic::power2::lemma_pow2_unfold(n);
        lemma_bit01(s[(p + n - 1) / 8], (7 - (p + n - 1) % 8) as u8);
    }
}

/// Reads `n` bits, most significant first, at bit position `8 * byte + bit`.
fn read_msb(s: &[u8], byte: &mut usize, bit: &mut u8, n: u32) -> (r: Result<u64, String>)
    requires
        n <= 64,
        *old(bit) < 8,
        8 * *old(byte) + *old(bit) <= 8 * s@.len(),
    ensures
        *final(bit) < 8,
        8 * *final(byte) + *final(bit) <= 8 * s@.len(),
        r is Ok <==> 8 * *old(byte) + *old(bit) + n <= 8 * s@.len(),
        r is Ok ==> r.unwrap() == msb_val(s@, 8 * *old(byte) + *old(bit), n as nat),
        r is Ok ==> 8 * *final(byte) + *final(bit) == 8 * *old(byte) + *old(bit) + n,
{
    let ghost p = 8 * *byte + *bit;
    let mut v: u64 = 0;
    let mut i: u32 = 0;
    proof {
        vstd::arithmetic::power2::lemma2_to64();
    }
    while i < n
        invariant
            n <= 64,
            i <= n,
            *bit < 8,
            p == 8 * *old(byte) + *old(bit),
            8 * *byte + *bit == p + i,
            p + i <= 8 * s@.len(),
            v == msb_val(s@, p, i as nat),
            v < vstd::arithmetic::power2::pow2(i as nat),
            vstd::arithmetic::power2::pow2(64) == 0x1_0000_0000_0000_0000,
        decreases n - i,
    {
        if *byte >= s.len() {
            return Err(name("哈夫曼位流越界"));
        }
        let b = (s[*byte] >> (7 - *bit)) & 1;
        assert(b == bit_msb(s@, p + i));
        proof {
            lemma_bit01(s@[*byte as int], (7 - *bit) as u8);
        }
        proof {
            vstd::arithmetic::power2::lemma_pow2_unfold((i + 1) as nat);
            if i + 1 < 64 {
                vstd::arithmetic::power2::lemma_pow2_strictly_increases((i + 1) as nat, 64);
            }
        }
        v = v * 2 + b as u64;
        *bit = *bit + 1;
        if *bit == 8 {
            *bit = 0;
            *byte = *byte + 1;
        }
        i = i + 1;
    }
    Ok(v)
}

/// One entry of a Huffman weight table at bit `p`, after the weight `prev`: a
/// width code (3 bits; width 2 to 16), a sign bit and the difference from `prev`,
/// wrapping at 16 bits.  The weight and the position after the entry.
pub open spec fn huff_weight_at(s: Seq<u8>, p: int, prev: int) -> Option<(int, int)> {
    if p + 4 > 8 * s.len() {
        None
    } else {
        let nb = (msb_val(s, p, 3) + 1) * 2;
        if p + 4 + nb > 8 * s.len() {
            None
        } else {
            let minus = msb_val(s, p + 3, 1) == 1;
            let delta = msb_val(s, p + 4, nb as nat);
            let w = if minus { (prev - delta) % 65536 } else { (prev + delta) % 65536 };
            Some((w, p + 4 + nb))
        }
    }
}

/// The 256 symbol weights of a Huffman header from bit `p` (each entry relative
/// to the one before, the first to 0), with the position after them.
pub open spec fn huff_weights(s: Seq<u8>, p: int, ws: Seq<int>) -> Option<(Seq<int>, int)>
    decreases 256 - ws.len(),
{
    if ws.len() >= 256 {
        Some((ws, p))
    } else {
        match huff_weight_at(s, p, if ws.len() == 0 { 0 } else { ws.last() }) {
            None => None,
            Some(e) => huff_weights(s, e.1, ws.push(e.0)),
        }
    }
}

/// Reads one weight entry (see [`huff_weight_at`]).
fn read_weight(s: &[u8], byte: &mut usize, bit: &mut u8, prev: u64) -> (r: Result<u64, String>)
    requires
        prev < 65536,
        *old(bit) < 8,
        8 * *old(byte) + *old(bit) <= 8 * s@.len(),
    ensures
        *final(bit) < 8,
        8 * *final(byte) + *final(bit) <= 8 * s@.len(),
        r is Ok <==> huff_weight_at(s@, 8 * *old(byte) + *old(bit), prev as int) is Some,
        r is Ok ==> huff_weight_at(s@, 8 * *old(byte) + *old(bit), prev as int)
            == Some((r.unwrap() as int, 8 * *final(byte) + *final(bit))),
        r is Ok ==> r.unwrap() < 65536,
{
    let ghost p = 8 * *byte + *bit;
    let code = read_msb(s, byte, bit, 3)?;
    let minus = read_msb(s, byte, bit, 1)?;
    proof {
        lemma_msb_val_bound(s@, p, 3);
        lemma_msb_val_bound(s@, p + 3, 1);
        vstd::arithmetic::power2::lemma2_to64();
    }
    let nb = (code as u32 + 1) * 2;
    let delta = read_msb(s, byte, bit, nb)?;
    proof {
        lemma_msb_val_bound(s@, p + 4, nb as nat);
        if nb < 16 {
            vstd::arithmetic::power2::lemma_pow2_strictly_increases(nb as nat, 16);
        }
    }
    let w: u64 = if minus == 1 {
        if prev >= delta { prev - delta } else { prev + 65536 - delta }
    } else {
        if prev + delta >= 65536 { prev + delta - 65536 } else { prev + delta }
    };
    Ok(w)
}

/// Reads the weight table (see [`huff_weights`]).
fn read_weights(s: &[u8], byte: &mut usize, bit: &mut u8) -> (r: Result<Vec<u64>, String>)
    requires
        *old(bit) < 8,
        8 * *old(byte) + *old(bit) <= 8 * s@.len(),
    ensures
        *final(bit) < 8,
        8 * *final(byte) + *final(bit) <= 8 * s@.len(),
        r is Ok <==> huff_weights(s@, 8 * *old(byte) + *old(bit), seq![]) is Some,
        r is Ok ==> r.unwrap()@.len() == 256,
        r is Ok ==> forall|k: int| 0 <= k < 256 ==> #[trigger] r.unwrap()@[k] < 65536,
        r is Ok ==> huff_weights(s@, 8 * *old(byte) + *old(bit), seq![]) == Some((
            Seq::new(256, |k: int| r.unwrap()@[k] as int),
            8 * *final(byte) + *final(bit),
        )),
{
    let ghost p0 = 8 * *byte + *bit;
    let mut ws: Vec<u64> = Vec::new();
    let ghost mut gw: Seq<int> = seq![];
    let mut i: usize = 0;
    while i < 256
        invariant
            p0 == 8 * *old(byte) + *old(bit),
            i <= 256,
            ws@.len() == i,
            gw.len() == i,
            *bit < 8,
            8 * *byte + *bit <= 8 * s@.len(),
            forall|k: int| 0 <= k < i ==> #[trigger] ws@[k] < 65536 && gw[k] == ws@[k] as int,
            huff_weights(s@, p0, seq![]) == huff_weights(s@, 8 * *byte + *bit, gw),
        decreases 256 - i,
    {
        let prev: u64 = if i == 0 { 0 } else { ws[i - 1] };
        assert(prev as int == if gw.len() == 0 { 0 } else { gw.last() });
        let w = read_weight(s, byte, bit, prev)?;
        ws.push(w);
        proof {
            gw = gw.push(w as int);
        }
        i = i + 1;
    }
    assert(gw =~= Seq::new(256, |k: int| ws@[k] as int));
    Ok(ws)
}

/// A Huffman tree under construction: the weight of each node (the 256
/// symbols first), which nodes have no parent yet, and the two children of each
/// node made so far (entry `k` for node `256 + k`).
#[verifier::ext_equal]
pub struct HuffTree {
    pub w: Seq<int>,
    pub free: Seq<bool>,
    pub kids: Seq<(int, int)>,
}

/// `a` is, among the nodes without a parent other than `ex`, the first of least weight.
pub open spec fn is_min(w: Seq<int>, free: Seq<bool>, ex: int, a: int) -> bool {
    &&& 0 <= a < w.len()
    &&& a != ex
    &&& free[a]
    &&& forall|j: int| 0 <= j < w.len() && j != ex && free[j] ==> w[a] <= w[j]
    &&& forall|j: int| 0 <= j < a && j != ex && free[j] ==> w[j] > w[a]
}

/// One step of the construction: the two lightest parentless nodes (the first
/// found on a tie) become the children of a new node of their summed weight.
pub open spec fn huff_merge(t: HuffTree) -> Option<HuffTree> {
    if !(exists|a: int| #[trigger] is_min(t.w, t.free, -1, a)) {
        None
    } else {
        let a = choose|a: int| #[trigger] is_min(t.w, t.free, -1, a);
        if !(exists|b: int| #[trigger] is_min(t.w, t.free, a, b)) {
            None
        } else {
            let b = choose|b: int| #[trigger] is_min(t.w, t.free, a, b);
            Some(HuffTree {
                w: t.w.push(t.w[a] + t.w[b]),
                free: t.free.update(a, false).update(b, false).push(true),
                kids: t.kids.push((a, b)),
            })
        }
    }
}

/// `k` construction steps.
pub open spec fn huff_build(t: HuffTree, k: nat) -> Option<HuffTree>
    decreases k,
{
    if k == 0 {
        Some(t)
    } else {
        match huff_merge(t) {
            None => None,
            Some(t2) => huff_build(t2, (k - 1) as nat),
        }
    }
}

/// The 256 symbols with their weights, none merged yet.
pub open spec fn huff_leaves(ws: Seq<int>) -> HuffTree {
    HuffTree { w: ws, free: Seq::new(256, |i: int| true), kids: seq![] }
}

/// Sum of the weights of the parentless nodes among the first `n`.
pub open spec fn free_sum(w: Seq<int>, free: Seq<bool>, n: int) -> int
    decreases n,
{
    if n <= 0 {
        0
    } else {
        free_sum(w, free, n - 1) + if free[n - 1] { w[n - 1] } else { 0 }
    }
}

proof fn lemma_is_min_unique(w: Seq<int>, free: Seq<bool>, ex: int, a: int, b: int)
    requires
        is_min(w, free, ex, a),
        is_min(w, free, ex, b),
    ensures
        a == b,
{
}

proof fn lemma_free_sum_agree(w1: Seq<int>, f1: Seq<bool>, w2: Seq<int>, f2: Seq<bool>, n: int)
    requires
        forall|k: int| 0 <= k < n ==> w1[k] == w2[k] && f1[k] == f2[k],
    ensures
        free_sum(w1, f1, n) == free_sum(w2, f2, n),
    decreases n,
{
    if n > 0 {
        lemma_free_sum_agree(w1, f1, w2, f2, n - 1);
    }
}

proof fn lemma_free_sum_one(w: Seq<int>, free: Seq<bool>, n: int, a: int)
    requires
        0 <= a < n,
        free[a],
        forall|k: int| 0 <= k < n ==> w[k] >= 0,
    ensures
        w[a] <= free_sum(w, free, n),
        free_sum(w, free, n) >= 0,
    decreases n,
{
    if n - 1 > a {
        lemma_free_sum_one(w, free, n - 1, a);
    } else {
        lemma_free_sum_nonneg(w, free, n - 1);
    }
}

proof fn lemma_free_sum_nonneg(w: Seq<int>, free: Seq<bool>, n: int)
    requires
        forall|k: int| 0 <= k < n ==> w[k] >= 0,
    ensures
        free_sum(w, free, n) >= 0,
    decreases n,
{
    if n > 0 {
        lemma_free_sum_nonneg(w, free, n - 1);
    }
}

proof fn lemma_free_sum_pair(w: Seq<int>, free: Seq<bool>, n: int, a: int, b: int)
    requires
        0 <= a < n,
        0 <= b < n,
        a != b,
        free[a],
        free[b],
        forall|k: int| 0 <= k < n ==> w[k] >= 0,
    ensures
        w[a] + w[b] <= free_sum(w, free, n),
    decreases n,
{
    if n - 1 == a {
        lemma_free_sum_one(w, free, n - 1, b);
    } else if n - 1 == b {
        lemma_free_sum_one(w, free, n - 1, a);
    } else {
        lemma_free_sum_pair(w, free, n - 1, a, b);
        lemma_free_sum_nonneg(w, free, n - 1);
    }
}

proof fn lemma_free_sum_clear(w: Seq<int>, free: Seq<bool>, n: int, a: int)
    requires
        0 <= a < n <= free.len(),
        free[a],
    ensures
        free_sum(w, free.update(a, false), n) == free_sum(w, free, n) - w[a],
    decreases n,
{
    if n - 1 == a {
        lemma_free_sum_agree(w, free.update(a, false), w, free, n - 1);
    } else {
        lemma_free_sum_clear(w, free, n - 1, a);
    }
}

/// Weights as integers.
pub open spec fn wints(w: Seq<u64>) -> Seq<int> {
    Seq::new(w.len(), |k: int| w[k] as int)
}

/// The tree held by the three vectors of the decoder.
pub open spec fn tree_of(w: Seq<u64>, free: Seq<bool>, kids: Seq<(usize, usize)>) -> HuffTree {
    HuffTree {
        w: wints(w),
        free: free,
        kids: Seq::new(kids.len(), |k: int| (kids[k].0 as int, kids[k].1 as int)),
    }
}

/// The node to leave out of a search, or -1 for none.
pub open spec fn ex_int(ex: Option<usize>) -> int {
    match ex {
        Some(x) => x as int,
        None => -1,
    }
}

/// The first parentless node of least weight other than `ex`, if any.
fn pick_min(w: &Vec<u64>, free: &Vec<bool>, ex: Option<usize>) -> (r: Option<usize>)
    requires
        w@.len() == free@.len(),
    ensures
        r is Some ==> is_min(wints(w@), free@, ex_int(ex), r.unwrap() as int),
        r is None ==> !(exists|a: int| #[trigger] is_min(wints(w@), free@, ex_int(ex), a)),
{
    let ghost t = tree_of(w@, free@, seq![]);
    let ghost e = ex_int(ex);
    let n = w.len();
    assert(t.w == wints(w@) && t.free == free@);
    let mut best: Option<usize> = None;
    let mut j: usize = 0;
    while j < n
        invariant
            n == w@.len() == free@.len() == t.w.len(),
            t == tree_of(w@, free@, seq![]),
            e == ex_int(ex),
            j <= n,
            best is None ==> forall|k: int| 0 <= k < j ==> !(k != e && free@[k]),
            best is Some ==> ({
                let b = best.unwrap() as int;
                &&& b < j
                &&& b != e
                &&& free@[b]
                &&& forall|k: int| 0 <= k < j && k != e && free@[k] ==> t.w[b] <= t.w[k]
                &&& forall|k: int| 0 <= k < b && k != e && free@[k] ==> t.w[k] > t.w[b]
            }),
        decreases n - j,
    {
        let cand = free[j] && match ex { Some(x) => x != j, None => true };
        if cand {
            match best {
                None => {
                    best = Some(j);
                },
                Some(b) => {
                    if w[b] > w[j] {
                        best = Some(j);
                    }
                },
            }
        }
        j = j + 1;
    }
    proof {
        if best is None {
            assert forall|a: int| !is_min(t.w, t.free, e, a) by {
                if 0 <= a < n {
                    assert(!(a != e && free@[a]));
                }
            }
        }
    }
    best
}

/// Builds the tree over the 256 symbol weights and gives the children of the
/// 255 inner nodes.
fn build_tree(ws: &Vec<u64>) -> (r: Result<Vec<(usize, usize)>, String>)
    requires
        ws@.len() == 256,
        forall|k: int| 0 <= k < 256 ==> #[trigger] ws@[k] < 65536,
    ensures
        ({
            let built = huff_build(huff_leaves(Seq::new(256, |k: int| ws@[k] as int)), 255);
            &&& r is Ok <==> built is Some
            &&& r is Ok ==> built.unwrap().kids == tree_of(seq![], seq![], r.unwrap()@).kids
            &&& r is Ok ==> r.unwrap()@.len() == 255
            &&& r is Ok ==> forall|k: int| 0 <= k < 255 ==> (#[trigger] r.unwrap()@[k]).0 < 256 + k
                && r.unwrap()@[k].1 < 256 + k
        }),
{
    let ghost leaves = huff_leaves(Seq::new(256, |k: int| ws@[k] as int));
    let mut w: Vec<u64> = Vec::new();
    let mut free: Vec<bool> = Vec::new();
    let mut i: usize = 0;
    while i < 256
        invariant
            i <= 256,
            ws@.len() == 256,
            w@.len() == i,
            free@.len() == i,
            forall|k: int| 0 <= k < i ==> #[trigger] w@[k] == ws@[k],
            forall|k: int| 0 <= k < i ==> #[trigger] free@[k],
        decreases 256 - i,
    {
        w.push(ws[i]);
        free.push(true);
        i = i + 1;
    }
    let mut kids: Vec<(usize, usize)> = Vec::new();
    proof {
        assert(free@ =~= Seq::new(256, |i: int| true));
        assert(tree_of(w@, free@, kids@).w =~= leaves.w);
        assert(tree_of(w@, free@, kids@).kids =~= leaves.kids);
        assert(tree_of(w@, free@, kids@) =~= leaves);
        let t = tree_of(w@, free@, kids@);
        assert forall|m: int| 0 <= m <= 256 implies free_sum(t.w, t.free, m) <= m * 65535 by {
            lemma_leaf_sum(t.w, t.free, m);
        }
    }
    let mut k: usize = 0;
    while k < 255
        invariant
            leaves == huff_leaves(Seq::new(256, |j: int| ws@[j] as int)),
            k <= 255,
            w@.len() == 256 + k,
            free@.len() == 256 + k,
            kids@.len() == k,
            forall|m: int| 0 <= m < k ==> (#[trigger] kids@[m]).0 < 256 + m && kids@[m].1 < 256 + m,
            free_sum(tree_of(w@, free@, kids@).w, free@, 256 + k) <= 256 * 65535,
            huff_build(leaves, 255) == huff_build(tree_of(w@, free@, kids@), (255 - k) as nat),
        decreases 255 - k,
    {
        let ghost t = tree_of(w@, free@, kids@);
        assert(t.w == wints(w@) && t.free == free@);
        let a = match pick_min(&w, &free, None) {
            Some(x) => x,
            None => {
                assert(!(exists|c: int| #[trigger] is_min(wints(w@), free@, ex_int(None), c)));
                assert(ex_int(None) == -1);
                assert(!(exists|c: int| #[trigger] is_min(wints(w@), free@, -1, c)));
                assert(!(exists|c: int| #[trigger] is_min(t.w, t.free, -1, c)));
                assert(huff_merge(t) is None);
                assert(huff_build(t, (255 - k) as nat) is None);
                return Err(name("哈夫曼建树失败"));
            },
        };
        let b = match pick_min(&w, &free, Some(a)) {
            Some(x) => x,
            None => {
                proof {
                    assert(is_min(wints(w@), free@, ex_int(None), a as int));
                    assert(is_min(t.w, t.free, -1, a as int));
                    let ca = choose|c: int| #[trigger] is_min(t.w, t.free, -1, c);
                    lemma_is_min_unique(t.w, t.free, -1, a as int, ca);
                    assert(!(exists|c: int| #[trigger] is_min(wints(w@), free@, ex_int(Some(a)), c)));
                    assert(ex_int(Some(a)) == a as int);
                    assert(!(exists|c: int| #[trigger] is_min(t.w, t.free, a as int, c)));
                }
                assert(huff_merge(t) is None);
                assert(huff_build(t, (255 - k) as nat) is None);
                return Err(name("哈夫曼建树失败"));
            },
        };
        proof {
            assert(is_min(wints(w@), free@, ex_int(None), a as int));
            assert(is_min(wints(w@), free@, ex_int(Some(a)), b as int));
            let ca = choose|c: int| #[trigger] is_min(t.w, t.free, -1, c);
            lemma_is_min_unique(t.w, t.free, -1, a as int, ca);
            let cb = choose|c: int| #[trigger] is_min(t.w, t.free, a as int, c);
            lemma_is_min_unique(t.w, t.free, a as int, b as int, cb);
            lemma_free_sum_pair(t.w, t.free, 256 + k, a as int, b as int);
        }
        let n = w.len();
        let sum = w[a] + w[b];
        w.push(sum);
        free.set(a, false);
        free.set(b, false);
        free.push(true);
        kids.push((a, b));
        proof {
            let t2 = tree_of(w@, free@, kids@);
            assert(huff_merge(t) == Some(t2)) by {
                assert(t2 =~= HuffTree {
                    w: t.w.push(t.w[a as int] + t.w[b as int]),
                    free: t.free.update(a as int, false).update(b as int, false).push(true),
                    kids: t.kids.push((a as int, b as int)),
                });
            }
            let f1 = t.free.update(a as int, false);
            let f2 = f1.update(b as int, false);
            lemma_free_sum_clear(t.w, t.free, n as int, a as int);
            lemma_free_sum_clear(t.w, f1, n as int, b as int);
            lemma_free_sum_agree(t2.w, t2.free, t.w, f2, n as int);
        }
        k = k + 1;
    }
    proof {
        let t = tree_of(w@, free@, kids@);
        assert(t.kids == tree_of(seq![], seq![], kids@).kids);
    }
    Ok(kids)
}

proof fn lemma_leaf_sum(w: Seq<int>, free: Seq<bool>, m: int)
    requires
        0 <= m <= w.len(),
        forall|k: int| 0 <= k < m ==> 0 <= #[trigger] w[k] < 65536,
    ensures
        free_sum(w, free, m) <= m * 65535,
    decreases m,
{
    if m > 0 {
        lemma_leaf_sum(w, free, m - 1);
    }
}

/// Decoding from bit `pos` of `body` (least significant bit of each byte first)
/// at `node`: each bit picks a child; a symbol is written at a leaf and the
/// walk starts again at the root (node 510); it stops once `size` bytes are out.
pub open spec fn huff_walk(
    kids: Seq<(int, int)>,
    body: Seq<u8>,
    size: nat,
    pos: int,
    node: int,
    out: Seq<u8>,
) -> Option<Seq<u8>>
    decreases 8 * body.len() - pos,
{
    if out.len() >= size {
        Some(out)
    } else if pos < 0 || pos >= 8 * body.len() {
        None
    } else {
        let kid = kids[node - 256];
        let next = if bit_lsb(body, pos) == 0 { kid.0 } else { kid.1 };
        if next < 256 {
            huff_walk(kids, body, size, pos + 1, 510, out.push(next as u8))
        } else {
            huff_walk(kids, body, size, pos + 1, next, out)
        }
    }
}

/// Walks the tree over the code bits of `body` until `size` symbols are out.
fn walk_codes(kids: &Vec<(usize, usize)>, body: &[u8], size: usize) -> (r: Result<Vec<u8>, String>)
    requires
        kids@.len() == 255,
        forall|k: int| 0 <= k < 255 ==> (#[trigger] kids@[k]).0 < 256 + k && kids@[k].1 < 256 + k,
    ensures
        ({
            let kv = tree_of(seq![], seq![], kids@).kids;
            &&& r is Ok <==> huff_walk(kv, body@, size as nat, 0, 510, seq![]) is Some
            &&& r is Ok ==> huff_walk(kv, body@, size as nat, 0, 510, seq![]) == Some(r.unwrap()@)
        }),
{
    let ghost kv = tree_of(seq![], seq![], kids@).kids;
    let mut out: Vec<u8> = Vec::new();
    let mut byte: usize = 0;
    let mut bit: u8 = 0;
    let mut node: usize = 510;
    while out.len() < size
        invariant
            kv == tree_of(seq![], seq![], kids@).kids,
            kids@.len() == 255,
            forall|k: int| 0 <= k < 255 ==> (#[trigger] kids@[k]).0 < 256 + k && kids@[k].1 < 256 + k,
            256 <= node <= 510,
            bit < 8,
            byte <= body@.len(),
            byte == body@.len() ==> bit == 0,
            huff_walk(kv, body@, size as nat, 0, 510, seq![])
                == huff_walk(kv, body@, size as nat, 8 * byte + bit, node as int, out@),
        decreases 8 * body@.len() - (8 * byte + bit),
    {
        if byte >= body.len() {
            return Err(name("哈夫曼编码流越界"));
        }
        let b = (body[byte] >> bit) & 1;
        assert(b == bit_lsb(body@, 8 * byte + bit));
        let kid = kids[node - 256];
        let next = if b == 0 { kid.0 } else { kid.1 };
        bit = bit + 1;
        if bit == 8 {
            bit = 0;
            byte = byte + 1;
        }
        if next < 256 {
            out.push(next as u8);
            node = 510;
        } else {
            node = next;
        }
    }
    Ok(out)
}

/// What DXLib's Huffman decoder gives for `s`: a header (most significant bit
/// first) of the output size (6-bit width code, then the size), the packed size
/// (likewise, unused) and the weight table; then the codes, each byte from its
/// least significant bit.  `None` where a read runs past the end, the output
/// size is over 512 MiB, or the tree cannot be built.
pub open spec fn huffman_decoded(s: Seq<u8>) -> Option<Seq<u8>> {
    let total = 8 * s.len();
    if total < 6 {
        None
    } else {
        let ob = msb_val(s, 0, 6) + 1;
        let size = msb_val(s, 6, ob as nat);
        let p = 6 + ob as int;
        if p > total || p + 6 > total {
            None
        } else {
            let pb = msb_val(s, p, 6) + 1;
            if p + 6 + pb > total || size > 0x2000_0000 {
                None
            } else {
                match huff_weights(s, p + 6 + pb, seq![]) {
                    None => None,
                    Some(h) => if size == 0 {
                        Some(seq![])
                    } else {
                        match huff_build(huff_leaves(h.0), 255) {
                            None => None,
                            Some(t) => huff_walk(
                                t.kids,
                                s.subrange((h.1 + 7) / 8, s.len() as int),
                                size,
                                0,
                                510,
                                seq![],
                            ),
                        }
                    },
                }
            }
        }
    }
}

/// DXLib's Huffman decoder (see [`huffman_decoded`]).
pub fn huffman_decode(src: &[u8]) -> (r: Result<Vec<u8>, String>)
    ensures
        r is Ok <==> huffman_decoded(src@) is Some,
        r is Ok ==> r.unwrap()@ == huffman_decoded(src@).unwrap(),
{
    let mut byte: usize = 0;
    let mut bit: u8 = 0;
    let obits = read_msb(src, &mut byte, &mut bit, 6)?;
    proof {
        lemma_msb_val_bound(src@, 0, 6);
        vstd::arithmetic::power2::lemma2_to64();
    }
    let orig_size = read_msb(src, &mut byte, &mut bit, obits as u32 + 1)?;
    let pbits = read_msb(src, &mut byte, &mut bit, 6)?;
    proof {
        lemma_msb_val_bound(src@, 7 + obits, 6);
    }
    let _packed = read_msb(src, &mut byte, &mut bit, pbits as u32 + 1)?;
    if orig_size > 0x2000_0000 {
        return Err(fmt_num("哈夫曼解压后大小异常（", orig_size as u128, "）"));
    }
    let weights = read_weights(src, &mut byte, &mut bit)?;
    let n = src.len();
    assert(bit != 0 ==> byte < n);
    let head: usize = if bit == 0 { byte } else { byte + 1 };
    if orig_size == 0 {
        return Ok(Vec::new());
    }
    let kids = build_tree(&weights)?;
    let body = crate::util::copy_range(src, head, src.len());
    walk_codes(&kids, body.as_slice(), orig_size as usize)
}

} // verus!
