//! The `.ico` container of the application icon: seven sizes from 16 to 256
//! pixels, each a 32-bit bottom-up BGRA bitmap with an all-zero AND mask.
//! The pictures themselves are drawn elsewhere and handed in as RGBA rows.
use vstd::prelude::*;
use crate::wolf::node::{le16, le32, put_u16, put_u32};

verus! {

/// The icon sizes, in the order they are written.
pub const ICON_SIZES: [u32; 7] = [16, 24, 32, 48, 64, 128, 256];

/// Bytes of one bitmap of size `s`: the 40-byte header, the pixels, the AND mask.
pub open spec fn blob_size(s: nat) -> nat {
    40 + s * s * 4 + ((s + 31) / 32) * 4 * s
}

/// `n` zero bytes.
pub open spec fn zeros(n: nat) -> Seq<u8> {
    Seq::new(n, |i: int| 0u8)
}

/// Row `row` of an RGBA picture of width `s`, as BGRA.
pub open spec fn bgra_row(rgba: Seq<u8>, s: nat, row: int) -> Seq<u8> {
    Seq::new(
        4 * s,
        |k: int| {
            let i = (row * s + k / 4) * 4;
            if k % 4 == 0 {
                rgba[i + 2]
            } else if k % 4 == 1 {
                rgba[i + 1]
            } else if k % 4 == 2 {
                rgba[i]
            } else {
                rgba[i + 3]
            }
        },
    )
}

/// The bottom `n` rows, bottom first.
pub open spec fn bgra_rows(rgba: Seq<u8>, s: nat, n: nat) -> Seq<u8>
    decreases n,
{
    if n == 0 {
        seq![]
    } else {
        bgra_rows(rgba, s, (n - 1) as nat) + bgra_row(rgba, s, s - n)
    }
}

/// The bitmap of one size: header (size 40, width, twice the height, one
/// plane, 32 bits, 24 zero bytes), the rows bottom-up, then the mask.
pub open spec fn blob_bytes(s: u32, rgba: Seq<u8>) -> Seq<u8> {
    le32(40) + le32(s) + le32((2 * s) as u32) + le16(1) + le16(32) + zeros(24) + bgra_rows(
        rgba,
        s as nat,
        s as nat,
    ) + zeros((((s + 31) / 32) * 4 * s) as nat)
}

/// The directory entry of one size whose bitmap starts at `off`.
pub open spec fn dir_entry(s: u32, off: u32) -> Seq<u8> {
    let wh: u8 = if s >= 256 { 0 } else { s as u8 };
    seq![wh, wh, 0u8, 0u8] + le16(1) + le16(32) + le32(blob_size(s as nat) as u32) + le32(off)
}

/// Offset of the bitmap of size number `k` (after the header and the seven entries).
pub open spec fn blob_offset(k: int) -> nat
    decreases k,
{
    if k <= 0 {
        6 + 16 * 7
    } else {
        blob_offset(k - 1) + blob_size(ICON_SIZES@[k - 1] as nat)
    }
}

/// The first `k` directory entries.
pub open spec fn dir_entries(k: int) -> Seq<u8>
    decreases k,
{
    if k <= 0 {
        seq![]
    } else {
        dir_entries(k - 1) + dir_entry(ICON_SIZES@[k - 1], blob_offset(k - 1) as u32)
    }
}

/// The first `k` bitmaps.
pub open spec fn blobs(images: Seq<Vec<u8>>, k: int) -> Seq<u8>
    decreases k,
{
    if k <= 0 {
        seq![]
    } else {
        blobs(images, k - 1) + blob_bytes(ICON_SIZES@[k - 1], images[k - 1]@)
    }
}

/// The whole file: reserved 0, type 1 (icon), seven entries, then the bitmaps.
pub open spec fn ico_file(images: Seq<Vec<u8>>) -> Seq<u8> {
    le16(0) + le16(1) + le16(7) + dir_entries(7) + blobs(images, 7)
}

/// Size in bytes of the bitmap of an `s` by `s` picture.
pub fn blob_len(s: u32) -> (r: u32)
    requires
        s <= 256,
    ensures
        r == blob_size(s as nat),
{
    proof {
        assert(s * s <= 65536) by (nonlinear_arith)
            requires s <= 256;
        assert(((s + 31) / 32) * 4 * s <= 9 * 4 * 256) by (nonlinear_arith)
            requires s <= 256;
    }
    40 + s * s * 4 + ((s + 31) / 32) * 4 * s
}

proof fn lemma_blob_offsets()
    ensures
        forall|k: int| 0 <= k <= 7 ==> #[trigger] blob_offset(k) <= 6 + 16 * 7 + 7 * blob_size(256),
{
    reveal_with_fuel(blob_offset, 8);
    assert(blob_size(16) == 40 + 1024 + 64);
    assert(blob_size(24) == 40 + 2304 + 96);
    assert(blob_size(32) == 40 + 4096 + 128);
    assert(blob_size(48) == 40 + 9216 + 384);
    assert(blob_size(64) == 40 + 16384 + 512);
    assert(blob_size(128) == 40 + 65536 + 2048);
    assert(blob_size(256) == 40 + 262144 + 8192);
}

/// Writes the bitmap of one size.
pub fn blob(s: u32, rgba: &Vec<u8>) -> (r: Vec<u8>)
    requires
        1 <= s <= 256,
        rgba@.len() == 4 * s * s,
    ensures
        r@ == blob_bytes(s, rgba@),
{
    let mut img: Vec<u8> = Vec::new();
    put_u32(&mut img, 40);
    put_u32(&mut img, s);
    put_u32(&mut img, s * 2);
    put_u16(&mut img, 1);
    put_u16(&mut img, 32);
    let ghost head = img@;
    let mut z: usize = 0;
    while z < 24
        invariant
            z <= 24,
            img@ == head + zeros(z as nat),
        decreases 24 - z,
    {
        img.push(0);
        z = z + 1;
        assert(img@ =~= head + zeros(z as nat));
    }
    let ghost pre = img@;
    let mut n: u32 = 0;
    while n < s
        invariant
            n <= s <= 256,
            rgba@.len() == 4 * s * s,
            img@ == pre + bgra_rows(rgba@, s as nat, n as nat),
        decreases s - n,
    {
        let row = s - 1 - n;
        let ghost before = img@;
        let mut col: u32 = 0;
        while col < s
            invariant
                col <= s <= 256,
                row < s,
                rgba@.len() == 4 * s * s,
                img@ == before + bgra_row(rgba@, s as nat, row as int).subrange(0, 4 * col as int),
            decreases s - col,
        {
            proof {
                assert((row * s + col) * 4 + 3 < 4 * s * s) by (nonlinear_arith)
                    requires row < s, col < s;
                assert(4 * s * s <= 262144) by (nonlinear_arith)
                    requires s <= 256;
                assert(row * s <= 65536) by (nonlinear_arith)
                    requires row < s, s <= 256;
            }
            let i = ((row * s + col) * 4) as usize;
            img.push(rgba[i + 2]);
            img.push(rgba[i + 1]);
            img.push(rgba[i]);
            img.push(rgba[i + 3]);
            proof {
                let r = bgra_row(rgba@, s as nat, row as int);
                assert forall|k: int| 4 * col <= k < 4 * col + 4 implies #[trigger] r[k] == img@[before.len() + k] by {
                    assert(k / 4 == col);
                }
                assert(img@ =~= before + r.subrange(0, 4 * (col + 1)));
            }
            col = col + 1;
        }
        proof {
            assert(bgra_row(rgba@, s as nat, row as int).subrange(0, 4 * s as int) =~= bgra_row(rgba@, s as nat, row as int));
            assert(row == s - (n + 1));
        }
        n = n + 1;
    }
    let ghost mid = img@;
    proof {
        assert(((s + 31) / 32) * 4 * s <= 9 * 4 * 256) by (nonlinear_arith)
            requires s <= 256;
    }
    let mask: usize = (((s + 31) / 32) * 4 * s) as usize;
    let mut m: usize = 0;
    while m < mask
        invariant
            m <= mask,
            img@ == mid + zeros(m as nat),
        decreases mask - m,
    {
        img.push(0);
        m = m + 1;
        assert(img@ =~= mid + zeros(m as nat));
    }
    img
}

/// Writes the `.ico` file of the seven pictures, given as RGBA rows in the
/// order of [`ICON_SIZES`].
pub fn ico_bytes(images: &Vec<Vec<u8>>) -> (r: Vec<u8>)
    requires
        images@.len() == 7,
        forall|k: int| 0 <= k < 7 ==> (#[trigger] images@[k])@.len() == 4 * ICON_SIZES@[k] * ICON_SIZES@[k],
    ensures
        r@ == ico_file(images@),
{
    let sizes = ICON_SIZES;
    let mut out: Vec<u8> = Vec::new();
    put_u16(&mut out, 0);
    put_u16(&mut out, 1);
    put_u16(&mut out, 7);
    let ghost head = out@;
    proof {
        lemma_blob_offsets();
    }
    let mut offset: u32 = 6 + 16 * 7;
    let mut k: usize = 0;
    while k < 7
        invariant
            k <= 7,
            sizes@ == ICON_SIZES@,
            offset == blob_offset(k as int),
            forall|j: int| 0 <= j <= 7 ==> #[trigger] blob_offset(j) <= 6 + 16 * 7 + 7 * blob_size(256),
            out@ == head + dir_entries(k as int),
        decreases 7 - k,
    {
        let s = sizes[k];
        let wh: u8 = if s >= 256 { 0 } else { s as u8 };
        out.push(wh);
        out.push(wh);
        out.push(0);
        out.push(0);
        put_u16(&mut out, 1);
        put_u16(&mut out, 32);
        let len = blob_len(s);
        put_u32(&mut out, len);
        put_u32(&mut out, offset);
        proof {
            assert(out@ =~= head + dir_entries(k as int) + dir_entry(s, offset));
        }
        proof {
            assert(offset + len == blob_offset(k + 1));
        }
        offset = offset + len;
        k = k + 1;
    }
    let ghost mid = out@;
    let mut k: usize = 0;
    while k < 7
        invariant
            k <= 7,
            sizes@ == ICON_SIZES@,
            images@.len() == 7,
            forall|j: int| 0 <= j < 7 ==> (#[trigger] images@[j])@.len() == 4 * ICON_SIZES@[j] * ICON_SIZES@[j],
            out@ == mid + blobs(images@, k as int),
        decreases 7 - k,
    {
        let b = blob(sizes[k], &images[k]);
        crate::util::append_bytes(&mut out, b.as_slice());
        proof {
            assert(out@ =~= mid + blobs(images@, (k + 1) as int));
        }
        k = k + 1;
    }
    out
}

} // verus!
