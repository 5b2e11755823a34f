//! Marshal's variable-length integer (`r_long` / `w_long` in Ruby's marshal.c).
use vstd::prelude::*;
use crate::marshal::model::Error;

verus! {

/// 256 to the power `k`, for `k` up to 8.
pub open spec fn pow256(k: int) -> int {
    if k <= 0 { 1 } else if k == 1 { 0x100 } else if k == 2 { 0x1_0000 } else if k == 3 {
        0x100_0000
    } else if k == 4 { 0x1_0000_0000 } else if k == 5 { 0x100_0000_0000 } else if k == 6 {
        0x1_0000_0000_0000
    } else if k == 7 { 0x100_0000_0000_0000 } else { 0x1_0000_0000_0000_0000 }
}

/// Little-endian unsigned value of `b[start..start + n]`, for `n` up to 4.
pub open spec fn le_sum(b: Seq<u8>, start: int, n: int) -> int {
    (if n > 0 { b[start] as int } else { 0 }) + (if n > 1 { b[start + 1] as int * 0x100 } else {
        0
    }) + (if n > 2 { b[start + 2] as int * 0x1_0000 } else { 0 }) + (if n > 3 {
        b[start + 3] as int * 0x100_0000
    } else {
        0
    })
}

/// The byte read as a signed 8-bit value.
pub open spec fn signed_byte(b: u8) -> int {
    if b < 128 { b as int } else { b as int - 256 }
}

/// Reading a Marshal integer at `p`: its value and the position after it,
/// or `None` when the bytes run out.
pub open spec fn read_long(b: Seq<u8>, p: int) -> Option<(i64, int)> {
    if p < 0 || p >= b.len() {
        None
    } else {
        let c = signed_byte(b[p]);
        if c == 0 {
            Some((0, p + 1))
        } else if c > 4 {
            Some(((c - 5) as i64, p + 1))
        } else if c > 0 {
            if p + 1 + c <= b.len() {
                Some((le_sum(b, p + 1, c) as i64, p + 1 + c))
            } else {
                None
            }
        } else if c < -4 {
            Some(((c + 5) as i64, p + 1))
        } else {
            if p + 1 - c <= b.len() {
                Some(((le_sum(b, p + 1, -c) - pow256(-c)) as i64, p + 1 - c))
            } else {
                None
            }
        }
    }
}

/// Number of payload bytes `w_long` writes for a value outside the one-byte
/// forms, signed: positive for a non-negative value, negative for a negative one.
pub open spec fn long_count(x: int) -> int {
    if x >= 0 {
        if x < pow256(1) { 1 } else if x < pow256(2) { 2 } else if x < pow256(3) { 3 } else if x
            < pow256(4) { 4 } else if x < pow256(5) { 5 } else if x < pow256(6) { 6 } else if x
            < pow256(7) { 7 } else { 8 }
    } else {
        if x >= -pow256(1) { -1 } else if x >= -pow256(2) { -2 } else if x >= -pow256(3) {
            -3
        } else if x >= -pow256(4) { -4 } else if x >= -pow256(5) { -5 } else if x >= -pow256(6) {
            -6
        } else if x >= -pow256(7) { -7 } else { -8 }
    }
}

/// Byte `k` (little-endian) of the two's-complement form of `x`.
pub open spec fn long_byte(x: i64, k: int) -> u8 {
    (((x as u64) as int / pow256(k)) % 256) as u8
}

/// The bytes `w_long` writes for `x`.
pub open spec fn long_bytes(x: i64) -> Seq<u8> {
    if x == 0 {
        seq![0u8]
    } else if 0 < x < 123 {
        seq![(x + 5) as u8]
    } else if -124 < x < 0 {
        seq![(x - 5 + 256) as u8]
    } else {
        let n = long_count(x as int);
        let cnt = if n < 0 { -n } else { n };
        seq![(if n < 0 { n + 256 } else { n }) as u8] + Seq::new(cnt as nat, |k: int| long_byte(x, k))
    }
}

/// Byte `k` of `ux`, little-endian.
fn byte_at(ux: u64, k: usize) -> (r: u8)
    requires
        k < 8,
    ensures
        r == ((ux as int / pow256(k as int)) % 256) as u8,
{
    let d: u64 = if k == 0 { 1 } else if k == 1 { 0x100 } else if k == 2 { 0x1_0000 } else if k
        == 3 { 0x100_0000 } else if k == 4 { 0x1_0000_0000 } else if k == 5 { 0x100_0000_0000 } else if k
        == 6 { 0x1_0000_0000_0000 } else { 0x100_0000_0000_0000 };
    ((ux / d) % 256) as u8
}

/// Appends the Marshal encoding of `x` (Ruby's `w_long`).
pub fn w_long(out: &mut Vec<u8>, x: i64)
    ensures
        final(out)@ == old(out)@ + long_bytes(x),
{
    if x == 0 {
        out.push(0);
        assert(final(out)@ =~= old(out)@ + long_bytes(x)) by { }
        return;
    }
    if x > 0 && x < 123 {
        out.push((x + 5) as u8);
        assert(out@ =~= old(out)@ + long_bytes(x));
        return;
    }
    if x > -124 && x < 0 {
        out.push((x - 5 + 256) as u8);
        assert(out@ =~= old(out)@ + long_bytes(x));
        return;
    }
    let n: i64 = if x >= 0 {
        if x < 0x100 { 1 } else if x < 0x1_0000 { 2 } else if x < 0x100_0000 { 3 } else if x
            < 0x1_0000_0000 { 4 } else if x < 0x100_0000_0000 { 5 } else if x < 0x1_0000_0000_0000 {
            6
        } else if x < 0x100_0000_0000_0000 { 7 } else { 8 }
    } else {
        if x >= -0x100 { -1 } else if x >= -0x1_0000 { -2 } else if x >= -0x100_0000 { -3 } else if x
            >= -0x1_0000_0000 { -4 } else if x >= -0x100_0000_0000 { -5 } else if x
            >= -0x1_0000_0000_0000 { -6 } else if x >= -0x100_0000_0000_0000 { -7 } else { -8 }
    };
    assert(n == long_count(x as int));
    let cnt: usize = if n < 0 { (-n) as usize } else { n as usize };
    out.push((if n < 0 { n + 256 } else { n }) as u8);
    let ux = x as u64;
    let ghost start = out@;
    let mut k: usize = 0;
    while k < cnt
        invariant
            cnt <= 8,
            k <= cnt,
            ux == x as u64,
            out@ == start + Seq::new(k as nat, |j: int| long_byte(x, j)),
        decreases cnt - k,
    {
        out.push(byte_at(ux, k));
        k = k + 1;
        assert(out@ =~= start + Seq::new(k as nat, |j: int| long_byte(x, j)));
    }
    assert(out@ =~= old(out)@ + long_bytes(x));
}

/// Reads a Marshal integer at `*pos` (Ruby's `r_long`) and moves past it.
pub fn r_long(buf: &[u8], pos: &mut usize) -> (r: Result<i64, Error>)
    ensures
        match r {
            Ok(v) => read_long(buf@, *old(pos) as int) == Some((v, *final(pos) as int)),
            Err(e) => read_long(buf@, *old(pos) as int) is None && e is UnexpectedEof
                && *final(pos) == *old(pos),
        },
        read_long(buf@, *old(pos) as int) matches Some((_, p)) ==> *old(pos) < p <= buf@.len(),
{
    let p = *pos;
    if p >= buf.len() {
        return Err(Error::UnexpectedEof);
    }
    let b = buf[p];
    let c: i64 = if b < 128 { b as i64 } else { b as i64 - 256 };
    if c == 0 {
        *pos = p + 1;
        return Ok(0);
    }
    if c > 4 {
        *pos = p + 1;
        return Ok(c - 5);
    }
    if c < -4 {
        *pos = p + 1;
        return Ok(c + 5);
    }
    let n: usize = if c > 0 { c as usize } else { (-c) as usize };
    if n > buf.len() - p - 1 {
        return Err(Error::UnexpectedEof);
    }
    let mut x: i64 = 0;
    if n > 0 {
        x = x + buf[p + 1] as i64;
    }
    if n > 1 {
        x = x + buf[p + 2] as i64 * 0x100;
    }
    if n > 2 {
        x = x + buf[p + 3] as i64 * 0x1_0000;
    }
    if n > 3 {
        x = x + buf[p + 4] as i64 * 0x100_0000;
    }
    if c < 0 {
        let m: i64 = if n == 1 { 0x100 } else if n == 2 { 0x1_0000 } else if n == 3 { 0x100_0000 } else { 0x1_0000_0000 };
        x = x - m;
    }
    *pos = p + 1 + n;
    Ok(x)
}

/// Reading back what `w_long` wrote gives the value again, for every value
/// that fits the reader's four payload bytes, whatever follows.
pub proof fn lemma_long_roundtrip(x: i64, rest: Seq<u8>)
    requires
        -0x1_0000_0000 <= x < 0x1_0000_0000,
    ensures
        read_long(long_bytes(x) + rest, 0) == Some((x, long_bytes(x).len() as int)),
{
    let b = long_bytes(x) + rest;
    if x == 0 || (0 < x < 123) || (-124 < x < 0) {
        assert(b[0] == long_bytes(x)[0]);
    } else {
        let n = long_count(x as int);
        let cnt = if n < 0 { -n } else { n };
        assert(1 <= cnt <= 4);
        assert(b[0] == long_bytes(x)[0]);
        assert forall|k: int| 0 <= k < cnt implies b[1 + k] == long_byte(x, k) by {
            assert(b[1 + k] == long_bytes(x)[1 + k]);
        }
        lemma_bytes_sum(x, cnt);
    }
}

/// The little-endian bytes of `x` add up to its value (non-negative `x`) or to
/// its value plus `256^n` (negative `x`).
proof fn lemma_bytes_sum(x: i64, n: int)
    requires
        1 <= n <= 4,
        n == (if long_count(x as int) < 0 { -long_count(x as int) } else { long_count(x as int) }),
    ensures
        (if n > 0 { long_byte(x, 0) as int } else { 0 }) + (if n > 1 { long_byte(x, 1) as int * 0x100 } else {
            0
        }) + (if n > 2 { long_byte(x, 2) as int * 0x1_0000 } else { 0 }) + (if n > 3 {
            long_byte(x, 3) as int * 0x100_0000
        } else {
            0
        }) == if x >= 0 { x as int } else { x as int + pow256(n) },
{
    assert(x >= 0 ==> (x as u64) == x) by (bit_vector);
    assert(x < 0 ==> (x as u64) as int == x as int + 0x1_0000_0000_0000_0000) by (bit_vector);
    let u = (x as u64) as int;
    lemma_low_bytes(u, n);
    let m = pow256(n);
    if x >= 0 {
        vstd::arithmetic::div_mod::lemma_small_mod(x as nat, m as nat);
    } else {
        let q: int = 0x1_0000_0000_0000_0000int / m - 1;
        assert(q * m + m == 0x1_0000_0000_0000_0000) by {
            assert(n == 1 || n == 2 || n == 3 || n == 4);
        }
        assert(u == m * q + (x + m)) by (nonlinear_arith)
            requires
                u == x + 0x1_0000_0000_0000_0000,
                q * m + m == 0x1_0000_0000_0000_0000;
        vstd::arithmetic::div_mod::lemma_mod_multiples_vanish(q, x + m, m);
        vstd::arithmetic::div_mod::lemma_small_mod((x + m) as nat, m as nat);
    }
}

/// The first `n` little-endian bytes of `u` add up to `u % 256^n`.
proof fn lemma_low_bytes(u: int, n: int)
    requires
        0 <= u,
        1 <= n <= 4,
    ensures
        (if n > 0 { (u / pow256(0)) % 256 } else { 0 }) + (if n > 1 { ((u / pow256(1)) % 256) * 0x100 } else {
            0
        }) + (if n > 2 { ((u / pow256(2)) % 256) * 0x1_0000 } else { 0 }) + (if n > 3 {
            ((u / pow256(3)) % 256) * 0x100_0000
        } else {
            0
        }) == u % pow256(n),
{
    vstd::arithmetic::div_mod::lemma_mod_breakdown(u, 1, 256);
    vstd::arithmetic::div_mod::lemma_mod_breakdown(u, 256, 256);
    vstd::arithmetic::div_mod::lemma_mod_breakdown(u, 0x1_0000, 256);
    vstd::arithmetic::div_mod::lemma_mod_breakdown(u, 0x100_0000, 256);
    assert(u % 1 == 0);
    assert(u / 1 == u);
}

} // verus!
