//! The stream cipher and checksum of Wolf RPG save files.
//!
//! Bytes from offset 0x14 on are XORed with three MSVC `rand()` streams,
//! seeded from header bytes 0, 3 and 9 and stepping 1, 2 and 5 bytes.
//! Encryption applies the same three streams in the other order, so each
//! undoes the other.
use vstd::prelude::*;
use vstd::arithmetic::div_mod::lemma_fundamental_div_mod_converse;

verus! {

/// Offset at which the encrypted part of a save starts.
pub const START_OFFSET: usize = 0x14;

/// One step of the MSVC linear congruential generator.
pub open spec fn lcg_next(s: u32) -> u32 {
    vstd::wrapping::u32_specs::wrapping_add(vstd::wrapping::u32_specs::wrapping_mul(s, 214013), 2531011)
}

/// Generator state after `k` steps from `seed`.
pub open spec fn lcg_state(seed: u32, k: nat) -> u32
    decreases k,
{
    if k == 0 {
        seed
    } else {
        lcg_next(lcg_state(seed, (k - 1) as nat))
    }
}

/// The `k`-th value (counting from 0) that `rand` returns after seeding with `seed`.
pub open spec fn rand_at(seed: u32, k: nat) -> u32 {
    (lcg_state(seed, k + 1) >> 16u32) & 0x7fffu32
}

/// MSVC CRT `rand()`.
pub struct MsvcRand {
    state: u32,
}

impl MsvcRand {
    /// Current generator state.
    pub closed spec fn state(&self) -> u32 {
        self.state
    }

    pub fn new(seed: u32) -> (r: Self)
        ensures
            r.state() == seed,
    {
        MsvcRand { state: seed }
    }

    /// Advances the generator and returns bits 16..31 of the new state.
    pub fn rand(&mut self) -> (r: u32)
        ensures
            final(self).state() == lcg_next(old(self).state()),
            r == (final(self).state() >> 16u32) & 0x7fffu32,
    {
        self.state = self.state.wrapping_mul(214013).wrapping_add(2531011);
        (self.state >> 16) & 0x7FFF
    }
}

/// Key byte that the stream seeded by `seed`, stepping `inc` bytes, puts on position `j`.
pub open spec fn key_byte(seed: u8, inc: int, j: int) -> u8 {
    if j >= 0x14 && (j - 0x14) % inc == 0 {
        (rand_at(seed as u32, ((j - 0x14) / inc) as nat) >> 12u32) as u8
    } else {
        0
    }
}

/// The save `d` with its three key streams applied (the same map encrypts and decrypts).
pub open spec fn crypt(d: Seq<u8>) -> Seq<u8> {
    if d.len() <= 0x14 {
        d
    } else {
        Seq::new(
            d.len(),
            |j: int| ((d[j] ^ key_byte(d[0], 1, j)) ^ key_byte(d[3], 2, j)) ^ key_byte(d[9], 5, j),
        )
    }
}

proof fn lemma_xor_zero(a: u8)
    ensures
        a ^ 0u8 == a,
{
    assert(a ^ 0u8 == a) by (bit_vector);
}

proof fn lemma_xor_twice(a: u8, k1: u8, k2: u8, k3: u8)
    ensures
        ((((((a ^ k1) ^ k2) ^ k3) ^ k1) ^ k2) ^ k3) == a,
        ((a ^ k3) ^ k2) ^ k1 == ((a ^ k1) ^ k2) ^ k3,
{
    assert(((((((a ^ k1) ^ k2) ^ k3) ^ k1) ^ k2) ^ k3) == a) by (bit_vector);
    assert(((a ^ k3) ^ k2) ^ k1 == ((a ^ k1) ^ k2) ^ k3) by (bit_vector);
}

proof fn lemma_key_at(seed: u8, inc: int, j: int, k: nat)
    requires
        1 <= inc,
        j == 0x14 + k * inc,
    ensures
        key_byte(seed, inc, j) == ((rand_at(seed as u32, k) >> 12u32) as u8),
{
    lemma_fundamental_div_mod_converse(j - 0x14, inc, k as int, 0);
}

proof fn lemma_key_between(seed: u8, inc: int, j: int, k: nat, i: int)
    requires
        1 <= inc,
        j == 0x14 + k * inc,
        j < i < j + inc,
    ensures
        key_byte(seed, inc, i) == 0,
{
    lemma_fundamental_div_mod_converse(i - 0x14, inc, k as int, i - j);
}

proof fn lemma_next_step(k: nat, inc: int)
    ensures
        (k + 1) * inc == k * inc + inc,
{
    assert((k + 1) * inc == k * inc + inc) by (nonlinear_arith);
}

/// XORs the stream seeded by `seed`, stepping `inc` bytes, onto `data` from 0x14 on.
fn xor_stream(data: &mut [u8], seed: u8, inc: usize)
    requires
        old(data)@.len() > 0x14,
        1 <= inc <= 5,
    ensures
        final(data)@.len() == old(data)@.len(),
        forall|j: int|
            0 <= j < old(data)@.len() ==> #[trigger] final(data)@[j] == old(data)@[j] ^ key_byte(
                seed,
                inc as int,
                j,
            ),
{
    let len = data.len();
    let mut r = MsvcRand::new(seed as u32);
    let mut j: usize = START_OFFSET;
    let ghost mut k: nat = 0;
    proof {
        assert forall|i: int| 0 <= i < j implies #[trigger] data@[i] == old(data)@[i] ^ key_byte(seed, inc as int, i) by {
            lemma_xor_zero(old(data)@[i]);
        }
    }
    while j < len
        invariant
            len == data@.len() == old(data)@.len(),
            1 <= inc <= 5,
            0x14 <= j <= len,
            j as int == 0x14 + k * inc || (j == len && 0x14 + k * inc >= len),
            r.state() == lcg_state(seed as u32, k),
            forall|i: int|
                0 <= i < j ==> #[trigger] data@[i] == old(data)@[i] ^ key_byte(seed, inc as int, i),
            forall|i: int| j <= i < len ==> #[trigger] data@[i] == old(data)@[i],
        decreases len - j,
    {
        let x = r.rand();
        let b = data[j] ^ ((x >> 12) as u8);
        data[j] = b;
        let ghost jj = j as int;
        proof {
            lemma_key_at(seed, inc as int, jj, k);
        }
        if len - j <= inc {
            j = len;
        } else {
            j = j + inc;
        }
        proof {
            assert forall|i: int| jj < i < j implies #[trigger] data@[i] == old(data)@[i] ^ key_byte(seed, inc as int, i) by {
                lemma_key_between(seed, inc as int, jj, k, i);
                lemma_xor_zero(old(data)@[i]);
            }
            lemma_next_step(k, inc as int);
            k = k + 1;
        }
    }
}

/// Decrypts a save in place (streams seeded from bytes 0, 3, 9 with steps 1, 2, 5).
pub fn decrypt_bytes(data: &mut [u8])
    ensures
        final(data)@ == crypt(old(data)@),
{
    if data.len() <= START_OFFSET {
        return;
    }
    let s0 = data[0];
    let s3 = data[3];
    let s9 = data[9];
    xor_stream(data, s0, 1);
    xor_stream(data, s3, 2);
    xor_stream(data, s9, 5);
    assert(data@ =~= crypt(old(data)@));
}

/// Encrypts a save in place: the streams of `decrypt_bytes` in the other order.
pub fn encrypt_bytes(data: &mut [u8])
    ensures
        final(data)@ == crypt(old(data)@),
{
    if data.len() <= START_OFFSET {
        return;
    }
    let s9 = data[9];
    let s3 = data[3];
    let s0 = data[0];
    let ghost d = data@;
    xor_stream(data, s9, 5);
    xor_stream(data, s3, 2);
    xor_stream(data, s0, 1);
    proof {
        assert forall|j: int| 0 <= j < d.len() implies data@[j] == crypt(d)[j] by {
            lemma_xor_twice(d[j], key_byte(s0, 1, j), key_byte(s3, 2, j), key_byte(s9, 5, j));
        }
    }
    assert(data@ =~= crypt(old(data)@));
}

/// Applying the key streams twice gives the bytes back: `encrypt_bytes` undoes
/// `decrypt_bytes` and the other way round.
pub proof fn lemma_crypt_involution(d: Seq<u8>)
    ensures
        crypt(crypt(d)) == d,
{
    if d.len() > 0x14 {
        let e = crypt(d);
        assert(e[0] == d[0]) by {
            lemma_xor_zero(d[0]);
            lemma_xor_zero(d[0] ^ 0u8);
            lemma_xor_zero((d[0] ^ 0u8) ^ 0u8);
        }
        assert(e[3] == d[3]) by {
            lemma_xor_zero(d[3]);
            lemma_xor_zero(d[3] ^ 0u8);
            lemma_xor_zero((d[3] ^ 0u8) ^ 0u8);
        }
        assert(e[9] == d[9]) by {
            lemma_xor_zero(d[9]);
            lemma_xor_zero(d[9] ^ 0u8);
            lemma_xor_zero((d[9] ^ 0u8) ^ 0u8);
        }
        assert forall|j: int| 0 <= j < d.len() implies crypt(e)[j] == d[j] by {
            lemma_xor_twice(d[j], key_byte(d[0], 1, j), key_byte(d[3], 2, j), key_byte(d[9], 5, j));
        }
        assert(crypt(e) =~= d);
    }
}

/// Sum of the bytes of `s`.
pub open spec fn byte_sum(s: Seq<u8>) -> nat
    decreases s.len(),
{
    if s.len() == 0 {
        0
    } else {
        byte_sum(s.drop_last()) + s.last() as nat
    }
}

/// The checksum a plain save should carry at offset 2: the sum of its bytes
/// from 0x14 on, modulo 256.
pub open spec fn checksum_of(d: Seq<u8>) -> u8 {
    (byte_sum(d.subrange(0x14, d.len() as int)) % 256) as u8
}

/// Sum modulo 256 of `data[0x14..]`.
fn sum_from_start(data: &[u8]) -> (r: u8)
    requires
        data@.len() >= 0x14,
    ensures
        r == checksum_of(data@),
{
    let mut sum: u32 = 0;
    let mut i: usize = START_OFFSET;
    while i < data.len()
        invariant
            0x14 <= i <= data@.len(),
            sum < 256,
            sum == byte_sum(data@.subrange(0x14, i as int)) % 256,
        decreases data@.len() - i,
    {
        let ghost before = data@.subrange(0x14, i as int);
        proof {
            assert(data@.subrange(0x14, i + 1).drop_last() =~= before);
            vstd::arithmetic::div_mod::lemma_add_mod_noop(byte_sum(before) as int, data@[i as int] as int, 256);
            vstd::arithmetic::div_mod::lemma_small_mod(data@[i as int] as nat, 256);
            vstd::arithmetic::div_mod::lemma_mod_twice(byte_sum(before) as int, 256);
        }
        sum = (sum + data[i] as u32) % 256;
        i = i + 1;
    }
    sum as u8
}

/// Writes the checksum of the plain save into byte 2 (saves shorter than 3 bytes are left alone).
pub fn fix_checksum(data: &mut [u8])
    requires
        old(data)@.len() < 3 || old(data)@.len() >= 0x14,
    ensures
        old(data)@.len() < 3 ==> final(data)@ == old(data)@,
        old(data)@.len() >= 3 ==> final(data)@ == old(data)@.update(2, checksum_of(old(data)@)),
{
    if data.len() < 3 {
        return;
    }
    let c = sum_from_start(data);
    data[2] = c;
}

/// Whether byte 2 holds the checksum of the plain save.
pub fn verify_checksum(data: &[u8]) -> (r: bool)
    requires
        data@.len() < 3 || data@.len() >= 0x14,
    ensures
        r == (data@.len() >= 3 && data@[2] == checksum_of(data@)),
{
    if data.len() < 3 {
        return false;
    }
    data[2] == sum_from_start(data)
}

/// A save whose checksum was just fixed verifies.
pub proof fn lemma_fixed_checksum_verifies(d: Seq<u8>)
    requires
        d.len() >= 0x14,
    ensures
        d.update(2, checksum_of(d))[2] == checksum_of(d.update(2, checksum_of(d))),
{
    let e = d.update(2, checksum_of(d));
    assert(e.subrange(0x14, e.len() as int) =~= d.subrange(0x14, d.len() as int));
}

} // verus!
