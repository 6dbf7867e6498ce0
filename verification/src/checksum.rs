//! The checksum engine: a 32-bit cyclic-redundancy checksum over the
//! Castagnoli polynomial, and the rotate-and-add masking step applied to it
//! before it is stored in a frame.

use vstd::prelude::*;

verus! {

/// Reflected form of the Castagnoli polynomial.
pub const CRC_POLY: u32 = 0x82F63B78;

/// Initial accumulator value; the final value is inverted with the same mask.
pub const CRC_INIT: u32 = 0xFFFF_FFFF;

/// Constant added to the rotated checksum by the masking step.
pub const MASK_DELTA: u32 = 0xA282_EAD8;

/// One bit step of the reflected checksum: shift out the low bit and fold in
/// the polynomial when it was set.
pub open spec fn crc_bit(c: u32) -> u32 {
    if c & 1 == 1 {
        (c >> 1) ^ CRC_POLY
    } else {
        c >> 1
    }
}

/// `n` bit steps.
pub open spec fn crc_bits(c: u32, n: nat) -> u32
    decreases n,
{
    if n == 0 {
        c
    } else {
        crc_bit(crc_bits(c, (n - 1) as nat))
    }
}

/// Absorb one byte: fold it into the low bits, then run eight bit steps.
pub open spec fn crc_byte(c: u32, b: u8) -> u32 {
    crc_bits(c ^ (b as u32), 8)
}

/// Absorb a whole byte span, front to back.
pub open spec fn crc_fold(c: u32, s: Seq<u8>) -> u32
    decreases s.len(),
{
    if s.len() == 0 {
        c
    } else {
        crc_fold(crc_byte(c, s[0]), s.skip(1))
    }
}

/// The unmasked checksum of a byte span.
pub open spec fn crc32c_of(s: Seq<u8>) -> u32 {
    crc_fold(CRC_INIT, s) ^ 0xFFFF_FFFFu32
}

/// The 32-bit value rotated right by 15 bits.
pub open spec fn rotr15(c: u32) -> u32 {
    (c >> 15) | (c << 17)
}

/// The masking step: rotate right by 15 bits, then add a fixed constant with
/// 32-bit wraparound.
pub open spec fn mask_value(c: u32) -> u32 {
    (((rotr15(c) + MASK_DELTA) % 0x1_0000_0000) as u32)
}

/// The masked checksum of a byte span, as stored in a frame.
pub open spec fn masked_of(s: Seq<u8>) -> u32 {
    mask_value(crc32c_of(s))
}

proof fn lemma_crc_fold_push(c: u32, s: Seq<u8>, b: u8)
    ensures
        crc_fold(c, s.push(b)) == crc_byte(crc_fold(c, s), b),
    decreases s.len(),
{
    if s.len() == 0 {
        assert(s.push(b)[0] == b);
        assert(s.push(b).skip(1) =~= Seq::<u8>::empty());
        assert(crc_fold(c, s.push(b)) == crc_fold(crc_byte(c, b), Seq::<u8>::empty()));
        assert(crc_fold(c, s) == c);
    } else {
        assert(s.push(b)[0] == s[0]);
        assert(s.push(b).skip(1) =~= s.skip(1).push(b));
        assert(crc_fold(c, s.push(b)) == crc_fold(crc_byte(c, s[0]), s.skip(1).push(b)));
        lemma_crc_fold_push(crc_byte(c, s[0]), s.skip(1), b);
        assert(crc_fold(c, s) == crc_fold(crc_byte(c, s[0]), s.skip(1)));
    }
}

proof fn lemma_crc_fold_concat(c: u32, a: Seq<u8>, b: Seq<u8>)
    ensures
        crc_fold(c, a + b) == crc_fold(crc_fold(c, a), b),
    decreases a.len(),
{
    if a.len() == 0 {
        assert(a + b =~= b);
    } else {
        assert((a + b)[0] == a[0]);
        assert((a + b).skip(1) =~= a.skip(1) + b);
        assert(crc_fold(c, a + b) == crc_fold(crc_byte(c, a[0]), a.skip(1) + b));
        lemma_crc_fold_concat(crc_byte(c, a[0]), a.skip(1), b);
    }
}

proof fn lemma_crc_bit_inj(a: u32, b: u32)
    requires
        crc_bit(a) == crc_bit(b),
    ensures
        a == b,
{
    assert((a & 1 == 1 && b & 1 == 1 && ((a >> 1) ^ 0x82F63B78u32) == ((b >> 1) ^ 0x82F63B78u32))
        ==> a == b) by (bit_vector);
    assert((a & 1 == 0 && b & 1 == 0 && (a >> 1) == (b >> 1)) ==> a == b) by (bit_vector);
    assert((a & 1 == 1 && b & 1 == 0) ==> ((a >> 1) ^ 0x82F63B78u32) != (b >> 1)) by (bit_vector);
    assert((a & 1 == 0 && b & 1 == 1) ==> (a >> 1) != ((b >> 1) ^ 0x82F63B78u32)) by (bit_vector);
    assert(a & 1 == 0 || a & 1 == 1) by (bit_vector);
    assert(b & 1 == 0 || b & 1 == 1) by (bit_vector);
}

proof fn lemma_crc_bits_inj(a: u32, b: u32, n: nat)
    requires
        crc_bits(a, n) == crc_bits(b, n),
    ensures
        a == b,
    decreases n,
{
    if n != 0 {
        lemma_crc_bit_inj(crc_bits(a, (n - 1) as nat), crc_bits(b, (n - 1) as nat));
        lemma_crc_bits_inj(a, b, (n - 1) as nat);
    }
}

proof fn lemma_crc_byte_inj_acc(c1: u32, c2: u32, b: u8)
    requires
        crc_byte(c1, b) == crc_byte(c2, b),
    ensures
        c1 == c2,
{
    lemma_crc_bits_inj(c1 ^ (b as u32), c2 ^ (b as u32), 8);
    assert((c1 ^ (b as u32)) == (c2 ^ (b as u32)) ==> c1 == c2) by (bit_vector);
}

proof fn lemma_crc_byte_inj_byte(c: u32, x: u8, y: u8)
    requires
        x != y,
    ensures
        crc_byte(c, x) != crc_byte(c, y),
{
    assert(x != y ==> (c ^ (x as u32)) != (c ^ (y as u32))) by (bit_vector);
    if crc_byte(c, x) == crc_byte(c, y) {
        lemma_crc_bits_inj(c ^ (x as u32), c ^ (y as u32), 8);
    }
}

proof fn lemma_crc_fold_inj_acc(c1: u32, c2: u32, s: Seq<u8>)
    requires
        c1 != c2,
    ensures
        crc_fold(c1, s) != crc_fold(c2, s),
    decreases s.len(),
{
    if s.len() != 0 {
        if crc_byte(c1, s[0]) == crc_byte(c2, s[0]) {
            lemma_crc_byte_inj_acc(c1, c2, s[0]);
        }
        lemma_crc_fold_inj_acc(crc_byte(c1, s[0]), crc_byte(c2, s[0]), s.skip(1));
    }
}

/// The masking step sends different checksums to different masked values.
pub proof fn lemma_mask_inj(c1: u32, c2: u32)
    requires
        c1 != c2,
    ensures
        mask_value(c1) != mask_value(c2),
{
    assert(c1 != c2 ==> ((((c1 >> 15) | (c1 << 17)) + 0xA282EAD8) % 0x1_0000_0000)
        != ((((c2 >> 15) | (c2 << 17)) + 0xA282EAD8) % 0x1_0000_0000)) by (bit_vector);
}

/// Changing a single byte of a span (a bit flip included) changes both the
/// unmasked and the masked checksum: corruption confined to one byte is
/// always detected.
pub proof fn lemma_crc_detects_byte_change(s1: Seq<u8>, s2: Seq<u8>, i: int)
    requires
        s1.len() == s2.len(),
        0 <= i < s1.len(),
        s1[i] != s2[i],
        forall|j: int| 0 <= j < s1.len() && j != i ==> s1[j] == s2[j],
    ensures
        crc32c_of(s1) != crc32c_of(s2),
        masked_of(s1) != masked_of(s2),
{
    assert(s1 =~= s1.take(i) + s1.skip(i));
    assert(s2 =~= s2.take(i) + s2.skip(i));
    lemma_crc_fold_concat(CRC_INIT, s1.take(i), s1.skip(i));
    lemma_crc_fold_concat(CRC_INIT, s2.take(i), s2.skip(i));
    assert(s1.take(i) =~= s2.take(i));
    let c = crc_fold(CRC_INIT, s1.take(i));
    assert(s1.skip(i)[0] == s1[i]);
    assert(s2.skip(i)[0] == s2[i]);
    assert(s1.skip(i).skip(1) =~= s2.skip(i).skip(1));
    lemma_crc_byte_inj_byte(c, s1[i], s2[i]);
    lemma_crc_fold_inj_acc(crc_byte(c, s1[i]), crc_byte(c, s2[i]), s1.skip(i).skip(1));
    let f1 = crc_fold(CRC_INIT, s1);
    let f2 = crc_fold(CRC_INIT, s2);
    assert(f1 != f2 ==> (f1 ^ 0xFFFF_FFFFu32) != (f2 ^ 0xFFFF_FFFFu32)) by (bit_vector);
    lemma_mask_inj(crc32c_of(s1), crc32c_of(s2));
}

/// The masked checksum is a function of the byte span alone, and it differs
/// from the unmasked checksum of the same span except when that checksum is
/// one of the two fixed points of the masking step.
pub proof fn lemma_masked_checksum_properties(s1: Seq<u8>, s2: Seq<u8>)
    requires
        crc32c_of(s1) != 0xD7EE9AB5u32,
        crc32c_of(s1) != 0x8299F00Bu32,
    ensures
        s1 =~= s2 ==> masked_of(s1) == masked_of(s2),
        masked_of(s1) != crc32c_of(s1),
{
    let c = crc32c_of(s1);
    assert(c != 0xD7EE9AB5u32 && c != 0x8299F00Bu32
        ==> ((((c >> 15) | (c << 17)) + 0xA282EAD8) % 0x1_0000_0000) != c) by (bit_vector);
}

/// Computes the unmasked checksum of `data`.
pub fn crc32c(data: &[u8]) -> (r: u32)
    ensures
        r == crc32c_of(data@),
{
    let mut c: u32 = CRC_INIT;
    let mut i: usize = 0;
    while i < data.len()
        invariant
            i <= data.len(),
            c == crc_fold(CRC_INIT, data@.take(i as int)),
        decreases data.len() - i,
    {
        let ghost prefix = data@.take(i as int);
        let b = data[i];
        c = c ^ (b as u32);
        let ghost c0 = c;
        let mut k: usize = 0;
        while k < 8
            invariant
                k <= 8,
                c == crc_bits(c0, k as nat),
            decreases 8 - k,
        {
            if c & 1 == 1 {
                c = (c >> 1) ^ CRC_POLY;
            } else {
                c = c >> 1;
            }
            k = k + 1;
        }
        i = i + 1;
        proof {
            lemma_crc_fold_push(CRC_INIT, prefix, b);
            assert(data@.take(i as int) =~= prefix.push(b));
        }
    }
    proof {
        assert(data@.take(data@.len() as int) =~= data@);
    }
    c ^ 0xFFFF_FFFF
}

/// Computes the masked checksum of `data`, as stored in a frame.
pub fn masked_crc32c(data: &[u8]) -> (r: u32)
    ensures
        r == masked_of(data@),
{
    let crc = crc32c(data);
    let rot: u32 = (crc >> 15) | (crc << 17);
    let sum: u64 = (rot as u64) + (MASK_DELTA as u64);
    let out: u64 = sum % 0x1_0000_0000;
    out as u32
}

} // verus!
