//! The frame checksum: CRC-8 with the reflected polynomial `0x8C`, initial
//! value 0, computed bit by bit.
use vstd::prelude::*;

verus! {

/// The reflected generator polynomial.
pub const CRC_POLY: u8 = 0x8C;

/// One shift of the register: the lowest bit decides whether the polynomial
/// is folded in.
pub open spec fn crc8_shift(x: u8) -> u8 {
    if x & 1 == 1 {
        (x >> 1) ^ CRC_POLY
    } else {
        x >> 1
    }
}

/// `n` shifts of the register.
pub open spec fn crc8_rounds(x: u8, n: nat) -> u8
    decreases n,
{
    if n == 0 {
        x
    } else {
        crc8_shift(crc8_rounds(x, (n - 1) as nat))
    }
}

/// The register after one more byte of input.
pub open spec fn crc8_update(crc: u8, b: u8) -> u8 {
    crc8_rounds(crc ^ b, 8)
}

/// The checksum of a sequence of bytes.
pub open spec fn crc8(s: Seq<u8>) -> u8
    decreases s.len(),
{
    if s.len() == 0 {
        0
    } else {
        crc8_update(crc8(s.drop_last()), s.last())
    }
}

/// The register after one more byte of input.
pub fn crc8_step(crc: u8, b: u8) -> (r: u8)
    ensures
        r == crc8_update(crc, b),
{
    let mut x: u8 = crc ^ b;
    let mut i: u8 = 0;
    while i < 8
        invariant
            i <= 8,
            x == crc8_rounds(crc ^ b, i as nat),
        decreases 8 - i,
    {
        x = if x & 1 == 1 {
            (x >> 1) ^ CRC_POLY
        } else {
            x >> 1
        };
        i = i + 1;
    }
    x
}

/// The checksum of `data`.
pub fn crc8_of(data: &[u8]) -> (r: u8)
    ensures
        r == crc8(data@),
{
    let mut crc: u8 = 0;
    let mut i: usize = 0;
    while i < data.len()
        invariant
            i <= data@.len(),
            crc == crc8(data@.take(i as int)),
        decreases data@.len() - i,
    {
        proof {
            lemma_crc8_push(data@.take(i as int), data@[i as int]);
            assert(data@.take(i as int).push(data@[i as int]) =~= data@.take(i + 1));
        }
        crc = crc8_step(crc, data[i]);
        i = i + 1;
    }
    assert(data@.take(i as int) =~= data@);
    crc
}

/// The checksum of a sequence with one more byte is one update of the
/// checksum of the sequence.
pub proof fn lemma_crc8_push(s: Seq<u8>, b: u8)
    ensures
        crc8(s.push(b)) == crc8_update(crc8(s), b),
{
    assert(s.push(b).drop_last() =~= s);
}

/// A shift of the register loses nothing: two registers that differ still
/// differ after it.
pub proof fn lemma_shift_injective(x: u8, y: u8)
    ensures
        crc8_shift(x) == crc8_shift(y) ==> x == y,
{
    assert(crc8_shift(x) == crc8_shift(y) ==> x == y) by (bit_vector);
}

/// Any number of shifts loses nothing.
pub proof fn lemma_rounds_injective(x: u8, y: u8, n: nat)
    ensures
        crc8_rounds(x, n) == crc8_rounds(y, n) ==> x == y,
    decreases n,
{
    if n > 0 {
        lemma_rounds_injective(x, y, (n - 1) as nat);
        lemma_shift_injective(crc8_rounds(x, (n - 1) as nat), crc8_rounds(y, (n - 1) as nat));
    }
}

/// For a given input byte, different registers give different registers; for
/// a given register, different input bytes give different registers.
pub proof fn lemma_update_injective(c1: u8, b1: u8, c2: u8, b2: u8)
    ensures
        b1 == b2 && crc8_update(c1, b1) == crc8_update(c2, b2) ==> c1 == c2,
        c1 == c2 && crc8_update(c1, b1) == crc8_update(c2, b2) ==> b1 == b2,
{
    lemma_rounds_injective(c1 ^ b1, c2 ^ b2, 8);
    assert((c1 ^ b1) == (c2 ^ b2) && b1 == b2 ==> c1 == c2) by (bit_vector);
    assert((c1 ^ b1) == (c2 ^ b2) && c1 == c2 ==> b1 == b2) by (bit_vector);
}

/// The checksum detects every change that is confined to one byte: if
/// exactly one byte of a sequence is replaced by another value, the checksum
/// changes.
pub proof fn lemma_crc8_detects_byte(s: Seq<u8>, i: int, b: u8)
    requires
        0 <= i < s.len(),
        b != s[i],
    ensures
        crc8(s.update(i, b)) != crc8(s),
    decreases s.len(),
{
    let t = s.update(i, b);
    if i == s.len() - 1 {
        assert(t.drop_last() =~= s.drop_last());
        lemma_update_injective(crc8(s.drop_last()), b, crc8(s.drop_last()), s.last());
    } else {
        assert(t.drop_last() =~= s.drop_last().update(i, b));
        lemma_crc8_detects_byte(s.drop_last(), i, b);
        lemma_update_injective(crc8(t.drop_last()), s.last(), crc8(s.drop_last()), s.last());
    }
}

/// Flipping one bit of a byte changes the byte.
pub proof fn lemma_bit_flip_changes(b: u8, k: u8)
    requires
        k < 8,
    ensures
        (b ^ (1u8 << k)) != b,
{
    assert(k < 8 ==> (b ^ (1u8 << k)) != b) by (bit_vector);
}

} // verus!
