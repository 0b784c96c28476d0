//! The checksums of a PNG.

use vstd::prelude::*;

verus! {

/// The polynomial of CRC-32, its bits reversed.
pub const POLYNOMIAL: u32 = 0xedb8_8320;

/// `crc` after one bit.
pub open spec fn crc_bit(crc: u32) -> u32 {
    if crc & 1 == 1 {
        (crc >> 1) ^ POLYNOMIAL
    } else {
        crc >> 1
    }
}

/// `crc` after `count` bits.
pub open spec fn crc_bits(crc: u32, count: nat) -> u32
    decreases count,
{
    if count == 0 {
        crc
    } else {
        crc_bit(crc_bits(crc, (count - 1) as nat))
    }
}

/// What is left of dividing `bytes`, before it is turned over.
pub open spec fn crc_rest(bytes: Seq<u8>) -> u32
    decreases bytes.len(),
{
    if bytes.len() == 0 {
        u32::MAX
    } else {
        crc_bits(crc_rest(bytes.drop_last()) ^ bytes.last() as u32, 8)
    }
}

/// CRC-32 of `bytes`.
pub open spec fn crc(bytes: Seq<u8>) -> u32 {
    !crc_rest(bytes)
}

/// CRC-32 of `bytes`.
pub fn crc32(bytes: &[u8]) -> (sum: u32)
    ensures
        sum == crc(bytes@),
{
    let mut rest: u32 = u32::MAX;
    let mut at: usize = 0;
    assert(bytes@.take(0) =~= Seq::empty());
    while at < bytes.len()
        invariant
            at <= bytes@.len(),
            rest == crc_rest(bytes@.take(at as int)),
        decreases bytes@.len() - at,
    {
        let ghost mixed = rest ^ bytes@[at as int] as u32;
        rest = rest ^ bytes[at] as u32;
        let mut bit: usize = 0;
        while bit < 8
            invariant
                bit <= 8,
                rest == crc_bits(mixed, bit as nat),
            decreases 8 - bit,
        {
            rest = if rest & 1 == 1 {
                (rest >> 1) ^ POLYNOMIAL
            } else {
                rest >> 1
            };
            bit = bit + 1;
        }
        proof {
            assert(bytes@.take(at + 1).drop_last() =~= bytes@.take(at as int));
            assert(bytes@.take(at + 1).last() == bytes@[at as int]);
        }
        at = at + 1;
    }
    assert(bytes@.take(at as int) =~= bytes@);
    !rest
}

/// What the sums of Adler-32 are taken modulo.
pub const ADLER_BASE: u32 = 65_521;

/// One more than the sum of `bytes`, modulo [`ADLER_BASE`].
pub open spec fn adler_first(bytes: Seq<u8>) -> nat
    decreases bytes.len(),
{
    if bytes.len() == 0 {
        1
    } else {
        (adler_first(bytes.drop_last()) + bytes.last() as nat) % ADLER_BASE as nat
    }
}

/// The sum of those sums, of the first byte, the first two and so on, modulo
/// [`ADLER_BASE`].
pub open spec fn adler_second(bytes: Seq<u8>) -> nat
    decreases bytes.len(),
{
    if bytes.len() == 0 {
        0
    } else {
        (adler_second(bytes.drop_last()) + adler_first(bytes)) % ADLER_BASE as nat
    }
}

/// Adler-32 of `bytes`: the second sum above the first.
pub open spec fn adler(bytes: Seq<u8>) -> nat {
    adler_second(bytes) * 0x1_0000 + adler_first(bytes)
}

/// Adler-32 of `bytes`.
pub fn adler32(bytes: &[u8]) -> (sum: u32)
    ensures
        sum == adler(bytes@),
{
    let mut first: u32 = 1;
    let mut second: u32 = 0;
    let mut at: usize = 0;
    assert(bytes@.take(0) =~= Seq::empty());
    while at < bytes.len()
        invariant
            at <= bytes@.len(),
            first == adler_first(bytes@.take(at as int)),
            second == adler_second(bytes@.take(at as int)),
            first < ADLER_BASE,
            second < ADLER_BASE,
        decreases bytes@.len() - at,
    {
        proof {
            assert(bytes@.take(at + 1).drop_last() =~= bytes@.take(at as int));
            assert(bytes@.take(at + 1).last() == bytes@[at as int]);
        }
        first = (first + bytes[at] as u32) % ADLER_BASE;
        second = (second + first) % ADLER_BASE;
        at = at + 1;
    }
    assert(bytes@.take(at as int) =~= bytes@);
    second * 0x1_0000 + first
}

} // verus!
