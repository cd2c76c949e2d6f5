//! CRC-32C (Castagnoli), as stored with every entry.

use vstd::prelude::*;
use vstd::slice::*;

verus! {

/// The reversed Castagnoli polynomial.
pub const POLYNOMIAL: u32 = 0x82F6_3B78;

/// The remainder after one more bit.
pub open spec fn bit_step(remainder: u32) -> u32 {
    if remainder & 1 == 1 {
        (remainder >> 1) ^ POLYNOMIAL
    } else {
        remainder >> 1
    }
}

/// The remainder after `bits` more bits.
pub open spec fn bit_steps(remainder: u32, bits: nat) -> u32
    decreases bits,
{
    if bits == 0 {
        remainder
    } else {
        bit_step(bit_steps(remainder, (bits - 1) as nat))
    }
}

/// The remainder after more bytes.
pub open spec fn remainder_after(remainder: u32, data: Seq<u8>) -> u32
    decreases data.len(),
{
    if data.len() == 0 {
        remainder
    } else {
        bit_steps(remainder_after(remainder, data.drop_last()) ^ (data.last() as u32), 8)
    }
}

/// The checksum of bytes that follow bytes with the checksum `seed`.
pub open spec fn crc32c_from(seed: u32, data: Seq<u8>) -> u32 {
    !remainder_after(!seed, data)
}

/// The checksum of a byte run.
pub open spec fn crc32c(data: Seq<u8>) -> u32 {
    crc32c_from(0, data)
}

/// Bytes can be checked in pieces: the checksum of a piece is the seed of the next.
pub proof fn law_crc32c_in_pieces(seed: u32, a: Seq<u8>, b: Seq<u8>)
    ensures
        crc32c_from(crc32c_from(seed, a), b) == crc32c_from(seed, a + b),
{
    let r = remainder_after(!seed, a);
    assert(!(!r) == r) by (bit_vector);
    lemma_remainder_in_pieces(!seed, a, b);
}

proof fn lemma_remainder_in_pieces(remainder: u32, a: Seq<u8>, b: Seq<u8>)
    ensures
        remainder_after(remainder_after(remainder, a), b) == remainder_after(remainder, a + b),
    decreases b.len(),
{
    if b.len() == 0 {
        assert(a + b =~= a);
    } else {
        lemma_remainder_in_pieces(remainder, a, b.drop_last());
        assert((a + b).drop_last() =~= a + b.drop_last());
        assert((a + b).last() == b.last());
    }
}

/// Checksum `data`, which follows bytes with the checksum `seed`.
pub fn hash_bytes_with_seed(data: &[u8], seed: u32) -> (crc: u32)
    ensures
        crc == crc32c_from(seed, data@),
{
    let mut remainder: u32 = !seed;
    let mut i: usize = 0;
    assert(data@.take(0) =~= Seq::empty());
    while i < data.len()
        invariant
            i <= data@.len(),
            remainder == remainder_after(!seed, data@.take(i as int)),
        decreases data@.len() - i,
    {
        assert(data@.take(i + 1).drop_last() =~= data@.take(i as int));
        remainder = remainder ^ (data[i] as u32);
        let ghost start = remainder;
        let mut bit: usize = 0;
        while bit < 8
            invariant
                bit <= 8,
                remainder == bit_steps(start, bit as nat),
            decreases 8 - bit,
        {
            if remainder & 1 == 1 {
                remainder = (remainder >> 1) ^ POLYNOMIAL;
            } else {
                remainder = remainder >> 1;
            }
            bit += 1;
        }
        i += 1;
    }
    assert(data@.take(i as int) =~= data@);
    !remainder
}

/// Checksum `data`.
pub fn hash_bytes(data: &[u8]) -> (crc: u32)
    ensures
        crc == crc32c(data@),
{
    hash_bytes_with_seed(data, 0)
}

} // verus!
