//! CRC-32C (Castagnoli) with TFRecord's LevelDB-style masking.
//!
//! TFRecord checksums are CRC-32C values run through a masking permutation
//! (inherited from LevelDB) so that a CRC stored alongside the data it covers
//! does not itself look like coverable data:
//! `mask(c) = ((c >> 15) | (c << 17)) + 0xa282ead8` (wrapping).
use vstd::prelude::*;

verus! {

/// A masked CRC-32C checksum as stored on disk in TFRecord framing.
#[derive(Clone, Copy, PartialEq, Eq, Structural, Debug)]
pub struct MaskedCrc(pub u32);

/// Reflected polynomial of CRC-32C (Castagnoli, 0x1EDC6F41).
pub const POLY: u32 = 0x82F63B78;

/// What the masking adds after its rotation.
pub const MASK_DELTA: u32 = 0xa282_ead8;

/// One step of polynomial division: the lowest bit of `crc` shifted out.
pub open spec fn divide_bit(crc: u32, poly: u32) -> u32 {
    if crc & 1 != 0 {
        (crc >> 1) ^ poly
    } else {
        crc >> 1
    }
}

/// Eight steps of polynomial division.
pub open spec fn divide_byte(crc: u32, poly: u32) -> u32 {
    divide_bit(
        divide_bit(
            divide_bit(
                divide_bit(
                    divide_bit(
                        divide_bit(divide_bit(divide_bit(crc, poly), poly), poly),
                        poly,
                    ),
                    poly,
                ),
                poly,
            ),
            poly,
        ),
        poly,
    )
}

/// The division register after `data` was shifted into it from `seed`.
pub open spec fn crc_register(seed: u32, data: Seq<u8>, poly: u32) -> u32
    decreases data.len(),
{
    if data.len() == 0 {
        seed
    } else {
        divide_byte(crc_register(seed, data.drop_last(), poly) ^ (data.last() as u32), poly)
    }
}

/// The CRC-32C of `data`: the register starts at all ones and the result is
/// complemented.
pub open spec fn spec_crc32c(data: Seq<u8>) -> u32 {
    !crc_register(0xFFFF_FFFF, data, POLY)
}

/// A 32-bit rotation by fifteen bits to the right.
pub open spec fn rotated15(crc: u32) -> u32 {
    (crc >> 15) | (crc << 17)
}

/// The masking permutation.
pub open spec fn spec_mask(crc: u32) -> u32 {
    ((rotated15(crc) + MASK_DELTA) % 0x1_0000_0000) as u32
}

/// The masked checksum that framing stores for `data`.
pub open spec fn masked_crc(data: Seq<u8>) -> MaskedCrc {
    MaskedCrc(spec_mask(spec_crc32c(data)))
}

impl MaskedCrc {
    /// Computes the masked CRC-32C of `data`.
    pub fn compute(data: &[u8]) -> (crc: MaskedCrc)
        ensures
            crc == masked_crc(data@),
    {
        MaskedCrc(mask(crc32c(data)))
    }
}

/// Bits above the lowest one only move down: they never trigger the
/// polynomial in this step.
proof fn lemma_divide_high(low: u32, high: u32, poly: u32)
    requires
        high & 1 == 0,
    ensures
        divide_bit(low ^ high, poly) == divide_bit(low, poly) ^ (high >> 1),
{
    assert(high & 1 == 0 ==> divide_bit(low ^ high, poly) == divide_bit(low, poly) ^ (high >> 1))
        by (bit_vector);
}

/// Dividing a register by eight bits only looks its low byte up: the rest is
/// shifted down unchanged.
proof fn lemma_table_lookup(crc: u32, poly: u32)
    ensures
        divide_byte(crc, poly) == (crc >> 8) ^ divide_byte(crc & 0xFF, poly),
{
    let high = crc & 0xFFFF_FF00;
    let l0 = crc & 0xFF;
    let l1 = divide_bit(l0, poly);
    let l2 = divide_bit(l1, poly);
    let l3 = divide_bit(l2, poly);
    let l4 = divide_bit(l3, poly);
    let l5 = divide_bit(l4, poly);
    let l6 = divide_bit(l5, poly);
    let l7 = divide_bit(l6, poly);
    let l8 = divide_bit(l7, poly);
    assert(crc == (crc & 0xFF) ^ (crc & 0xFFFF_FF00)) by (bit_vector);
    let h1 = high >> 1;
    let h2 = h1 >> 1;
    let h3 = h2 >> 1;
    let h4 = h3 >> 1;
    let h5 = h4 >> 1;
    let h6 = h5 >> 1;
    let h7 = h6 >> 1;
    let h8 = h7 >> 1;
    assert(high & 1 == 0 && h1 & 1 == 0 && h2 & 1 == 0 && h3 & 1 == 0 && h4 & 1 == 0 && h5 & 1 == 0
        && h6 & 1 == 0 && h7 & 1 == 0 && h8 == crc >> 8) by (bit_vector)
        requires
            high == crc & 0xFFFF_FF00,
            h1 == high >> 1,
            h2 == h1 >> 1,
            h3 == h2 >> 1,
            h4 == h3 >> 1,
            h5 == h4 >> 1,
            h6 == h5 >> 1,
            h7 == h6 >> 1,
            h8 == h7 >> 1,
    ;
    lemma_divide_high(l0, high, poly);
    lemma_divide_high(l1, h1, poly);
    lemma_divide_high(l2, h2, poly);
    lemma_divide_high(l3, h3, poly);
    lemma_divide_high(l4, h4, poly);
    lemma_divide_high(l5, h5, poly);
    lemma_divide_high(l6, h6, poly);
    lemma_divide_high(l7, h7, poly);
    assert(l8 ^ h8 == h8 ^ l8) by (bit_vector);
}

/// One division step.
fn divide(crc: u32, poly: u32) -> (next: u32)
    ensures
        next == divide_bit(crc, poly),
{
    if crc & 1 != 0 {
        (crc >> 1) ^ poly
    } else {
        crc >> 1
    }
}

/// The lookup-table entry of one byte: eight division steps.
fn table_entry(index: u32, poly: u32) -> (entry: u32)
    ensures
        entry == divide_byte(index, poly),
{
    let half: u32 = divide(divide(divide(divide(index, poly), poly), poly), poly);
    divide(divide(divide(divide(half, poly), poly), poly), poly)
}

/// Builds the lookup table of a polynomial: the division of every byte.
pub fn build_table(poly: u32) -> (table: Vec<u32>)
    ensures
        table@.len() == 256,
        forall|i: int| 0 <= i < 256 ==> table@[i] == divide_byte(i as u32, poly),
{
    let mut table: Vec<u32> = Vec::new();
    let mut i: u32 = 0;
    while i < 256
        invariant
            i <= 256,
            table@.len() == i,
            forall|k: int| 0 <= k < i ==> table@[k] == divide_byte(k as u32, poly),
        decreases 256 - i,
    {
        table.push(table_entry(i, poly));
        i += 1;
    }
    table
}

/// Shifts `data` into the register, one table lookup a byte.
pub fn update_register(seed: u32, data: &[u8], poly: u32) -> (crc: u32)
    ensures
        crc == crc_register(seed, data@, poly),
{
    let mut crc: u32 = seed;
    let mut i: usize = 0;
    // A table pays for itself only where there are more bytes than entries.
    let table: Vec<u32> = if data.len() >= 256 {
        build_table(poly)
    } else {
        Vec::new()
    };
    while i < data.len()
        invariant
            i <= data@.len(),
            table@.len() == 0 || table@.len() == 256,
            forall|k: int| 0 <= k < table@.len() ==> table@[k] == divide_byte(k as u32, poly),
            crc == crc_register(seed, data@.subrange(0, i as int), poly),
        decreases data@.len() - i,
    {
        let mixed: u32 = crc ^ (data[i] as u32);
        let low: u32 = mixed & 0xFF;
        proof {
            assert(mixed & 0xFF < 256) by (bit_vector);
            lemma_table_lookup(mixed, poly);
            let longer = data@.subrange(0, i + 1);
            assert(longer.drop_last() =~= data@.subrange(0, i as int));
            assert(longer.last() == data@[i as int]);
        }
        let entry: u32 = if table.len() == 256 {
            table[low as usize]
        } else {
            table_entry(low, poly)
        };
        crc = (mixed >> 8) ^ entry;
        i += 1;
    }
    assert(data@.subrange(0, data@.len() as int) =~= data@);
    crc
}

/// Computes the (unmasked) CRC-32C of `data`.
pub fn crc32c(data: &[u8]) -> (crc: u32)
    ensures
        crc == spec_crc32c(data@),
{
    !update_register(0xFFFF_FFFF, data, POLY)
}

/// Masks a checksum for storage next to the data it covers.
pub fn mask(crc: u32) -> (masked: u32)
    ensures
        masked == spec_mask(crc),
{
    ((crc >> 15) | (crc << 17)).wrapping_add(MASK_DELTA)
}

/// Masking is injective: two checksums that differ stay different on disk.
pub proof fn law_mask_injective(a: u32, b: u32)
    requires
        spec_mask(a) == spec_mask(b),
    ensures
        a == b,
{
    let x = rotated15(a);
    let y = rotated15(b);
    assert(x == y);
    assert(((a >> 15) | (a << 17)) == ((b >> 15) | (b << 17)) ==> a == b) by (bit_vector);
}

/// A checksum can be computed piece by piece: the register of a
/// concatenation is that of the second part seeded with that of the first.
pub proof fn lemma_register_concat(seed: u32, front: Seq<u8>, back: Seq<u8>, poly: u32)
    ensures
        crc_register(seed, front + back, poly) == crc_register(
            crc_register(seed, front, poly),
            back,
            poly,
        ),
    decreases back.len(),
{
    if back.len() == 0 {
        assert(front + back =~= front);
    } else {
        assert((front + back).drop_last() =~= front + back.drop_last());
        lemma_register_concat(seed, front, back.drop_last(), poly);
    }
}

} // verus!
