//! CRC-32C (Castagnoli), computed bit by bit, and the masking applied to a
//! checksum before it is stored.

use vstd::prelude::*;

verus! {

/// The Castagnoli polynomial, bits reversed.
pub const POLY: u32 = 0x82f6_3b78;

/// The constant added to a rotated checksum to mask it.
pub const MASK_DELTA: u32 = 0xa282_ead8;

/// One step of the shift register: the low bit leaves, and the polynomial is
/// folded in where that bit was set.
pub open spec fn shift_bit(x: u32) -> u32 {
    if x & 1 == 1 {
        (x >> 1) ^ POLY
    } else {
        x >> 1
    }
}

/// Eight steps of the shift register.
pub open spec fn shift_byte(x: u32) -> u32 {
    shift_bit(shift_bit(shift_bit(shift_bit(shift_bit(shift_bit(shift_bit(shift_bit(x))))))))
}

/// The register after one more byte of input.
pub open spec fn feed(state: u32, b: u8) -> u32 {
    shift_byte(state ^ (b as u32))
}

/// The register after a run of input bytes.
pub open spec fn feed_all(state: u32, data: Seq<u8>) -> u32
    decreases data.len(),
{
    if data.len() == 0 {
        state
    } else {
        feed(feed_all(state, data.drop_last()), data.last())
    }
}

/// The checksum of some bytes followed by `data`, given the checksum `crc`
/// of those bytes.
pub open spec fn spec_extend(crc: u32, data: Seq<u8>) -> u32 {
    feed_all(crc ^ 0xffff_ffff, data) ^ 0xffff_ffff
}

/// The CRC-32C of `data`.
pub open spec fn spec_value(data: Seq<u8>) -> u32 {
    spec_extend(0, data)
}

/// A checksum rotated right by 15 bits, plus `MASK_DELTA`, modulo 2^32.
pub open spec fn spec_mask(crc: u32) -> u32 {
    let r = (crc >> 15) | (crc << 17);
    if r + MASK_DELTA > u32::MAX {
        (r + MASK_DELTA - 0x1_0000_0000) as u32
    } else {
        (r + MASK_DELTA) as u32
    }
}

/// The inverse of `spec_mask`.
pub open spec fn spec_unmask(masked: u32) -> u32 {
    let r: u32 = if masked < MASK_DELTA {
        (masked + 0x1_0000_0000 - MASK_DELTA) as u32
    } else {
        (masked - MASK_DELTA) as u32
    };
    (r >> 17) | (r << 15)
}

fn step(x: u32) -> (r: u32)
    ensures
        r == shift_bit(x),
{
    if x & 1 == 1 {
        (x >> 1) ^ POLY
    } else {
        x >> 1
    }
}

fn step_byte(state: u32, b: u8) -> (r: u32)
    ensures
        r == feed(state, b),
{
    let x0: u32 = state ^ (b as u32);
    let x1: u32 = step(x0);
    let x2: u32 = step(x1);
    let x3: u32 = step(x2);
    let x4: u32 = step(x3);
    let x5: u32 = step(x4);
    let x6: u32 = step(x5);
    let x7: u32 = step(x6);
    step(x7)
}

/// Continues a checksum over more bytes.
pub fn extend(crc: u32, data: &[u8]) -> (r: u32)
    ensures
        r == spec_extend(crc, data@),
{
    let mut state: u32 = crc ^ 0xffff_ffff;
    let mut i: usize = 0;
    while i < data.len()
        invariant
            i <= data.len(),
            state == feed_all(crc ^ 0xffff_ffff, data@.subrange(0, i as int)),
        decreases data.len() - i,
    {
        proof {
            assert(data@.subrange(0, i + 1).drop_last() =~= data@.subrange(0, i as int));
        }
        state = step_byte(state, data[i]);
        i += 1;
    }
    proof {
        assert(data@.subrange(0, i as int) =~= data@);
    }
    state ^ 0xffff_ffff
}

/// The CRC-32C of `data`.
pub fn value(data: &[u8]) -> (r: u32)
    ensures
        r == spec_value(data@),
{
    extend(0, data)
}

/// Masks a checksum for storage.
pub fn mask(crc: u32) -> (r: u32)
    ensures
        r == spec_mask(crc),
{
    ((crc >> 15) | (crc << 17)).wrapping_add(MASK_DELTA)
}

/// Recovers a checksum from its masked form.
pub fn unmask(masked: u32) -> (r: u32)
    ensures
        r == spec_unmask(masked),
{
    let r: u32 = masked.wrapping_sub(MASK_DELTA);
    (r >> 17) | (r << 15)
}

/// Feeding a run of bytes and then another is feeding the two joined.
pub proof fn lemma_feed_all_concat(state: u32, a: Seq<u8>, b: Seq<u8>)
    ensures
        feed_all(feed_all(state, a), b) == feed_all(state, a + b),
    decreases b.len(),
{
    if b.len() == 0 {
        assert(a + b =~= a);
    } else {
        lemma_feed_all_concat(state, a, b.drop_last());
        assert((a + b).drop_last() =~= a + b.drop_last());
        assert((a + b).last() == b.last());
    }
}

/// Extending the checksum of `a` by `b` gives the checksum of `a` followed
/// by `b`.
pub proof fn lemma_extend_concat(crc: u32, a: Seq<u8>, b: Seq<u8>)
    ensures
        spec_extend(spec_extend(crc, a), b) == spec_extend(crc, a + b),
        spec_extend(spec_value(a), b) == spec_value(a + b),
{
    let s = feed_all(crc ^ 0xffff_ffff, a);
    assert((s ^ 0xffff_ffff) ^ 0xffff_ffff == s) by (bit_vector);
    lemma_feed_all_concat(crc ^ 0xffff_ffff, a, b);
    let s0 = feed_all(0u32 ^ 0xffff_ffff, a);
    assert((s0 ^ 0xffff_ffff) ^ 0xffff_ffff == s0) by (bit_vector);
    lemma_feed_all_concat(0u32 ^ 0xffff_ffff, a, b);
}

/// Unmasking undoes masking.
pub proof fn lemma_unmask_mask(crc: u32)
    ensures
        spec_unmask(spec_mask(crc)) == crc,
{
    let r: u32 = (crc >> 15) | (crc << 17);
    assert(((r >> 17) | (r << 15)) == crc) by (bit_vector)
        requires
            r == (crc >> 15) | (crc << 17),
    ;
}

/// Masking is one-to-one.
pub proof fn lemma_mask_injective(a: u32, b: u32)
    requires
        spec_mask(a) == spec_mask(b),
    ensures
        a == b,
{
    lemma_unmask_mask(a);
    lemma_unmask_mask(b);
}

/// A step of the shift register is one-to-one.
pub proof fn lemma_shift_bit_injective(x: u32, y: u32)
    requires
        shift_bit(x) == shift_bit(y),
    ensures
        x == y,
{
    assert((if x & 1 == 1 {
        (x >> 1) ^ 0x82f6_3b78u32
    } else {
        x >> 1
    }) == (if y & 1 == 1 {
        (y >> 1) ^ 0x82f6_3b78u32
    } else {
        y >> 1
    }) ==> x == y) by (bit_vector);
}

/// Eight steps of the shift register are one-to-one.
pub proof fn lemma_shift_byte_injective(x: u32, y: u32)
    requires
        shift_byte(x) == shift_byte(y),
    ensures
        x == y,
{
    let x1 = shift_bit(x);
    let x2 = shift_bit(x1);
    let x3 = shift_bit(x2);
    let x4 = shift_bit(x3);
    let x5 = shift_bit(x4);
    let x6 = shift_bit(x5);
    let x7 = shift_bit(x6);
    let y1 = shift_bit(y);
    let y2 = shift_bit(y1);
    let y3 = shift_bit(y2);
    let y4 = shift_bit(y3);
    let y5 = shift_bit(y4);
    let y6 = shift_bit(y5);
    let y7 = shift_bit(y6);
    lemma_shift_bit_injective(x7, y7);
    lemma_shift_bit_injective(x6, y6);
    lemma_shift_bit_injective(x5, y5);
    lemma_shift_bit_injective(x4, y4);
    lemma_shift_bit_injective(x3, y3);
    lemma_shift_bit_injective(x2, y2);
    lemma_shift_bit_injective(x1, y1);
    lemma_shift_bit_injective(x, y);
}

/// Registers that differ, or bytes that differ, give registers that differ.
pub proof fn lemma_feed_injective(s: u32, b: u8, t: u32, c: u8)
    requires
        (s != t && b == c) || (s == t && b != c),
    ensures
        feed(s, b) != feed(t, c),
{
    let x = s ^ (b as u32);
    let y = t ^ (c as u32);
    assert(x != y) by (bit_vector)
        requires
            (s != t && b == c) || (s == t && b != c),
            x == s ^ (b as u32),
            y == t ^ (c as u32),
    ;
    if shift_byte(x) == shift_byte(y) {
        lemma_shift_byte_injective(x, y);
    }
}

/// Changing one byte of the input changes the register.
pub proof fn lemma_feed_all_detects_change(state: u32, data: Seq<u8>, j: int, b: u8)
    requires
        0 <= j < data.len(),
        b != data[j],
    ensures
        feed_all(state, data.update(j, b)) != feed_all(state, data),
    decreases data.len(),
{
    let changed = data.update(j, b);
    if j == data.len() - 1 {
        assert(changed.drop_last() =~= data.drop_last());
        lemma_feed_injective(
            feed_all(state, data.drop_last()),
            changed.last(),
            feed_all(state, data.drop_last()),
            data.last(),
        );
    } else {
        assert(changed.drop_last() =~= data.drop_last().update(j, b));
        lemma_feed_all_detects_change(state, data.drop_last(), j, b);
        lemma_feed_injective(
            feed_all(state, changed.drop_last()),
            data.last(),
            feed_all(state, data.drop_last()),
            data.last(),
        );
    }
}

/// **One changed byte changes the checksum.** Two inputs of the same
/// length that differ in one byte have different CRC-32C values, and
/// different masked values.
pub proof fn lemma_value_detects_change(data: Seq<u8>, j: int, b: u8)
    requires
        0 <= j < data.len(),
        b != data[j],
    ensures
        spec_value(data.update(j, b)) != spec_value(data),
        spec_mask(spec_value(data.update(j, b))) != spec_mask(spec_value(data)),
{
    let init: u32 = 0u32 ^ 0xffff_ffff;
    lemma_feed_all_detects_change(init, data, j, b);
    let x = feed_all(init, data.update(j, b));
    let y = feed_all(init, data);
    assert(x ^ 0xffff_ffff != y ^ 0xffff_ffff) by (bit_vector)
        requires
            x != y,
    ;
    if spec_mask(spec_value(data.update(j, b))) == spec_mask(spec_value(data)) {
        lemma_mask_injective(spec_value(data.update(j, b)), spec_value(data));
    }
}

} // verus!
