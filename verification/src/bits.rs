//! Bit-buffer primitives: setting a single bit of the tail byte, propagating
//! a carry through a byte, and growing the buffer when a byte fills up.
use vstd::prelude::*;

verus! {

/// A single output bit.
pub enum BIT {
    ZERO,
    ONE,
}

/// The mask with only bit `t` set (bit 7 is the most significant).
pub open spec fn bit_mask(t: int) -> u8 {
    1u8 << (t as u8)
}

/// Add 1 into bit `curr_bit` of `byte`, rippling the carry toward bit 7.
/// Returns true when the carry leaves the byte, i.e. the byte wrapped.
pub fn propagate_carry(byte: &mut u8, curr_bit: usize) -> (carry: bool)
    requires
        curr_bit < 8,
    ensures
        *final(byte) as int + (if carry {
            256int
        } else {
            0int
        }) == *old(byte) as int + bit_mask(curr_bit as int) as int,
{
    let inc: u16 = 1u16 << (curr_bit as u16);
    proof {
        let t = curr_bit as u16;
        assert(t < 8 ==> 1u16 << t <= 128) by (bit_vector);
        assert(forall|s: u16| #[trigger] (s & 0xff) < 256) by (bit_vector);
    }
    let sum: u16 = (*byte as u16) + inc;
    *byte = (sum & 0xff) as u8;
    let carry = sum >= 256;
    proof {
        let t = curr_bit as u16;
        let b = *old(byte);
        assert(t < 8 ==> (1u8 << (t as u8)) as u16 == 1u16 << t) by (bit_vector);
        assert(t < 8 ==> (((b as u16 + (1u16 << t)) as u16) & 0xff) as int + (if (b as u16 + (1u16
            << t)) as u16 >= 256 {
            256int
        } else {
            0int
        }) == b as int + (1u16 << t) as int) by (bit_vector);
    }
    carry
}

/// Set bit `curr_bit` of `byte` (bit 7 is the most significant).
pub fn push_bit_into_byte(byte: &mut u8, curr_bit: usize)
    requires
        curr_bit < 8,
    ensures
        *final(byte) == *old(byte) | bit_mask(curr_bit as int),
{
    *byte = *byte | (1u8 << (curr_bit as u8));
}

/// Write a bit at position `curr_bit` of the last byte of `compressed`.
/// Fresh bytes start as zero, so only a ONE needs to be stored.
pub fn push_bit_into_compressed(curr_bit: &mut usize, bit: BIT, compressed: &mut Vec<u8>)
    requires
        *old(curr_bit) < 8,
        old(compressed)@.len() > 0,
    ensures
        *final(curr_bit) == *old(curr_bit),
        final(compressed)@ == (match bit {
            BIT::ONE => old(compressed)@.update(
                old(compressed)@.len() - 1,
                old(compressed)@.last() | bit_mask(*old(curr_bit) as int),
            ),
            BIT::ZERO => old(compressed)@,
        }),
{
    if let BIT::ONE = bit {
        let compressed_len = compressed.len();
        let mut last = compressed[compressed_len - 1];
        push_bit_into_byte(&mut last, *curr_bit);
        compressed[compressed_len - 1] = last;
    }
}

/// When the cursor reaches 0 the tail byte is full: append a fresh zero byte
/// and reset the cursor to 8.
pub fn check_last_byte_full(curr_bit: &mut usize, compressed: &mut Vec<u8>)
    ensures
        *final(curr_bit) == (if *old(curr_bit) == 0 {
            8int
        } else {
            *old(curr_bit) as int
        }),
        final(compressed)@ == (if *old(curr_bit) == 0 {
            old(compressed)@.push(0u8)
        } else {
            old(compressed)@
        }),
{
    if *curr_bit == 0 {
        compressed.push(0);
        *curr_bit = 8;
    }
}

} // verus!
