//! An adaptive binary arithmetic coder over a byte alphabet.
//!
//! The encoder keeps a 32-bit interval `[b, b + l)` taken modulo `2^32`,
//! narrows it for each input symbol according to a cumulative-frequency
//! table, and emits the bits fixed by renormalization; a carry in the modular
//! base propagates backward through the bits already written.  The decoder
//! runs the same interval arithmetic in reverse, searching the table for the
//! symbol whose subinterval contains the value read from the stream.  Both
//! sides update the table in step, so no model is transmitted.
use vstd::prelude::*;

pub mod bits;
pub mod compressor;
pub mod decoder;
pub mod decompressor;
pub mod encoder;
pub mod helpers;

use crate::helpers::be_u64;

verus! {

/// Serialize `number` as exactly eight big-endian bytes, for the container
/// header.
pub fn cast_u64_to_bytes(number: u64) -> (bytes: Vec<u8>)
    ensures
        bytes@.len() == 8,
        forall|i: int| 0 <= i < 8 ==> bytes@[i] == crate::helpers::be_byte(number, i),
{
    crate::helpers::cast_u64_to_bytes(number)
}

/// Read a `u64` from exactly eight big-endian bytes of a container header.
pub fn cast_bytes_to_u64(bytes: &[u8]) -> (number: u64)
    requires
        bytes@.len() == 8,
    ensures
        number == crate::helpers::be_u64(bytes@),
{
    crate::helpers::cast_bytes_to_u64(bytes)
}

/// The uniform initial cumulative table for an alphabet of `alphabet_len`
/// symbols: every symbol starts with count 1, so entry `i` is `i`.
pub fn gen_cumulative(alphabet_len: usize) -> (cumulative: Vec<u32>)
    requires
        alphabet_len < u32::MAX as usize,
    ensures
        cumulative@.len() == alphabet_len + 1,
        forall|i: int| 0 <= i <= alphabet_len ==> cumulative@[i] == i as u32,
{
    let mut cumulative: Vec<u32> = Vec::new();
    let mut i: usize = 0;
    while i <= alphabet_len
        invariant
            alphabet_len < u32::MAX as usize,
            i <= alphabet_len + 1,
            cumulative@.len() == i,
            forall|j: int| 0 <= j < i ==> cumulative@[j] == j as u32,
        decreases alphabet_len + 1 - i,
    {
        cumulative.push(i as u32);
        i = i + 1;
    }
    cumulative
}

/// Big-endian byte order round-trip: reading back the eight bytes of
/// `cast_u64_to_bytes` recovers the number.
pub proof fn lemma_be_u64_round_trip(number: u64)
    ensures
        be_u64(Seq::new(8, |i: int| crate::helpers::be_byte(number, i))) == number,
{
    let s = Seq::new(8, |i: int| crate::helpers::be_byte(number, i));
    assert(((((number >> 56u64) as u8) as u64) << 56) | ((((number >> 48u64) as u8) as u64) << 48)
        | ((((number >> 40u64) as u8) as u64) << 40) | ((((number >> 32u64) as u8) as u64) << 32)
        | ((((number >> 24u64) as u8) as u64) << 24) | ((((number >> 16u64) as u8) as u64) << 16)
        | ((((number >> 8u64) as u8) as u64) << 8) | (((number >> 0u64) as u8) as u64)
        == number) by (bit_vector);
    assert(s[0] == (number >> 56u64) as u8);
    assert(s[1] == (number >> 48u64) as u8);
    assert(s[2] == (number >> 40u64) as u8);
    assert(s[3] == (number >> 32u64) as u8);
    assert(s[4] == (number >> 24u64) as u8);
    assert(s[5] == (number >> 16u64) as u8);
    assert(s[6] == (number >> 8u64) as u8);
    assert(s[7] == (number >> 0u64) as u8);
}

} // verus!
