//! Shared helpers: big-endian conversions for the container header, the
//! uniform initial cumulative table, and the decoder's initial register load.
use vstd::prelude::*;

verus! {

/// Size of the full byte alphabet.
pub const ALPHABET_LEN: usize = 256;

/// Byte `i` (0 = most significant) of the big-endian encoding of `number`.
pub open spec fn be_byte(number: u64, i: int) -> u8 {
    (number >> (8 * (7 - i)) as u64) as u8
}

/// The `u64` read back from eight big-endian bytes.
pub open spec fn be_u64(s: Seq<u8>) -> u64
    recommends
        s.len() == 8,
{
    ((s[0] as u64) << 56) | ((s[1] as u64) << 48) | ((s[2] as u64) << 40) | ((s[3] as u64) << 32)
        | ((s[4] as u64) << 24) | ((s[5] as u64) << 16) | ((s[6] as u64) << 8) | (s[7] as u64)
}

/// Serialize `number` as exactly eight big-endian bytes.
pub fn cast_u64_to_bytes(number: u64) -> (bytes: Vec<u8>)
    ensures
        bytes@.len() == 8,
        forall|i: int| 0 <= i < 8 ==> bytes@[i] == be_byte(number, i),
{
    let mut bytes: Vec<u8> = vec![0; 8];
    let mut i: usize = 0;
    while i < 8
        invariant
            i <= 8,
            bytes@.len() == 8,
            forall|j: int| 0 <= j < i ==> bytes@[j] == be_byte(number, j),
        decreases 8 - i,
    {
        let shift: u64 = (7 - i as u64) * 8;
        bytes[i] = (number >> shift) as u8;
        assert((number >> (8 * (7 - i as int)) as u64) as u8 == be_byte(number, i as int));
        i = i + 1;
    }
    bytes
}

/// Read a `u64` from exactly eight big-endian bytes.
pub fn cast_bytes_to_u64(bytes: &[u8]) -> (number: u64)
    requires
        bytes@.len() == 8,
    ensures
        number == be_u64(bytes@),
{
    let b0 = bytes[0];
    let b1 = bytes[1];
    let b2 = bytes[2];
    let b3 = bytes[3];
    let b4 = bytes[4];
    let b5 = bytes[5];
    let b6 = bytes[6];
    let b7 = bytes[7];
    ((b0 as u64) << 56u64) | ((b1 as u64) << 48u64) | ((b2 as u64) << 40u64)
        | ((b3 as u64) << 32u64) | ((b4 as u64) << 24u64) | ((b5 as u64) << 16u64)
        | ((b6 as u64) << 8u64) | (b7 as u64)
}

/// The uniform initial cumulative table over the full byte alphabet:
/// every symbol starts with count 1, so entry `i` is `i`.
pub fn gen_cumulative() -> (cumulative: Vec<u32>)
    ensures
        cumulative@.len() == ALPHABET_LEN + 1,
        forall|i: int| 0 <= i <= ALPHABET_LEN ==> cumulative@[i] == i as u32,
{
    let mut cumulative: Vec<u32> = Vec::new();
    let mut i: usize = 0;
    while i <= ALPHABET_LEN
        invariant
            i <= ALPHABET_LEN + 1,
            cumulative@.len() == i,
            forall|j: int| 0 <= j < i ==> cumulative@[j] == j as u32,
        decreases ALPHABET_LEN + 1 - i,
    {
        cumulative.push(i as u32);
        i = i + 1;
    }
    cumulative
}

/// Byte `i` of `s`, or 0 past the end (the decoder zero-pads short input).
pub open spec fn chunk_byte(s: Seq<u8>, i: int) -> u8 {
    if i < s.len() {
        s[i]
    } else {
        0
    }
}

/// The big-endian 32-bit register value formed from the first up-to-four
/// bytes of `s`, zero-padded on the right.
pub open spec fn first_chunk(s: Seq<u8>) -> u32 {
    ((chunk_byte(s, 0) as u32) << 24u32) | ((chunk_byte(s, 1) as u32) << 16u32)
        | ((chunk_byte(s, 2) as u32) << 8u32) | (chunk_byte(s, 3) as u32)
}

/// Load the decoder's initial 32-bit register from the head of the payload.
pub fn get_first_data_chunk(data: &[u8]) -> (chunk: u32)
    ensures
        chunk == first_chunk(data@),
{
    let c0: u8 = if data.len() > 0 {
        data[0]
    } else {
        0
    };
    let c1: u8 = if data.len() > 1 {
        data[1]
    } else {
        0
    };
    let c2: u8 = if data.len() > 2 {
        data[2]
    } else {
        0
    };
    let c3: u8 = if data.len() > 3 {
        data[3]
    } else {
        0
    };
    ((c0 as u32) << 24u32) | ((c1 as u32) << 16u32) | ((c2 as u32) << 8u32) | (c3 as u32)
}

} // verus!
