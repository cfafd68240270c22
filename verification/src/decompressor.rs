//! Decompression entry point: build the uniform starting model for the
//! alphabet and run the adaptive decoder over the framed payload.
use vstd::prelude::*;

use crate::decoder;
use crate::decoder::spec_adaptive_decode;

verus! {

/// Decode `letters_count` symbols from the first `bits_count` bits of
/// `data`, building the uniform initial model internally.  The result is
/// exactly `spec_adaptive_decode` from the uniform table; `None` reports a
/// corrupt stream.
pub fn decompress(
    bits_count: usize,
    letters_count: usize,
    data: &[u8],
    alphabet_len: usize,
) -> (r: Option<Vec<u8>>)
    requires
        1 <= alphabet_len <= 256,
        1 <= bits_count,
        bits_count <= 8 * data@.len(),
        letters_count + alphabet_len + 1 <= 0x7fff_ffff,
        32 * letters_count + 64 <= usize::MAX,
    ensures
        ({
            let c0 = Seq::new((alphabet_len + 1) as nat, |i: int| i as u32);
            let res = spec_adaptive_decode(
                data@,
                bits_count as int,
                letters_count as int,
                c0,
                alphabet_len as int,
            );
            match r {
                None => res is None,
                Some(out) => res == Some(out@) && out@.len() == letters_count,
            }
        }),
{
    let mut cumulative = crate::gen_cumulative(alphabet_len);
    proof {
        assert(cumulative@ =~= Seq::new((alphabet_len + 1) as nat, |i: int| i as u32));
    }
    decoder::adaptive_decode(bits_count, letters_count, data, &mut cumulative, alphabet_len)
}

} // verus!
