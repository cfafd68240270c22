//! Compression entry point built on an occurrence table: per-symbol counts
//! are kept in a flat table over the full byte alphabet and the cumulative
//! distribution is refreshed from their prefix sums, which keeps it in step
//! with the incremental model the decompressor derives.
use vstd::prelude::*;

use crate::encoder;
use crate::encoder::{
    code_value_selection, lemma_enc_loop_step, lemma_encode_final, lemma_model_bounds,
    lemma_model_init, model_valid, spec_bits, spec_enc_init, spec_enc_run, spec_encode,
    spec_update_distribution, EncState, HALF,
};
use crate::helpers;
use crate::helpers::ALPHABET_LEN;

pub use crate::encoder::EncodedData;

verus! {

/// Number of symbols in one block of the occurrence bookkeeping; the block
/// index wraps after this many symbols.
pub const BLOCK_SIZE: usize = 128;

/// Sum of the first `n` occurrence counts.
pub open spec fn sum_occ(occ: Seq<u32>, n: int) -> int
    decreases n,
{
    if n <= 0 {
        0
    } else {
        sum_occ(occ, n - 1) + occ[n - 1]
    }
}

/// Prefix sums grow with their length.
proof fn lemma_sum_occ_mono(occ: Seq<u32>, i: int, j: int)
    requires
        0 <= i <= j,
    ensures
        sum_occ(occ, i) <= sum_occ(occ, j),
    decreases j - i,
{
    if i < j {
        lemma_sum_occ_mono(occ, i, j - 1);
    }
}

/// Incrementing one occurrence count raises exactly the prefix sums that
/// cover it, by 1.
proof fn lemma_sum_occ_update(occ: Seq<u32>, letter: int, i: int)
    requires
        0 <= letter < occ.len(),
        occ[letter] < u32::MAX,
        i <= occ.len(),
    ensures
        sum_occ(occ.update(letter, (occ[letter] + 1) as u32), i) == sum_occ(occ, i) + (if letter
            < i {
            1int
        } else {
            0int
        }),
    decreases i,
{
    if i > 0 {
        lemma_sum_occ_update(occ, letter, i - 1);
    }
}

/// A table of all ones has prefix sum `i` at every length `i`.
proof fn lemma_sum_occ_ones(occ: Seq<u32>, i: int)
    requires
        0 <= i <= occ.len(),
        forall|j: int| 0 <= j < occ.len() ==> occ[j] == 1,
    ensures
        sum_occ(occ, i) == i,
    decreases i,
{
    if i > 0 {
        lemma_sum_occ_ones(occ, i - 1);
    }
}

/// Count one more occurrence of `letter` and advance the block index, which
/// wraps to 0 after `BLOCK_SIZE` symbols.
pub fn update_block(occurences: &mut Vec<u32>, internal_block_index: &mut usize, letter: u8)
    requires
        (letter as int) < old(occurences)@.len(),
        old(occurences)@[letter as int] < u32::MAX,
        *old(internal_block_index) < usize::MAX,
    ensures
        final(occurences)@ == old(occurences)@.update(
            letter as int,
            (old(occurences)@[letter as int] + 1) as u32,
        ),
        *final(internal_block_index) == (if *old(internal_block_index) + 1 > BLOCK_SIZE - 1 {
            0int
        } else {
            *old(internal_block_index) + 1
        }),
{
    let v = occurences[letter as usize];
    occurences[letter as usize] = v + 1;
    *internal_block_index = *internal_block_index + 1;
    if *internal_block_index > BLOCK_SIZE - 1 {
        *internal_block_index = 0;
    }
}

/// Rebuild the cumulative distribution from the occurrence counts: entry
/// `i + 1` becomes the sum of the first `i + 1` counts; entry 0 and entries
/// past the table are untouched.
pub fn update_distribution_block(occurences: &Vec<u32>, cumulative_distribution: &mut Vec<u32>)
    requires
        occurences@.len() < old(cumulative_distribution)@.len(),
        sum_occ(occurences@, occurences@.len() as int) <= u32::MAX,
    ensures
        final(cumulative_distribution)@.len() == old(cumulative_distribution)@.len(),
        forall|i: int|
            1 <= i <= occurences@.len() ==> final(cumulative_distribution)@[i] as int == sum_occ(
                occurences@,
                i,
            ),
        forall|i: int|
            0 <= i < old(cumulative_distribution)@.len() && !(1 <= i <= occurences@.len())
                ==> final(cumulative_distribution)@[i] == old(cumulative_distribution)@[i],
{
    let mut total: u32 = 0;
    let mut i: usize = 0;
    let n = occurences.len();
    while i < n
        invariant
            i <= n,
            n == occurences@.len(),
            n < cumulative_distribution@.len(),
            cumulative_distribution@.len() == old(cumulative_distribution)@.len(),
            sum_occ(occurences@, n as int) <= u32::MAX,
            total as int == sum_occ(occurences@, i as int),
            forall|j: int|
                1 <= j <= i ==> cumulative_distribution@[j] as int == sum_occ(occurences@, j),
            forall|j: int|
                0 <= j < cumulative_distribution@.len() && !(1 <= j <= i)
                    ==> cumulative_distribution@[j] == old(cumulative_distribution)@[j],
        decreases n - i,
    {
        proof {
            lemma_sum_occ_mono(occurences@, i as int + 1, n as int);
        }
        let v = occurences[i];
        total = total + v;
        cumulative_distribution[i + 1] = total;
        i = i + 1;
    }
}

/// The two encoding entry points agree: a result of `compress` and a result
/// of `adaptive_encode` from the uniform table, on the same input, are the
/// same artifact, since both equal `spec_encode` of that input.
pub proof fn lemma_compress_matches_adaptive(
    data: Seq<u8>,
    m: int,
    len1: int,
    d1: Seq<u8>,
    len2: int,
    d2: Seq<u8>,
)
    requires
        ({
            let c0 = Seq::new((m + 1) as nat, |i: int| i as u32);
            &&& d1 == spec_encode(data, c0, m).0.d
            &&& len1 == spec_bits(spec_encode(data, c0, m).0)
            &&& d2 == spec_encode(data, c0, m).0.d
            &&& len2 == spec_bits(spec_encode(data, c0, m).0)
        }),
    ensures
        d1 == d2,
        len1 == len2,
{
}

/// Encode `data` over an alphabet of `alphabet_len` symbols, keeping the
/// model as an occurrence table whose prefix sums are refreshed after every
/// symbol; the distribution this realizes is exactly the incremental model,
/// so the result is the same mathematical function `spec_encode` of the
/// input that `adaptive_encode` computes.
#[verifier::spinoff_prover]
#[verifier::rlimit(100)]
pub fn compress(data: &[u8], alphabet_len: usize) -> (r: EncodedData)
    requires
        1 <= alphabet_len <= 256,
        forall|i: int| 0 <= i < data@.len() ==> (data@[i] as int) < alphabet_len,
        data@.len() + alphabet_len + 1 <= 0x7fff_ffff,
        31 * data@.len() + 16 <= usize::MAX,
    ensures
        ({
            let c0 = Seq::new((alphabet_len + 1) as nat, |i: int| i as u32);
            let (stf, cf) = spec_encode(data@, c0, alphabet_len as int);
            &&& r.data@ == stf.d
            &&& r.len as int == spec_bits(stf)
            &&& r.data@.len() >= 1
        }),
        r.len as int <= 31 * data@.len() + 1,
        data@.len() == 0 ==> r.len == 1,
{
    let m = alphabet_len;
    let ghost c0 = Seq::new((m + 1) as nat, |i: int| i as u32);
    let mut compressed: Vec<u8> = Vec::new();
    compressed.push(0);
    let mut cumulative_distribution = helpers::gen_cumulative();
    let mut begin_interval: u32 = 0;
    let mut len_interval: u32 = u32::MAX;
    let mut curr_bit: usize = 8;
    let mut internal_block_index: usize = 0;
    let mut occurences: Vec<u32> = Vec::new();
    let mut i: usize = 0;
    while i < ALPHABET_LEN
        invariant
            i <= ALPHABET_LEN,
            occurences@.len() == i,
            forall|j: int| 0 <= j < i ==> occurences@[j] == 1,
        decreases ALPHABET_LEN - i,
    {
        occurences.push(1);
        i = i + 1;
    }
    let ghost mut c_model = c0;
    proof {
        assert(compressed@ =~= seq![0u8]);
        assert(data@.skip(0) =~= data@);
        assert forall|j: int| 1 <= j <= ALPHABET_LEN implies cumulative_distribution@[j] as int
            == sum_occ(occurences@, j) by {
            lemma_sum_occ_ones(occurences@, j);
        }
        lemma_sum_occ_ones(occurences@, ALPHABET_LEN as int);
        lemma_model_init(c_model, m as int);
    }
    let n = data.len();
    let mut k: usize = 0;
    while k < n
        invariant
            n == data@.len(),
            k <= n,
            1 <= m <= 256,
            forall|i2: int| 0 <= i2 < n ==> (data@[i2] as int) < m,
            n + m + 1 <= 0x7fff_ffff,
            31 * n + 16 <= usize::MAX,
            c_model.len() == m + 1,
            model_valid(c_model, m as int, k as int),
            occurences@.len() == ALPHABET_LEN,
            internal_block_index <= BLOCK_SIZE - 1,
            cumulative_distribution@.len() == ALPHABET_LEN + 1,
            cumulative_distribution@[0] == 0,
            sum_occ(occurences@, ALPHABET_LEN as int) == ALPHABET_LEN + k,
            forall|j: int|
                1 <= j <= ALPHABET_LEN ==> cumulative_distribution@[j] as int == sum_occ(
                    occurences@,
                    j,
                ),
            forall|j: int| 0 <= j <= m ==> cumulative_distribution@[j] == c_model[j],
            curr_bit <= 8,
            len_interval >= HALF,
            compressed@.len() >= 1,
            (compressed@.len() as int - 1) * 8 + 8 - curr_bit as int <= 31 * k as int,
            spec_enc_run(spec_enc_init(), c0, data@, 0, m as int) == spec_enc_run(
                EncState {
                    b: begin_interval,
                    l: len_interval,
                    t: curr_bit as int,
                    d: compressed@,
                },
                c_model,
                data@.skip(k as int),
                k as int,
                m as int,
            ),
        decreases n - k,
    {
        let ghost st_pre = EncState {
            b: begin_interval,
            l: len_interval,
            t: curr_bit as int,
            d: compressed@,
        };
        let ghost c_pre = c_model;
        let letter = data[k];
        let begin_interval_copy = begin_interval;
        let cumulative_distribution_sum: u64 = k as u64 + m as u64 + 1;
        proof {
            lemma_model_bounds(c_model, m as int, k as int, letter as int, n as int);
        }
        encoder::adaptive_interval_update(
            letter,
            &mut begin_interval,
            &mut len_interval,
            &cumulative_distribution,
            cumulative_distribution_sum,
            m,
        );
        if begin_interval < begin_interval_copy {
            encoder::propagate_carry(curr_bit, &mut compressed);
        }
        let ghost st2 = EncState {
            b: begin_interval,
            l: len_interval,
            t: curr_bit as int,
            d: compressed@,
        };
        if len_interval <= HALF {
            encoder::encoder_renormalization(
                &mut begin_interval,
                &mut len_interval,
                &mut curr_bit,
                &mut compressed,
            );
        }
        let ghost occ_pre = occurences@;
        proof {
            lemma_sum_occ_mono(occurences@, 0, letter as int);
            lemma_sum_occ_mono(occurences@, letter as int + 1, ALPHABET_LEN as int);
        }
        update_block(&mut occurences, &mut internal_block_index, letter);
        proof {
            lemma_sum_occ_update(occ_pre, letter as int, ALPHABET_LEN as int);
            lemma_sum_occ_mono(occurences@, 0, ALPHABET_LEN as int);
        }
        update_distribution_block(&occurences, &mut cumulative_distribution);
        proof {
            c_model = spec_update_distribution(c_pre, letter as int, m as int);
            assert forall|j: int| 0 <= j <= m implies cumulative_distribution@[j] == c_model[j] by {
                if 1 <= j {
                    lemma_sum_occ_update(occ_pre, letter as int, j);
                }
            }
            lemma_enc_loop_step(
                data@,
                c_pre,
                m as int,
                n as int,
                k as int,
                st_pre,
                st2,
                EncState {
                    b: begin_interval,
                    l: len_interval,
                    t: curr_bit as int,
                    d: compressed@,
                },
                c_model,
            );
        }
        k = k + 1;
    }
    let ghost st_end = EncState {
        b: begin_interval,
        l: len_interval,
        t: curr_bit as int,
        d: compressed@,
    };
    code_value_selection(begin_interval, &mut curr_bit, &mut compressed);
    proof {
        assert(spec_enc_run(spec_enc_init(), c0, data@, 0, m as int) == (st_end, c_model)) by {
            reveal(spec_enc_run);
            assert(data@.skip(n as int) =~= Seq::<u8>::empty());
        }
        lemma_encode_final(
            data@,
            c0,
            m as int,
            st_end,
            c_model,
            curr_bit as int,
            compressed@,
        );
    }
    let len = (compressed.len() - 1) * 8 + 8 - curr_bit;
    EncodedData { len, data: compressed }
}

} // verus!
