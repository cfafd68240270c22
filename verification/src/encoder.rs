//! Encoder core with the incremental adaptive model: 32-bit interval
//! arithmetic, carry propagation, renormalization, and code-value selection.
//!
//! Every executable step is pinned to a spec-level model of the coder state
//! (`EncState`), so the whole encoder is a mathematical function of its
//! input; `spec_encode` is that function.
use vstd::arithmetic::div_mod::{
    lemma_div_is_ordered, lemma_div_is_ordered_by_denominator, lemma_fundamental_div_mod,
    lemma_fundamental_div_mod_converse, lemma_small_mod,
};
use vstd::arithmetic::mul::{
    lemma_mul_inequality, lemma_mul_is_associative, lemma_mul_is_distributive_sub,
    lemma_mul_upper_bound,
};
use vstd::arithmetic::power2::{
    lemma2_to64, lemma_pow2_pos, lemma_pow2_strictly_increases, lemma_pow2_unfold, pow2,
};
use vstd::prelude::*;

use crate::bits;
use crate::bits::bit_mask;
use crate::bits::BIT;

verus! {

/// Top of the 32-bit register range: the interval is renormalized while its
/// length is below this bound.
pub const HALF: u32 = 0x8000_0000;

/// A compressed artifact: the exact number of valid leading bits in `data`,
/// and the payload bytes (trailing bits past `len` are padding).
#[derive(Debug)]
pub struct EncodedData {
    pub len: usize,
    pub data: Vec<u8>,
}

/// The encoder's working state: interval base `b`, interval length `l`, bit
/// cursor `t` into the tail byte of the output, and the output bytes `d`.
pub ghost struct EncState {
    pub b: u32,
    pub l: u32,
    pub t: int,
    pub d: Seq<u8>,
}

/// Truncation to 32 bits.
pub open spec fn wrap32(x: int) -> u32 {
    (x % 0x1_0000_0000) as u32
}

/// The scale factor `floor((2^32 - 1) / cm)` shared by encoder and decoder.
pub open spec fn spec_scale(cm: int) -> int
    recommends
        cm >= 1,
{
    (0xffff_ffff as int) / cm
}

/// The interval offset of a cumulative count `c`: `floor(l * c * scale / 2^32)`.
pub open spec fn spec_offset(l: u32, c: u32, scale: int) -> int {
    (l as int * c as int * scale) / 0x1_0000_0000
}

/// The arithmetic weight of carry position `t` within a byte.  Position 8
/// (a spent cursor, no bit of the tail byte written yet) weighs a full byte:
/// the carry goes straight into bit 0 of the previous byte.
pub open spec fn carry_mask(t: int) -> int {
    if t == 8 {
        256
    } else {
        bit_mask(t) as int
    }
}

/// Adding 1 into bit `t` of the last byte of `d`, with the carry rippling
/// backward through the buffer; a carry out of the first byte is dropped.
pub open spec fn spec_carry(d: Seq<u8>, t: int) -> Seq<u8>
    decreases d.len(),
{
    if d.len() == 0 {
        d
    } else {
        let s = d.last() as int + carry_mask(t);
        if s < 256 {
            d.update(d.len() - 1, s as u8)
        } else {
            spec_carry(d.drop_last(), 0).push((s - 256) as u8)
        }
    }
}

pub proof fn lemma_spec_carry_len(d: Seq<u8>, t: int)
    ensures
        spec_carry(d, t).len() == d.len(),
    decreases d.len(),
{
    if d.len() > 0 {
        let s = d.last() as int + carry_mask(t);
        if s >= 256 {
            lemma_spec_carry_len(d.drop_last(), 0);
        }
    }
}

/// One renormalization step: open a fresh byte if the cursor is spent, move
/// the cursor down, double the interval, and emit the top bit of the base.
pub open spec fn spec_renorm_step(st: EncState) -> EncState {
    let t1 = if st.t == 0 {
        8int
    } else {
        st.t
    };
    let d1 = if st.t == 0 {
        st.d.push(0u8)
    } else {
        st.d
    };
    let t2 = t1 - 1;
    let d2 = if st.b >= HALF {
        d1.update(d1.len() - 1, d1.last() | bit_mask(t2))
    } else {
        d1
    };
    EncState { b: wrap32(2 * st.b as int), l: wrap32(2 * st.l as int), t: t2, d: d2 }
}

/// Renormalization: repeat the step until the interval length reaches `HALF`.
pub open spec fn spec_renorm(st: EncState) -> EncState
    decreases 0x1_0000_0000 - st.l as int,
        via spec_renorm_decreases
{
    if 0 < st.l < HALF {
        spec_renorm(spec_renorm_step(st))
    } else {
        st
    }
}

#[via_fn]
proof fn spec_renorm_decreases(st: EncState) {
    if 0 < st.l < HALF {
        lemma_small_mod((2 * st.l as int) as nat, 0x1_0000_0000);
        assert(spec_renorm_step(st).l == 2 * st.l as int);
    }
}

/// The bit cursor after code-value selection: one more bit is spent (a
/// spent cursor first resets over a fresh byte).
pub open spec fn spec_code_val_t(t: int) -> int {
    (if t == 0 {
        8int
    } else {
        t
    }) - 1
}

/// The output bytes after code-value selection: a base below `HALF` emits an
/// explicit 1 bit; otherwise a carry is propagated and the final 0 bit is
/// implicit.
pub open spec fn spec_code_val_d(b: u32, t: int, d: Seq<u8>) -> Seq<u8> {
    if b < HALF {
        let d1 = if t == 0 {
            d.push(0u8)
        } else {
            d
        };
        d1.update(d1.len() - 1, d1.last() | bit_mask(spec_code_val_t(t)))
    } else {
        let dc = spec_carry(d, t);
        if t == 0 {
            dc.push(0u8)
        } else {
            dc
        }
    }
}

/// Code-value selection never removes bytes: the output grows by one byte
/// exactly when the cursor was spent.
pub proof fn lemma_code_val_len(b: u32, t: int, d: Seq<u8>)
    requires
        d.len() >= 1,
    ensures
        spec_code_val_d(b, t, d).len() == if t == 0 {
            d.len() + 1
        } else {
            d.len()
        },
{
    lemma_spec_carry_len(d, t);
}

/// Incrementing the count of `symbol`: cumulative entries above it, up to
/// `m`, each grow by 1.
pub open spec fn spec_update_distribution(c: Seq<u32>, symbol: int, m: int) -> Seq<u32> {
    Seq::new(
        c.len(),
        |i: int|
            if symbol < i && i <= m {
                (c[i] as int + 1) as u32
            } else {
                c[i]
            },
    )
}

/// `wrap32` of a value less than `2^33` either keeps it or subtracts one
/// modulus.
pub proof fn lemma_wrap32_split(x: int)
    requires
        0 <= x < 0x2_0000_0000,
    ensures
        wrap32(x) == if x >= 0x1_0000_0000 {
            x - 0x1_0000_0000
        } else {
            x
        },
{
    if x >= 0x1_0000_0000 {
        lemma_fundamental_div_mod_converse(x, 0x1_0000_0000, 1, x - 0x1_0000_0000);
    } else {
        lemma_small_mod(x as nat, 0x1_0000_0000);
    }
}

/// `wrap32` of a difference of 32-bit values adds back one modulus exactly
/// when the difference is negative.
pub proof fn lemma_wrap32_sub(x: int)
    requires
        -0x1_0000_0000 < x < 0x1_0000_0000,
    ensures
        wrap32(x) == if x < 0 {
            x + 0x1_0000_0000
        } else {
            x
        },
{
    if x < 0 {
        vstd::arithmetic::div_mod::lemma_fundamental_div_mod_converse(
            x,
            0x1_0000_0000,
            -1,
            x + 0x1_0000_0000,
        );
    } else {
        lemma_small_mod(x as nat, 0x1_0000_0000);
    }
}

/// Narrow the interval `[b, b + l)` to the subinterval of `letter` under the
/// cumulative table: the new base moves up by `floor(l * C[letter] * scale /
/// 2^32)` (modulo `2^32`; the caller detects the wrap as a carry), and the
/// new length is the width of the symbol's slice.
#[verifier::spinoff_prover]
#[verifier::rlimit(100)]
pub fn adaptive_interval_update(
    letter: u8,
    b: &mut u32,
    l: &mut u32,
    cumulative: &Vec<u32>,
    cm: u64,
    m: usize,
)
    requires
        1 <= m,
        (letter as int) < m,
        m <= cumulative@.len(),
        1 <= cm <= 0x7fff_ffff,
        forall|i: int| 0 <= i < m ==> cumulative@[i] as int <= cm,
        (letter as int) + 1 < m ==> cumulative@[letter as int] <= cumulative@[letter as int + 1],
    ensures
        ({
            let scale = spec_scale(cm as int);
            let dx = spec_offset(*old(l), cumulative@[letter as int], scale);
            let dy = if letter as int == m - 1 {
                *old(l) as int
            } else {
                spec_offset(*old(l), cumulative@[letter as int + 1], scale)
            };
            &&& *final(b) == wrap32(*old(b) + dx)
            &&& *final(l) as int == dy - dx
            &&& 0 <= dx
            &&& dx <= dy
            &&& dy <= *old(l) as int
            &&& ((*old(l) >= HALF && (letter as int) + 1 < m && cumulative@[letter as int]
                < cumulative@[letter as int + 1]) ==> dy - dx >= 1)
            &&& ((*old(l) >= 1 && letter as int == m - 1) ==> dy - dx >= 1)
        }),
{
    let ghost l0 = *l as int;
    let ghost b0 = *b as int;
    let scale: u64 = 0xffff_ffffu64 / cm;
    proof {
        lemma_fundamental_div_mod(0xffff_ffff, cm as int);
        assert(cm as int * spec_scale(cm as int) <= 0xffff_ffff);
        lemma_fundamental_div_mod_converse(0xffff_ffff, 0x7fff_ffff, 2, 1);
        lemma_div_is_ordered_by_denominator(0xffff_ffff, cm as int, 0x7fff_ffff);
        assert(scale >= 2);
    }
    let ghost sc = scale as int;
    proof {
        // Any cumulative entry `c <= cm` keeps `c * scale` within 32 bits,
        // so the 64-bit products below cannot overflow.
        assert forall|c: u32| c as int <= cm as int implies #[trigger] (c as int * sc)
            <= 0xffff_ffff by {
            lemma_mul_inequality(c as int, cm as int, sc);
        }
        assert forall|c: u32| c as int <= cm as int implies #[trigger] (l0 * (c as int) * sc)
            <= (0xffff_ffff as int) * 0xffff_ffff by {
            lemma_mul_is_associative(l0, c as int, sc);
            lemma_mul_inequality(c as int * sc, 0xffff_ffff, l0);
            lemma_mul_inequality(l0, 0xffff_ffff, 0xffff_ffff);
        }
    }
    let c_lo: u32 = cumulative[letter as usize];
    let top = letter as usize == m - 1;
    let y: u32 = if top {
        b.wrapping_add(*l)
    } else {
        let c_hi: u32 = cumulative[letter as usize + 1];
        proof {
            lemma_mul_upper_bound(l0, 0xffff_ffff, c_hi as int, 0x7fff_ffff);
        }
        let temp: u64 = (*l as u64) * (c_hi as u64) * scale;
        proof {
            lemma_mul_is_associative(l0, c_hi as int, sc);
            assert(temp >> 32u64 == temp / 0x1_0000_0000) by (bit_vector);
            lemma_div_is_ordered(temp as int, (0xffff_ffff as int) * 0xffff_ffff, 0x1_0000_0000);
        }
        b.wrapping_add((temp >> 32u64) as u32)
    };
    proof {
        lemma_mul_upper_bound(l0, 0xffff_ffff, c_lo as int, 0x7fff_ffff);
    }
    let temp: u64 = (*l as u64) * (c_lo as u64) * scale;
    proof {
        lemma_mul_is_associative(l0, c_lo as int, sc);
        assert(temp >> 32u64 == temp / 0x1_0000_0000) by (bit_vector);
        lemma_div_is_ordered(temp as int, (0xffff_ffff as int) * 0xffff_ffff, 0x1_0000_0000);
    }
    let x: u32 = b.wrapping_add((temp >> 32u64) as u32);
    proof {
        let dx = spec_offset(*old(l), cumulative@[letter as int], sc);
        let dy = if letter as int == m - 1 {
            l0
        } else {
            spec_offset(*old(l), cumulative@[letter as int + 1], sc)
        };
        assert(dx == temp as int / 0x1_0000_0000);
        // dx <= dy, and dy <= l, so the new length is dy - dx >= 0.
        if top {
            // temp <= l * (2^32 - 1), whose quotient by 2^32 is l - 1.
            lemma_mul_inequality(c_lo as int * sc, 0xffff_ffff, l0);
            if l0 >= 1 {
                lemma_fundamental_div_mod_converse(
                    l0 * 0xffff_ffff,
                    0x1_0000_0000,
                    l0 - 1,
                    0x1_0000_0000 - l0,
                );
                lemma_div_is_ordered(temp as int, l0 * 0xffff_ffff, 0x1_0000_0000);
                assert(dx <= l0 - 1);
            } else {
                assert(l0 == 0);
                assert(temp as int == 0) by {
                    lemma_mul_is_associative(l0, c_lo as int, sc);
                }
                assert(dx == 0);
            }
        } else {
            let c_hi = cumulative@[letter as int + 1];
            lemma_mul_inequality(c_lo as int, c_hi as int, l0);
            lemma_mul_inequality(l0 * c_lo as int, l0 * c_hi as int, sc);
            lemma_div_is_ordered(l0 * c_lo as int * sc, l0 * c_hi as int * sc, 0x1_0000_0000);
            lemma_mul_inequality(c_hi as int * sc, 0xffff_ffff, l0);
            lemma_mul_is_associative(l0, c_hi as int, sc);
            assert(l0 * c_hi as int * sc <= l0 * 0xffff_ffff) by {
                lemma_mul_is_associative(l0, c_hi as int, sc);
                lemma_mul_inequality(c_hi as int * sc, 0xffff_ffff, l0);
            }
            if l0 >= 1 {
                lemma_fundamental_div_mod_converse(
                    l0 * 0xffff_ffff,
                    0x1_0000_0000,
                    l0 - 1,
                    0x1_0000_0000 - l0,
                );
                lemma_div_is_ordered(l0 * c_hi as int * sc, l0 * 0xffff_ffff, 0x1_0000_0000);
                assert(dy <= l0 - 1);
            } else {
                assert(dy <= l0);
            }
            if *old(l) >= HALF && c_lo < c_hi {
                // The slice is at least one scale unit wide: the products
                // differ by at least l * scale >= 2^32, so the quotients
                // differ by at least 1.
                let a1 = l0 * c_lo as int * sc;
                let a2 = l0 * c_hi as int * sc;
                lemma_mul_inequality(c_lo as int + 1, c_hi as int, l0);
                lemma_mul_is_distributive_sub(l0, c_hi as int, c_lo as int);
                lemma_mul_inequality(1, c_hi as int - c_lo as int, l0);
                lemma_mul_inequality(l0 * (c_hi as int - c_lo as int), l0 * (c_hi as int - c_lo as int), sc);
                lemma_mul_is_distributive_sub(sc, l0 * c_hi as int, l0 * c_lo as int);
                assert(a2 - a1 == (l0 * c_hi as int - l0 * c_lo as int) * sc) by {
                    lemma_mul_is_associative(l0, c_hi as int, sc);
                    lemma_mul_is_associative(l0, c_lo as int, sc);
                    lemma_mul_is_distributive_sub(sc, l0 * c_hi as int, l0 * c_lo as int);
                }
                assert(l0 * (c_hi as int - c_lo as int) >= l0) by {
                    lemma_mul_inequality(1, c_hi as int - c_lo as int, l0);
                }
                assert((l0 * (c_hi as int - c_lo as int)) * sc >= l0 * sc) by {
                    lemma_mul_inequality(l0, l0 * (c_hi as int - c_lo as int), sc);
                }
                assert(l0 * sc >= 0x8000_0000 * 2) by {
                    lemma_mul_inequality(0x8000_0000, l0, sc);
                    lemma_mul_inequality(2, sc, 0x8000_0000);
                }
                assert(a2 - a1 >= 0x1_0000_0000) by {
                    lemma_mul_is_distributive_sub(sc, l0 * c_hi as int, l0 * c_lo as int);
                    lemma_mul_is_associative(l0, c_hi as int, sc);
                    lemma_mul_is_associative(l0, c_lo as int, sc);
                }
                lemma_fundamental_div_mod(a1, 0x1_0000_0000);
                lemma_fundamental_div_mod_converse(
                    a1 + 0x1_0000_0000,
                    0x1_0000_0000,
                    a1 / 0x1_0000_0000 + 1,
                    a1 % 0x1_0000_0000,
                );
                lemma_div_is_ordered(a1 + 0x1_0000_0000, a2, 0x1_0000_0000);
                assert(dy >= dx + 1);
            }
        }
        // Pin the wrapped results to the model values.
        lemma_wrap32_split(b0 + dx);
        lemma_wrap32_split(b0 + dy);
        assert(y == wrap32(b0 + dy));
        assert(x == wrap32(b0 + dx));
    }
    *b = x;
    *l = y.wrapping_sub(x);
    proof {
        let dx = spec_offset(*old(l), cumulative@[letter as int], sc);
        let dy = if letter as int == m - 1 {
            l0
        } else {
            spec_offset(*old(l), cumulative@[letter as int + 1], sc)
        };
        lemma_wrap32_split(b0 + dx);
        lemma_wrap32_split(b0 + dy);
        assert(*l as int == dy - dx);
    }
}

/// Add 1 into bit `curr_bit` of the last byte of `compressed`, rippling the
/// carry backward through earlier bytes as far as it reaches.
pub fn propagate_carry(curr_bit: usize, compressed: &mut Vec<u8>)
    requires
        curr_bit <= 8,
    ensures
        final(compressed)@ == spec_carry(old(compressed)@, curr_bit as int),
{
    let ghost orig = compressed@;
    let mut i: usize = compressed.len();
    let mut t: usize = curr_bit;
    let mut done = false;
    if t == 8 {
        // No bit of the tail byte is written yet, so the carry enters bit 0
        // of the byte before it and leaves the tail byte itself unchanged.
        if i > 0 {
            i = i - 1;
            t = 0;
            proof {
                let n = orig.len() as int;
                assert(orig.take(n) =~= orig);
                assert(orig.take(n).drop_last() =~= orig.take(n - 1));
                assert(spec_carry(orig.take(n - 1), 0).push(orig.last()) + orig.skip(n) =~= spec_carry(
                    orig.take(n - 1),
                    0,
                ) + orig.skip(n - 1));
            }
        } else {
            done = true;
        }
    } else {
        proof {
            let n = orig.len() as int;
            assert(orig.take(n) =~= orig);
            assert(spec_carry(orig.take(n), t as int) + orig.skip(n) =~= spec_carry(
                orig,
                t as int,
            ));
        }
    }
    while i > 0 && !done
        invariant
            !done ==> t < 8,
            i <= compressed@.len(),
            compressed@.len() == orig.len(),
            forall|j: int| 0 <= j < i ==> compressed@[j] == orig[j],
            done ==> spec_carry(orig, curr_bit as int) == compressed@,
            !done ==> spec_carry(orig, curr_bit as int) == spec_carry(
                compressed@.take(i as int),
                t as int,
            ) + compressed@.skip(i as int),
        decreases i,
    {
        let ghost pre = compressed@;
        i = i - 1;
        let mut byte = compressed[i];
        let carry = bits::propagate_carry(&mut byte, t);
        compressed[i] = byte;
        proof {
            let ii = i as int;
            assert(pre.take(ii + 1).last() == pre[ii]);
            assert(pre.take(ii + 1).drop_last() =~= pre.take(ii));
            assert(compressed@.take(ii) =~= pre.take(ii));
            assert(compressed@.skip(ii + 1) =~= pre.skip(ii + 1));
            if carry {
                assert(spec_carry(pre.take(ii + 1), t as int) == spec_carry(pre.take(ii), 0).push(
                    byte,
                ));
                assert(spec_carry(compressed@.take(ii), 0).push(byte) + compressed@.skip(ii + 1)
                    =~= spec_carry(compressed@.take(ii), 0) + compressed@.skip(ii));
            } else {
                assert(spec_carry(pre.take(ii + 1), t as int) =~= pre.take(ii + 1).update(ii, byte));
                assert(pre.take(ii + 1).update(ii, byte) + pre.skip(ii + 1) =~= compressed@);
            }
        }
        if carry {
            t = 0;
        } else {
            done = true;
        }
    }
    proof {
        if !done {
            assert(compressed@.take(0) =~= Seq::<u8>::empty());
            assert(spec_carry(compressed@.take(0), t as int) + compressed@.skip(0) =~= compressed@);
        }
    }
}

/// Renormalize the interval: while its length is below `HALF`, double both
/// registers and emit the top bit of the base into the output buffer.
pub fn encoder_renormalization(b: &mut u32, l: &mut u32, t: &mut usize, d: &mut Vec<u8>)
    requires
        *old(t) <= 8,
        *old(l) >= 1,
        old(d)@.len() > 0,
    ensures
        ({
            let st = spec_renorm(
                EncState { b: *old(b), l: *old(l), t: *old(t) as int, d: old(d)@ },
            );
            &&& *final(b) == st.b
            &&& *final(l) == st.l
            &&& *final(t) == st.t
            &&& final(d)@ == st.d
        }),
        *final(t) <= 8,
        *final(l) >= HALF,
        final(d)@.len() > 0,
{
    let ghost st0 = EncState { b: *b, l: *l, t: *t as int, d: d@ };
    while *l < HALF
        invariant
            *t <= 8,
            *l >= 1,
            d@.len() > 0,
            spec_renorm(st0) == spec_renorm(EncState { b: *b, l: *l, t: *t as int, d: d@ }),
        decreases 0x1_0000_0000 - *l as int,
    {
        let ghost pre = EncState { b: *b, l: *l, t: *t as int, d: d@ };
        bits::check_last_byte_full(t, d);
        *t = *t - 1;
        proof {
            let lv = *l;
            let bv = *b;
            assert((lv << 1u32) as int == (2 * lv as int) % 0x1_0000_0000) by (bit_vector);
            assert((bv << 1u32) as int == (2 * bv as int) % 0x1_0000_0000) by (bit_vector);
            assert(lv < 0x8000_0000 ==> (lv << 1u32) as int == 2 * lv as int) by (bit_vector);
        }
        *l = *l << 1u32;
        if *b >= HALF {
            bits::push_bit_into_compressed(t, BIT::ONE, d);
        } else {
            bits::push_bit_into_compressed(t, BIT::ZERO, d);
        }
        *b = *b << 1u32;
        proof {
            assert(EncState { b: *b, l: *l, t: *t as int, d: d@ } == spec_renorm_step(pre));
            assert(spec_renorm(pre) == spec_renorm(spec_renorm_step(pre)));
        }
    }
}

/// Select the code value after the last symbol: emit one more bit (explicit
/// 1, or a carry with an implicit 0) so the stream prefix identifies the
/// final interval.
pub fn code_value_selection(b: u32, t: &mut usize, d: &mut Vec<u8>)
    requires
        *old(t) <= 8,
        old(d)@.len() > 0,
    ensures
        *final(t) == spec_code_val_t(*old(t) as int),
        final(d)@ == spec_code_val_d(b, *old(t) as int, old(d)@),
        *final(t) <= 7,
        final(d)@.len() > 0,
{
    if b < HALF {
        bits::check_last_byte_full(t, d);
        *t = *t - 1;
        bits::push_bit_into_compressed(t, BIT::ONE, d);
    } else {
        propagate_carry(*t, d);
        proof {
            lemma_spec_carry_len(old(d)@, *old(t) as int);
        }
        bits::check_last_byte_full(t, d);
        *t = *t - 1;
    }
}

/// Validity of the adaptive model after `k` symbols: `m + 1` entries
/// starting at 0, strictly increasing, with total `m + k` (every symbol
/// started with count 1 and each processed symbol added 1).
pub open spec fn model_valid(c: Seq<u32>, m: int, k: int) -> bool {
    &&& c.len() == m + 1
    &&& c[0] == 0
    &&& c[m] as int == m + k
    &&& forall|i: int, j: int| 0 <= i <= j && j <= m ==> c[i] <= c[j]
    &&& forall|i: int| 0 <= i < m ==> #[trigger] c[i] < c[i + 1]
}

/// Updating the distribution for one more symbol keeps the model valid and
/// grows the total by 1.
#[verifier::spinoff_prover]
#[verifier::rlimit(100)]
pub proof fn lemma_model_update(c: Seq<u32>, m: int, k: int, s: int)
    requires
        model_valid(c, m, k),
        0 <= s < m,
        m + k + 1 <= u32::MAX,
    ensures
        model_valid(spec_update_distribution(c, s, m), m, k + 1),
{
    reveal(model_valid);
    let c1 = spec_update_distribution(c, s, m);
    assert forall|i: int, j: int| 0 <= i <= j && j <= m implies c1[i] <= c1[j] by {
        assert(c[i] <= c[j]);
    }
    assert forall|i: int| 0 <= i < m implies #[trigger] c1[i] < c1[i + 1] by {
        assert(c[i] < c[i + 1]);
    }
}

/// One encoder symbol step: narrow the interval, propagate a carry if the
/// base wrapped, then renormalize.
#[verifier::opaque]
pub open spec fn spec_enc_sym(st: EncState, c: Seq<u32>, letter: u8, cm: int, m: int) -> EncState {
    let scale = spec_scale(cm);
    let dx = spec_offset(st.l, c[letter as int], scale);
    let dy = if letter as int == m - 1 {
        st.l as int
    } else {
        spec_offset(st.l, c[letter as int + 1], scale)
    };
    let b1 = wrap32(st.b as int + dx);
    let l1 = wrap32(dy - dx);
    let d1 = if b1 < st.b {
        spec_carry(st.d, st.t)
    } else {
        st.d
    };
    spec_renorm(EncState { b: b1, l: l1, t: st.t, d: d1 })
}

/// Run the encoder over `data`, updating the adaptive model after each
/// symbol; `k0` is the number of symbols already processed.
pub open spec fn spec_enc_run(st: EncState, c: Seq<u32>, data: Seq<u8>, k0: int, m: int) -> (
    EncState,
    Seq<u32>,
)
    decreases data.len(),
{
    if data.len() == 0 {
        (st, c)
    } else {
        let st1 = spec_enc_sym(st, c, data[0], k0 + 1 + m, m);
        let c1 = spec_update_distribution(c, data[0] as int, m);
        spec_enc_run(st1, c1, data.skip(1), k0 + 1, m)
    }
}

/// The initial encoder state: empty interval registers over one zero byte.
pub open spec fn spec_enc_init() -> EncState {
    EncState { b: 0, l: 0xffff_ffffu32, t: 8, d: seq![0u8] }
}

/// The whole encoder as a function of its input: run all symbols from the
/// initial state, then select the code value.
#[verifier::opaque]
pub open spec fn spec_encode(data: Seq<u8>, c: Seq<u32>, m: int) -> (EncState, Seq<u32>) {
    let (st, c1) = spec_enc_run(spec_enc_init(), c, data, 0, m);
    (
        EncState {
            b: st.b,
            l: st.l,
            t: spec_code_val_t(st.t),
            d: spec_code_val_d(st.b, st.t, st.d),
        },
        c1,
    )
}

/// The number of bits committed in a coder state.
pub open spec fn spec_bits(st: EncState) -> int {
    (st.d.len() as int - 1) * 8 + 8 - st.t
}

/// The uniform table (entry `i` holds `i`) is a valid model with no symbols
/// processed.
pub proof fn lemma_model_init(c: Seq<u32>, m: int)
    requires
        1 <= m <= 256,
        c.len() == m + 1,
        forall|i: int| 0 <= i <= m ==> c[i] == i as u32,
    ensures
        model_valid(c, m, 0),
{
    reveal(model_valid);
}

/// Bounds that a valid model puts on the entries the coder reads: every
/// entry below `m` stays under the running total `k + 1 + m`, entries are
/// ordered, and entries above `letter` have room to grow.
pub proof fn lemma_model_bounds(c: Seq<u32>, m: int, k: int, letter: int, n: int)
    requires
        model_valid(c, m, k),
        0 <= letter < m,
        k < n,
        n + m + 1 <= 0x7fff_ffff,
    ensures
        forall|i: int| 0 <= i < m ==> c[i] as int <= k + 1 + m,
        letter + 1 < m ==> c[letter] <= c[letter + 1],
        forall|i: int| letter < i && i <= m ==> c[i] < u32::MAX,
{
    reveal(model_valid);
    assert forall|i: int| 0 <= i < m implies c[i] as int <= k + 1 + m by {
        assert(c[i] <= c[m]);
    }
    assert forall|i: int| letter < i && i <= m implies c[i] < u32::MAX by {
        assert(c[i] <= c[m]);
    }
}

/// One full symbol step of the encoder loop: the post-step state is the
/// model's `spec_enc_sym`, the updated table stays valid, and at most 31
/// bits were emitted.
pub proof fn lemma_enc_loop_step(
    data: Seq<u8>,
    c_pre: Seq<u32>,
    m: int,
    n: int,
    k: int,
    st_pre: EncState,
    st2: EncState,
    st3: EncState,
    c_post: Seq<u32>,
)
    requires
        0 <= k < n,
        n == data.len(),
        1 <= m <= 256,
        n + m + 1 <= 0x7fff_ffff,
        forall|i: int| 0 <= i < n ==> (data[i] as int) < m,
        model_valid(c_pre, m, k),
        st_pre.l >= HALF,
        0 <= st_pre.t <= 8,
        st_pre.d.len() >= 1,
        spec_bits(st_pre) <= 31 * k,
        ({
            let cm = k + 1 + m;
            let scale = spec_scale(cm);
            let letter = data[k];
            let dx = spec_offset(st_pre.l, c_pre[letter as int], scale);
            let dy = if letter as int == m - 1 {
                st_pre.l as int
            } else {
                spec_offset(st_pre.l, c_pre[letter as int + 1], scale)
            };
            &&& st2.b == wrap32(st_pre.b as int + dx)
            &&& st2.l as int == dy - dx
            &&& st2.t == st_pre.t
            &&& st2.d == (if st2.b < st_pre.b {
                spec_carry(st_pre.d, st_pre.t)
            } else {
                st_pre.d
            })
            &&& dx <= dy
            &&& dy <= st_pre.l as int
            &&& ((st_pre.l >= HALF && (letter as int) + 1 < m && c_pre[letter as int]
                < c_pre[letter as int + 1]) ==> dy - dx >= 1)
            &&& ((st_pre.l >= 1 && letter as int == m - 1) ==> dy - dx >= 1)
        }),
        st2.l <= HALF ==> (st3 == spec_renorm(st2) && st3.l >= HALF && 0 <= st3.t <= 8
            && st3.d.len() >= 1),
        st2.l > HALF ==> st3 == st2,
        c_post == spec_update_distribution(c_pre, data[k] as int, m),
    ensures
        model_valid(c_post, m, k + 1),
        spec_enc_run(st_pre, c_pre, data.skip(k), k, m) == spec_enc_run(
            st3,
            c_post,
            data.skip(k + 1),
            k + 1,
            m,
        ),
        st3.l >= HALF,
        0 <= st3.t <= 8,
        st3.d.len() >= 1,
        spec_bits(st3) <= 31 * (k + 1),
{
    let letter = data[k];
    let cm = k + 1 + m;
    assert(st2.l >= 1) by {
        reveal(model_valid);
        if (letter as int) + 1 < m {
            assert(c_pre[letter as int] < c_pre[letter as int + 1]);
        }
    }
    lemma_spec_carry_len(st_pre.d, st_pre.t);
    assert(st3 == spec_renorm(st2)) by {
        if st2.l > HALF {
            assert(spec_renorm(st2) == st2);
        }
    }
    assert(st3.l >= HALF && 0 <= st3.t <= 8 && st3.d.len() >= 1) by {
        if st2.l > HALF {
            assert(st3 == st2);
        }
    }
    assert(spec_bits(st3) <= 31 * (k + 1)) by {
        lemma2_to64();
        lemma_renorm_props(st2, 0);
        assert(spec_bits(st2) == spec_bits(st_pre));
    }
    assert(spec_enc_sym(st_pre, c_pre, letter, cm, m) == st3) by {
        reveal(spec_enc_sym);
        let scale = spec_scale(cm);
        let dx = spec_offset(st_pre.l, c_pre[letter as int], scale);
        let dy = if letter as int == m - 1 {
            st_pre.l as int
        } else {
            spec_offset(st_pre.l, c_pre[letter as int + 1], scale)
        };
        lemma_small_mod((dy - dx) as nat, 0x1_0000_0000);
        assert(wrap32(dy - dx) == st2.l);
        assert(EncState { b: st2.b, l: st2.l, t: st2.t, d: st2.d } == st2);
    }
    lemma_model_update(c_pre, m, k, letter as int);
    lemma_enc_step(st_pre, c_pre, data, k, m);
}

/// Wrap up a finished encoding run: relate the state after the last symbol
/// to the final artifact that `spec_encode` describes.
pub proof fn lemma_encode_final(
    data: Seq<u8>,
    c0: Seq<u32>,
    m: int,
    st: EncState,
    cf: Seq<u32>,
    tf: int,
    df: Seq<u8>,
)
    requires
        spec_enc_run(spec_enc_init(), c0, data, 0, m) == (st, cf),
        st.d.len() >= 1,
        0 <= st.t <= 8,
        spec_bits(st) <= 31 * data.len(),
        tf == spec_code_val_t(st.t),
        df == spec_code_val_d(st.b, st.t, st.d),
    ensures
        ({
            let (stf, cfx) = spec_encode(data, c0, m);
            &&& cfx == cf
            &&& stf.d == df
            &&& (df.len() as int - 1) * 8 + 8 - tf == spec_bits(stf)
            &&& spec_bits(stf) <= 31 * data.len() + 1
            &&& df.len() >= 1
            &&& 0 <= tf <= 7
            &&& (data.len() == 0 ==> spec_bits(stf) == 1)
        }),
{
    reveal(spec_encode);
    lemma_code_val_len(st.b, st.t, st.d);
    if data.len() == 0 {
        assert(spec_enc_run(spec_enc_init(), c0, data, 0, m) == (spec_enc_init(), c0));
    }
}

/// Unfold one symbol of `spec_enc_run` at position `k` of `data`.
proof fn lemma_enc_step(st: EncState, c: Seq<u32>, data: Seq<u8>, k: int, m: int)
    requires
        0 <= k < data.len(),
    ensures
        spec_enc_run(st, c, data.skip(k), k, m) == spec_enc_run(
            spec_enc_sym(st, c, data[k], k + 1 + m, m),
            spec_update_distribution(c, data[k] as int, m),
            data.skip(k + 1),
            k + 1,
            m,
        ),
{
    assert(data.skip(k)[0] == data[k]);
    assert(data.skip(k).skip(1) =~= data.skip(k + 1));
}

/// Renormalization from a length of at least `pow2(j)` runs at most `31 - j`
/// steps, each emitting one bit.
pub proof fn lemma_renorm_props(st: EncState, j: nat)
    requires
        st.d.len() >= 1,
        0 <= st.t <= 8,
        st.l as nat >= pow2(j),
    ensures
        ({
            let r = spec_renorm(st);
            &&& r.d.len() >= 1
            &&& 0 <= r.t <= 8
            &&& spec_bits(r) <= spec_bits(st) + 31 - j
        }),
    decreases 0x1_0000_0000 - st.l as int,
{
    lemma_pow2_pos(j);
    lemma2_to64();
    if j >= 32 {
        if j > 32 {
            lemma_pow2_strictly_increases(32, j);
        }
        assert(st.l as nat >= pow2(32));
        assert(false);
    }
    if 0 < st.l < HALF {
        let st1 = spec_renorm_step(st);
        if j >= 31 {
            assert(st.l as nat >= pow2(31));
            assert(false);
        }
        lemma_small_mod((2 * st.l as int) as nat, 0x1_0000_0000);
        assert(st1.l == 2 * st.l as int);
        lemma_pow2_unfold(j + 1);
        lemma_renorm_props(st1, j + 1);
        assert(spec_bits(st1) == spec_bits(st) + 1);
    }
}

/// Increment the count of `symbol`: every cumulative entry above it, up to
/// `m`, grows by 1, so the total grows by 1.
pub fn update_distribution(symbol: u8, cumulative: &mut Vec<u32>, m: usize)
    requires
        m < old(cumulative)@.len(),
        forall|i: int|
            (symbol as int) < i && i <= m ==> old(cumulative)@[i] < u32::MAX,
    ensures
        final(cumulative)@ == spec_update_distribution(old(cumulative)@, symbol as int, m as int),
{
    let len = cumulative.len();
    if (symbol as usize) < m {
        let mut i: usize = symbol as usize + 1;
        while i <= m
            invariant
                symbol as int + 1 <= i as int,
                i <= m + 1,
                m < len,
                cumulative@.len() == len,
                len == old(cumulative)@.len(),
                forall|j: int|
                    (symbol as int) < j && j <= m ==> old(cumulative)@[j] < u32::MAX,
                forall|j: int|
                    0 <= j < cumulative@.len() ==> cumulative@[j] == (if (symbol as int) < j && j
                        < i as int {
                        (old(cumulative)@[j] as int + 1) as u32
                    } else {
                        old(cumulative)@[j]
                    }),
            decreases m + 1 - i,
        {
            let v = cumulative[i];
            cumulative[i] = v + 1;
            i = i + 1;
        }
    }
    proof {
        assert(cumulative@ =~= spec_update_distribution(old(cumulative)@, symbol as int, m as int));
    }
}

/// Determinism: the compressed artifact is a function of the input alone,
/// so two results that each meet the encoder's contract for the same input
/// and starting model are byte-identical, with identical bit lengths.
pub proof fn lemma_encode_deterministic(
    data: Seq<u8>,
    c: Seq<u32>,
    m: int,
    len1: int,
    d1: Seq<u8>,
    len2: int,
    d2: Seq<u8>,
)
    requires
        d1 == spec_encode(data, c, m).0.d,
        len1 == spec_bits(spec_encode(data, c, m).0),
        d2 == spec_encode(data, c, m).0.d,
        len2 == spec_bits(spec_encode(data, c, m).0),
    ensures
        d1 == d2,
        len1 == len2,
{
}

/// Run the encoder's per-symbol loop over all of `data`, starting from the
/// initial state, and return the interval registers, cursor and output of
/// the final state.
#[verifier::spinoff_prover]
#[verifier::rlimit(100)]
fn encode_symbols(data: &[u8], cumulative: &mut Vec<u32>, m: usize) -> (r: (u32, u32, usize, Vec<
    u8,
>))
    requires
        1 <= m <= 256,
        old(cumulative)@.len() == m + 1,
        forall|i: int| 0 <= i <= m ==> old(cumulative)@[i] == i as u32,
        forall|i: int| 0 <= i < data@.len() ==> (data@[i] as int) < m,
        data@.len() + m + 1 <= 0x7fff_ffff,
        31 * data@.len() + 16 <= usize::MAX,
    ensures
        ({
            let (st, cf) = spec_enc_run(
                spec_enc_init(),
                old(cumulative)@,
                data@,
                0,
                m as int,
            );
            &&& final(cumulative)@ == cf
            &&& st == EncState { b: r.0, l: r.1, t: r.2 as int, d: r.3@ }
            &&& r.2 <= 8
            &&& r.3@.len() >= 1
            &&& spec_bits(st) <= 31 * data@.len()
        }),
{
    let ghost c0 = cumulative@;
    let mut d: Vec<u8> = Vec::new();
    d.push(0);
    let mut b: u32 = 0;
    let mut l: u32 = u32::MAX;
    let mut t: usize = 8;
    let mut k: usize = 0;
    let n = data.len();
    proof {
        assert(d@ =~= seq![0u8]);
        assert(data@.skip(0) =~= data@);
        lemma_model_init(cumulative@, m as int);
    }
    while k < n
        invariant
            n == data@.len(),
            k <= n,
            1 <= m <= 256,
            forall|i: int| 0 <= i < n ==> (data@[i] as int) < m,
            n + m + 1 <= 0x7fff_ffff,
            31 * n + 16 <= usize::MAX,
            cumulative@.len() == m + 1,
            model_valid(cumulative@, m as int, k as int),
            t <= 8,
            l >= HALF,
            d@.len() >= 1,
            (d@.len() as int - 1) * 8 + 8 - t as int <= 31 * k as int,
            spec_enc_run(spec_enc_init(), c0, data@, 0, m as int) == spec_enc_run(
                EncState { b: b, l: l, t: t as int, d: d@ },
                cumulative@,
                data@.skip(k as int),
                k as int,
                m as int,
            ),
        decreases n - k,
    {
        let ghost st_pre = EncState { b: b, l: l, t: t as int, d: d@ };
        let ghost c_pre = cumulative@;
        let letter = data[k];
        let b_copy = b;
        let cm: u64 = k as u64 + 1 + m as u64;
        proof {
            lemma_model_bounds(cumulative@, m as int, k as int, letter as int, n as int);
        }
        adaptive_interval_update(letter, &mut b, &mut l, cumulative, cm, m);
        if b < b_copy {
            propagate_carry(t, &mut d);
        }
        let ghost st2 = EncState { b: b, l: l, t: t as int, d: d@ };
        if l <= HALF {
            encoder_renormalization(&mut b, &mut l, &mut t, &mut d);
        }
        update_distribution(letter, cumulative, m);
        proof {
            lemma_enc_loop_step(
                data@,
                c_pre,
                m as int,
                n as int,
                k as int,
                st_pre,
                st2,
                EncState { b: b, l: l, t: t as int, d: d@ },
                cumulative@,
            );
        }
        k = k + 1;
    }
    proof {
        assert(spec_enc_run(spec_enc_init(), c0, data@, 0, m as int) == (
            EncState { b: b, l: l, t: t as int, d: d@ },
            cumulative@,
        )) by {
            reveal(spec_enc_run);
            assert(data@.skip(n as int) =~= Seq::<u8>::empty());
        }
    }
    (b, l, t, d)
}

/// Encode `data` over an alphabet of `m` symbols with the incremental
/// adaptive model, starting from the uniform table (all counts 1).  The
/// result is exactly the mathematical function `spec_encode` of the input:
/// the payload bytes, and the count of valid leading bits in them.
#[verifier::spinoff_prover]
#[verifier::rlimit(100)]
pub fn adaptive_encode(data: &[u8], cumulative: &mut Vec<u32>, m: usize) -> (r: EncodedData)
    requires
        1 <= m <= 256,
        old(cumulative)@.len() == m + 1,
        forall|i: int| 0 <= i <= m ==> old(cumulative)@[i] == i as u32,
        forall|i: int| 0 <= i < data@.len() ==> (data@[i] as int) < m,
        data@.len() + m + 1 <= 0x7fff_ffff,
        31 * data@.len() + 16 <= usize::MAX,
    ensures
        ({
            let (stf, cf) = spec_encode(data@, old(cumulative)@, m as int);
            &&& final(cumulative)@ == cf
            &&& r.data@ == stf.d
            &&& r.len as int == spec_bits(stf)
            &&& r.data@.len() >= 1
        }),
        r.len as int <= 31 * data@.len() + 1,
        data@.len() == 0 ==> r.len == 1,
{
    let ghost c0 = cumulative@;
    let (b, l, mut t, mut d) = encode_symbols(data, cumulative, m);
    let ghost st_end = EncState { b: b, l: l, t: t as int, d: d@ };
    code_value_selection(b, &mut t, &mut d);
    proof {
        lemma_encode_final(data@, c0, m as int, st_end, cumulative@, t as int, d@);
    }
    let len = (d.len() - 1) * 8 + 8 - t;
    EncodedData { len, data: d }
}

} // verus!
