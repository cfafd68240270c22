//! Decoder core: the symmetric interval search over the same model the
//! encoder used, consuming bits from the compressed buffer.
//!
//! As in the encoder, every executable step is pinned to a spec-level model
//! of the decoder state (`DecState`), so decoding is a mathematical function
//! of the stream; a search that accepts no symbol, or an interval that
//! collapses, is a corrupt stream and yields `None`.
use vstd::arithmetic::power2::{lemma2_to64, pow2};
use vstd::arithmetic::div_mod::lemma_small_mod;
use vstd::prelude::*;

use crate::encoder::{
    lemma_model_bounds, lemma_model_init, lemma_model_update, model_valid, spec_offset,
    spec_scale, spec_update_distribution, update_distribution, wrap32, HALF,
};
use crate::helpers::{first_chunk, get_first_data_chunk};

verus! {

/// The decoder's working state: stream register `v`, interval base `b` and
/// length `l`, and the index `t` of the most recently consumed bit.
pub ghost struct DecState {
    pub v: u32,
    pub b: u32,
    pub l: u32,
    pub t: int,
}

/// Bit `t` of the payload, MSB-first within each byte.
pub open spec fn spec_bit_at(d: Seq<u8>, t: int) -> u32 {
    ((d[t / 8] >> ((7 - (t % 8)) as u8)) & 1) as u32
}

/// One decoder renormalization step: shift the three registers left and pull
/// the next payload bit (an implicit zero past `len`) into `v`.
pub open spec fn spec_dec_renorm_step(st: DecState, d: Seq<u8>, len: int) -> DecState {
    let t1 = st.t + 1;
    let bit = if t1 < len {
        spec_bit_at(d, t1)
    } else {
        0
    };
    DecState {
        v: wrap32(2 * st.v as int) | bit,
        b: wrap32(2 * st.b as int),
        l: wrap32(2 * st.l as int),
        t: t1,
    }
}

/// Decoder renormalization: repeat the step until the interval length
/// reaches `HALF`.
pub open spec fn spec_dec_renorm(st: DecState, d: Seq<u8>, len: int) -> DecState
    decreases 0x1_0000_0000 - st.l as int,
        via spec_dec_renorm_decreases
{
    if 0 < st.l < HALF {
        spec_dec_renorm(spec_dec_renorm_step(st, d, len), d, len)
    } else {
        st
    }
}

#[via_fn]
proof fn spec_dec_renorm_decreases(st: DecState, d: Seq<u8>, len: int) {
    if 0 < st.l < HALF {
        lemma_small_mod((2 * st.l as int) as nat, 0x1_0000_0000);
    }
}

/// The three-case modular test for `v` lying in `[x, y)` when the interval
/// `[b, b + l)` may wrap the 32-bit boundary.
pub open spec fn spec_accept(v: u32, b: u32, x: u32, y: u32) -> bool {
    if v >= b {
        x >= b && x <= v
    } else if x >= b {
        y > v
    } else {
        x < v
    }
}

/// The decoder's search: walk the symbols downward from `s`, keeping the
/// subinterval `[x, y)` of the current candidate, until the test accepts;
/// reaching symbol 0 without acceptance is a corrupt stream.
pub open spec fn spec_search(
    v: u32,
    b: u32,
    l: u32,
    c: Seq<u32>,
    scale: int,
    s: int,
    y: u32,
) -> Option<(int, u32, u32)>
    decreases s,
{
    let x = wrap32(b as int + spec_offset(l, c[s], scale));
    if spec_accept(v, b, x, y) {
        Some((s, x, y))
    } else if s <= 0 {
        None
    } else {
        spec_search(v, b, l, c, scale, s - 1, x)
    }
}

/// One full interval selection: search from the top symbol, then commit the
/// accepted subinterval.  A selection that accepts nothing, or commits an
/// empty interval, is a corrupt stream.
pub open spec fn spec_selection(v: u32, b: u32, l: u32, c: Seq<u32>, scale: int, m: int) -> Option<
    (int, u32, u32),
> {
    match spec_search(v, b, l, c, scale, m - 1, wrap32(b as int + l as int)) {
        None => None,
        Some((s, x, y)) => {
            let l2 = wrap32(y as int - x as int);
            if l2 == 0 {
                None
            } else {
                Some((s, x, l2))
            }
        },
    }
}

/// The modular in-interval test, executable form.
fn accept(v: u32, b: u32, x: u32, y: u32) -> (r: bool)
    ensures
        r == spec_accept(v, b, x, y),
{
    if v >= b {
        x >= b && x <= v
    } else if x >= b {
        y > v
    } else {
        x < v
    }
}

/// The offset `floor(l * c * scale / 2^32)` used by the search, truncated to
/// 32 bits exactly as the interval update truncates it.
fn search_offset(l: u32, c: u32, scale: u64) -> (r: u32)
    requires
        c as int * scale as int <= 0xffff_ffff,
    ensures
        r as int == spec_offset(l, c, scale as int),
{
    proof {
        vstd::arithmetic::mul::lemma_mul_is_associative(l as int, c as int, scale as int);
        vstd::arithmetic::mul::lemma_mul_inequality(
            c as int * scale as int,
            0xffff_ffff,
            l as int,
        );
        vstd::arithmetic::mul::lemma_mul_upper_bound(l as int, 0xffff_ffff, c as int, 0xffff_ffff);
    }
    let temp: u64 = (l as u64) * (c as u64) * scale;
    proof {
        assert(temp >> 32u64 == temp / 0x1_0000_0000) by (bit_vector);
        vstd::arithmetic::div_mod::lemma_div_is_ordered(
            temp as int,
            (0xffff_ffff as int) * 0xffff_ffff,
            0x1_0000_0000,
        );
    }
    (temp >> 32u64) as u32
}

/// Search the cumulative table for the symbol whose subinterval contains
/// `v`, and commit that subinterval; `None` is a corrupt stream, and leaves
/// the interval untouched.
pub fn adaptive_interval_selection(
    v: u32,
    b: &mut u32,
    l: &mut u32,
    cumulative: &Vec<u32>,
    cm: u64,
    m: usize,
) -> (r: Option<u8>)
    requires
        1 <= m <= 256,
        m <= cumulative@.len(),
        1 <= cm <= 0x7fff_ffff,
        forall|i: int| 0 <= i < m ==> cumulative@[i] as int <= cm,
    ensures
        ({
            let sel = spec_selection(
                v,
                *old(b),
                *old(l),
                cumulative@,
                spec_scale(cm as int),
                m as int,
            );
            match r {
                None => sel is None && *final(b) == *old(b) && *final(l) == *old(l),
                Some(letter) => sel matches Some((s, x, l2)) && letter as int == s && *final(b)
                    == x && *final(l) == l2 && 0 <= s < m,
            }
        }),
{
    let scale: u64 = 0xffff_ffffu64 / cm;
    proof {
        vstd::arithmetic::div_mod::lemma_fundamental_div_mod(0xffff_ffff, cm as int);
        assert forall|c: u32| c as int <= cm as int implies #[trigger] (c as int * scale as int)
            <= 0xffff_ffff by {
            vstd::arithmetic::mul::lemma_mul_inequality(c as int, cm as int, scale as int);
        }
    }
    let bb: u32 = *b;
    let ll: u32 = *l;
    let ghost scl = scale as int;
    let mut s: usize = m - 1;
    let off0 = search_offset(ll, cumulative[s], scale);
    let mut x: u32 = bb.wrapping_add(off0);
    let mut y: u32 = bb.wrapping_add(ll);
    let ghost y0 = y;
    proof {
        crate::encoder::lemma_wrap32_split(bb as int + off0 as int);
        crate::encoder::lemma_wrap32_split(bb as int + ll as int);
        assert(x == wrap32(bb as int + spec_offset(ll, cumulative@[s as int], scl)));
        assert(y0 == wrap32(bb as int + ll as int));
    }
    while !accept(v, bb, x, y)
        invariant
            1 <= m <= 256,
            m <= cumulative@.len(),
            s < m,
            1 <= cm <= 0x7fff_ffff,
            scl == scale as int,
            scl == spec_scale(cm as int),
            bb == *old(b),
            ll == *old(l),
            *b == *old(b),
            *l == *old(l),
            y0 == wrap32(bb as int + ll as int),
            forall|i: int| 0 <= i < m ==> cumulative@[i] as int <= cm,
            forall|c: u32|
                c as int <= cm as int ==> #[trigger] (c as int * scale as int) <= 0xffff_ffff,
            x == wrap32(bb as int + spec_offset(ll, cumulative@[s as int], scl)),
            !spec_accept(v, bb, x, y) ==> spec_search(v, bb, ll, cumulative@, scl, m - 1, y0)
                == spec_search(v, bb, ll, cumulative@, scl, s as int, y),
            spec_accept(v, bb, x, y) ==> spec_search(v, bb, ll, cumulative@, scl, m - 1, y0)
                == Some((s as int, x, y)),
        decreases s,
    {
        if s == 0 {
            proof {
                assert(spec_search(v, bb, ll, cumulative@, scl, 0, y) is None);
            }
            return None;
        }
        s = s - 1;
        y = x;
        let off = search_offset(ll, cumulative[s], scale);
        x = bb.wrapping_add(off);
        proof {
            crate::encoder::lemma_wrap32_split(bb as int + off as int);
            assert(x == wrap32(bb as int + spec_offset(ll, cumulative@[s as int], scl)));
        }
    }
    proof {
        crate::encoder::lemma_wrap32_sub(y as int - x as int);
    }
    let l2 = y.wrapping_sub(x);
    if l2 == 0 {
        return None;
    }
    *b = x;
    *l = l2;
    Some(s as u8)
}

/// The search offset without a scale factor, for a static model whose
/// cumulative total is the full register range.
fn search_offset_static(l: u32, c: u32) -> (r: u32)
    ensures
        r as int == spec_offset(l, c, 1),
{
    proof {
        vstd::arithmetic::mul::lemma_mul_upper_bound(l as int, 0xffff_ffff, c as int, 0xffff_ffff);
        vstd::arithmetic::mul::lemma_mul_basics(l as int * c as int);
    }
    let temp: u64 = (l as u64) * (c as u64);
    proof {
        assert(temp >> 32u64 == temp / 0x1_0000_0000) by (bit_vector);
        vstd::arithmetic::div_mod::lemma_div_is_ordered(
            temp as int,
            (0xffff_ffff as int) * 0xffff_ffff,
            0x1_0000_0000,
        );
    }
    (temp >> 32u64) as u32
}

/// Interval selection against a fixed cumulative table whose counts already
/// span the register range, so no scale factor is applied.
pub fn interval_selection(v: u32, b: &mut u32, l: &mut u32, cumulative: &Vec<u32>, m: usize) -> (r:
    Option<u8>)
    requires
        1 <= m <= 256,
        m <= cumulative@.len(),
    ensures
        ({
            let sel = spec_selection(v, *old(b), *old(l), cumulative@, 1, m as int);
            match r {
                None => sel is None && *final(b) == *old(b) && *final(l) == *old(l),
                Some(letter) => sel matches Some((s, x, l2)) && letter as int == s && *final(b)
                    == x && *final(l) == l2 && 0 <= s < m,
            }
        }),
{
    let bb: u32 = *b;
    let ll: u32 = *l;
    let mut s: usize = m - 1;
    let off0 = search_offset_static(ll, cumulative[s]);
    let mut x: u32 = bb.wrapping_add(off0);
    let mut y: u32 = bb.wrapping_add(ll);
    let ghost y0 = y;
    proof {
        crate::encoder::lemma_wrap32_split(bb as int + off0 as int);
        crate::encoder::lemma_wrap32_split(bb as int + ll as int);
        assert(x == wrap32(bb as int + spec_offset(ll, cumulative@[s as int], 1)));
        assert(y0 == wrap32(bb as int + ll as int));
    }
    while !accept(v, bb, x, y)
        invariant
            1 <= m <= 256,
            m <= cumulative@.len(),
            s < m,
            bb == *old(b),
            ll == *old(l),
            *b == *old(b),
            *l == *old(l),
            y0 == wrap32(bb as int + ll as int),
            x == wrap32(bb as int + spec_offset(ll, cumulative@[s as int], 1)),
            !spec_accept(v, bb, x, y) ==> spec_search(v, bb, ll, cumulative@, 1, m - 1, y0)
                == spec_search(v, bb, ll, cumulative@, 1, s as int, y),
            spec_accept(v, bb, x, y) ==> spec_search(v, bb, ll, cumulative@, 1, m - 1, y0) == Some(
                (s as int, x, y),
            ),
        decreases s,
    {
        if s == 0 {
            proof {
                assert(spec_search(v, bb, ll, cumulative@, 1, 0, y) is None);
            }
            return None;
        }
        s = s - 1;
        y = x;
        let off = search_offset_static(ll, cumulative[s]);
        x = bb.wrapping_add(off);
        proof {
            crate::encoder::lemma_wrap32_split(bb as int + off as int);
            assert(x == wrap32(bb as int + spec_offset(ll, cumulative@[s as int], 1)));
        }
    }
    proof {
        crate::encoder::lemma_wrap32_sub(y as int - x as int);
    }
    let l2 = y.wrapping_sub(x);
    if l2 == 0 {
        return None;
    }
    *b = x;
    *l = l2;
    Some(s as u8)
}

/// Decoder renormalization: while the interval is short, shift the
/// registers left and pull the next payload bit into the stream register.
pub fn decoder_renormalization(
    v: &mut u32,
    b: &mut u32,
    l: &mut u32,
    t: &mut usize,
    d: &[u8],
    len: usize,
)
    requires
        *old(l) >= 1,
        len <= 8 * d@.len(),
        *old(t) + 32 <= usize::MAX,
    ensures
        ({
            let st = spec_dec_renorm(
                DecState { v: *old(v), b: *old(b), l: *old(l), t: *old(t) as int },
                d@,
                len as int,
            );
            &&& *final(v) == st.v
            &&& *final(b) == st.b
            &&& *final(l) == st.l
            &&& *final(t) == st.t
        }),
        *final(l) >= HALF,
        *final(t) <= *old(t) + 31,
{
    let ghost st0 = DecState { v: *v, b: *b, l: *l, t: *t as int };
    let ghost mut j: nat = 0;
    proof {
        lemma2_to64();
    }
    while *l < HALF
        invariant
            *l >= 1,
            len <= 8 * d@.len(),
            *t as int == st0.t + j,
            *l as nat >= pow2(j),
            j <= 31,
            st0.t + 32 <= usize::MAX,
            spec_dec_renorm(st0, d@, len as int) == spec_dec_renorm(
                DecState { v: *v, b: *b, l: *l, t: *t as int },
                d@,
                len as int,
            ),
        decreases 0x1_0000_0000 - *l as int,
    {
        let ghost pre = DecState { v: *v, b: *b, l: *l, t: *t as int };
        proof {
            lemma2_to64();
            if j >= 31 {
                assert(pow2(31) == 0x8000_0000);
                assert(false);
            }
            let lv = *l;
            let bv = *b;
            let vv = *v;
            assert((lv << 1u32) as int == (2 * lv as int) % 0x1_0000_0000) by (bit_vector);
            assert((bv << 1u32) as int == (2 * bv as int) % 0x1_0000_0000) by (bit_vector);
            assert((vv << 1u32) as int == (2 * vv as int) % 0x1_0000_0000) by (bit_vector);
            assert(lv < 0x8000_0000 ==> (lv << 1u32) as int == 2 * lv as int) by (bit_vector);
        }
        *b = *b << 1u32;
        *v = *v << 1u32;
        *t = *t + 1;
        if *t < len {
            let byte_index = *t / 8;
            let bit_index = 8 - (*t % 8) - 1;
            let mask = 1u8 << (bit_index as u8);
            let mut bit = mask & d[byte_index];
            bit = bit >> (bit_index as u8);
            proof {
                let db = d@[*t as int / 8];
                let bi = (7 - (*t as int % 8)) as u8;
                assert(bi < 8 ==> (((1u8 << bi) & db) >> bi) == ((db >> bi) & 1)) by (bit_vector);
                assert((db >> bi) & 1 < 2) by (bit_vector);
                let vv2 = *v;
                assert(vv2 | 0 == vv2) by (bit_vector);
            }
            *v = *v | (bit as u32);
        } else {
            proof {
                let vv2 = *v;
                assert(vv2 | 0 == vv2) by (bit_vector);
            }
        }
        *l = *l << 1u32;
        proof {
            j = j + 1;
            assert(pow2(j) == 2 * pow2((j - 1) as nat)) by {
                vstd::arithmetic::power2::lemma_pow2_unfold(j);
            }
            assert(DecState { v: *v, b: *b, l: *l, t: *t as int } == spec_dec_renorm_step(
                pre,
                d@,
                len as int,
            ));
            assert(spec_dec_renorm(pre, d@, len as int) == spec_dec_renorm(
                spec_dec_renorm_step(pre, d@, len as int),
                d@,
                len as int,
            ));
        }
    }
}

/// Run the adaptive decoder for `n` symbols: select, renormalize, update the
/// model; `None` anywhere poisons the whole run as a corrupt stream.
#[verifier::opaque]
pub open spec fn spec_dec_run(
    st: DecState,
    c: Seq<u32>,
    d: Seq<u8>,
    len: int,
    n: int,
    k0: int,
    m: int,
) -> Option<(Seq<u8>, DecState, Seq<u32>)>
    decreases n,
{
    if n <= 0 {
        Some((Seq::empty(), st, c))
    } else {
        match spec_selection(st.v, st.b, st.l, c, spec_scale(k0 + 1 + m), m) {
            None => None,
            Some((s, x, l2)) => {
                let st1 = spec_dec_renorm(DecState { v: st.v, b: x, l: l2, t: st.t }, d, len);
                let c1 = spec_update_distribution(c, s, m);
                match spec_dec_run(st1, c1, d, len, n - 1, k0 + 1, m) {
                    None => None,
                    Some((rest, stf, cf)) => Some((seq![s as u8] + rest, stf, cf)),
                }
            },
        }
    }
}

/// The whole adaptive decoder as a function of the stream: initial register
/// load, then `n` selection steps from the uniform starting model `c`.
#[verifier::opaque]
pub open spec fn spec_adaptive_decode(d: Seq<u8>, len: int, n: int, c: Seq<u32>, m: int) -> Option<
    Seq<u8>,
> {
    let t0 = if len < 32 {
        len - 1
    } else {
        31
    };
    let st0 = DecState { v: first_chunk(d), b: 0, l: 0xffff_ffffu32, t: t0 };
    match spec_dec_run(st0, c, d, len, n, 0, m) {
        None => None,
        Some((out, stf, cf)) => Some(out),
    }
}

/// A failed selection at step `k` poisons the rest of the run.
proof fn lemma_dec_none(
    st: DecState,
    c: Seq<u32>,
    d: Seq<u8>,
    len: int,
    n: int,
    k: int,
    m: int,
)
    requires
        0 <= k < n,
        spec_selection(st.v, st.b, st.l, c, spec_scale(k + 1 + m), m) is None,
    ensures
        spec_dec_run(st, c, d, len, n - k, k, m) is None,
{
    reveal(spec_dec_run);
}

/// One successful decoder step: the run from `k` is the selected symbol
/// followed by the run from `k + 1` on the renormalized state and updated
/// model.
proof fn lemma_dec_loop_step(
    d: Seq<u8>,
    len: int,
    n: int,
    k: int,
    m: int,
    st_pre: DecState,
    c_pre: Seq<u32>,
    s: int,
    x: u32,
    l2: u32,
    st3: DecState,
    c_post: Seq<u32>,
)
    requires
        0 <= k < n,
        1 <= m <= 256,
        n + m + 1 <= 0x7fff_ffff,
        model_valid(c_pre, m, k),
        0 <= s < m,
        spec_selection(st_pre.v, st_pre.b, st_pre.l, c_pre, spec_scale(k + 1 + m), m) == Some(
            (s, x, l2),
        ),
        ({
            let st2 = DecState { v: st_pre.v, b: x, l: l2, t: st_pre.t };
            &&& (st2.l <= HALF ==> st3 == spec_dec_renorm(st2, d, len) && st3.l >= HALF && st3.t
                <= st2.t + 31)
            &&& (st2.l > HALF ==> st3 == st2)
        }),
        c_post == spec_update_distribution(c_pre, s, m),
    ensures
        model_valid(c_post, m, k + 1),
        st3.l >= HALF,
        st3.t <= st_pre.t + 31,
        ({
            let inner = spec_dec_run(st3, c_post, d, len, n - k - 1, k + 1, m);
            spec_dec_run(st_pre, c_pre, d, len, n - k, k, m) == (match inner {
                None => None,
                Some((rest, stf, cf)) => Some((seq![s as u8] + rest, stf, cf)),
            })
        }),
{
    reveal(spec_dec_run);
    lemma_model_update(c_pre, m, k, s);
    let st2 = DecState { v: st_pre.v, b: x, l: l2, t: st_pre.t };
    assert(st3 == spec_dec_renorm(st2, d, len)) by {
        if st2.l > HALF {
            assert(spec_dec_renorm(st2, d, len) == st2);
        }
    }
    assert(st3.l >= HALF && st3.t <= st_pre.t + 31) by {
        if st2.l > HALF {
            assert(st3 == st2);
        }
    }
}

/// Decode `symbols_count` symbols from the first `len` bits of `d` with the
/// incremental adaptive model, starting from the uniform table.  The result
/// is exactly `spec_adaptive_decode`; `None` reports a corrupt stream.
#[verifier::spinoff_prover]
#[verifier::rlimit(100)]
pub fn adaptive_decode(
    len: usize,
    symbols_count: usize,
    d: &[u8],
    cumulative: &mut Vec<u32>,
    m: usize,
) -> (r: Option<Vec<u8>>)
    requires
        1 <= m <= 256,
        old(cumulative)@.len() == m + 1,
        forall|i: int| 0 <= i <= m ==> old(cumulative)@[i] == i as u32,
        1 <= len,
        len <= 8 * d@.len(),
        symbols_count + m + 1 <= 0x7fff_ffff,
        32 * symbols_count + 64 <= usize::MAX,
    ensures
        ({
            let res = spec_adaptive_decode(
                d@,
                len as int,
                symbols_count as int,
                old(cumulative)@,
                m as int,
            );
            match r {
                None => res is None,
                Some(out) => res == Some(out@) && out@.len() == symbols_count,
            }
        }),
{
    let ghost c0 = cumulative@;
    let mut text: Vec<u8> = Vec::new();
    let mut b: u32 = 0;
    let mut l: u32 = u32::MAX;
    let mut v: u32 = get_first_data_chunk(d);
    let mut t: usize = if len < 32 {
        len - 1
    } else {
        31
    };
    let ghost st0 = DecState { v: v, b: b, l: l, t: t as int };
    let ghost total = spec_dec_run(st0, c0, d@, len as int, symbols_count as int, 0, m as int);
    let n = symbols_count;
    let mut k: usize = 0;
    proof {
        lemma_model_init(cumulative@, m as int);
    }
    while k < n
        invariant
            n == symbols_count,
            k <= n,
            1 <= m <= 256,
            n + m + 1 <= 0x7fff_ffff,
            32 * n + 64 <= usize::MAX,
            len <= 8 * d@.len(),
            cumulative@.len() == m + 1,
            model_valid(cumulative@, m as int, k as int),
            l >= 1,
            t as int <= 31 + 31 * k as int,
            text@.len() == k,
            1 <= len,
            c0 == old(cumulative)@,
            st0.v == first_chunk(d@),
            st0.b == 0,
            st0.l == 0xffff_ffffu32,
            st0.t == (if (len as int) < 32 {
                len as int - 1
            } else {
                31int
            }),
            total == spec_dec_run(
                st0,
                c0,
                d@,
                len as int,
                symbols_count as int,
                0,
                m as int,
            ),
            ({
                let inner = spec_dec_run(
                    DecState { v: v, b: b, l: l, t: t as int },
                    cumulative@,
                    d@,
                    len as int,
                    (n - k) as int,
                    k as int,
                    m as int,
                );
                total == (match inner {
                    None => None,
                    Some((rest, stf, cf)) => Some((text@ + rest, stf, cf)),
                })
            }),
        decreases n - k,
    {
        let ghost st_pre = DecState { v: v, b: b, l: l, t: t as int };
        let ghost c_pre = cumulative@;
        let cm: u64 = k as u64 + 1 + m as u64;
        proof {
            lemma_model_bounds(cumulative@, m as int, k as int, 0, n as int);
        }
        let sel = adaptive_interval_selection(v, &mut b, &mut l, cumulative, cm, m);
        match sel {
            None => {
                proof {
                    lemma_dec_none(
                        st_pre,
                        c_pre,
                        d@,
                        len as int,
                        n as int,
                        k as int,
                        m as int,
                    );
                    reveal(spec_adaptive_decode);
                }
                return None;
            },
            Some(letter) => {
                let ghost s = letter as int;
                let ghost x = b;
                let ghost l2 = l;
                let ghost text_pre = text@;
                text.push(letter);
                if l <= HALF {
                    decoder_renormalization(&mut v, &mut b, &mut l, &mut t, d, len);
                }
                proof {
                    assert forall|i: int| (0 as int) < i && i <= m implies cumulative@[i]
                        < u32::MAX by {
                        lemma_model_bounds(cumulative@, m as int, k as int, 0, n as int);
                    }
                }
                update_distribution(letter, cumulative, m);
                proof {
                    lemma_dec_loop_step(
                        d@,
                        len as int,
                        n as int,
                        k as int,
                        m as int,
                        st_pre,
                        c_pre,
                        s,
                        x,
                        l2,
                        DecState { v: v, b: b, l: l, t: t as int },
                        cumulative@,
                    );
                    assert forall|rest2: Seq<u8>| #[trigger] (text@ + rest2) == text_pre + (
                    seq![letter] + rest2) by {
                        assert(text@ + rest2 =~= text_pre + (seq![letter] + rest2));
                    }
                }
            },
        }
        k = k + 1;
    }
    proof {
        reveal(spec_dec_run);
        reveal(spec_adaptive_decode);
        assert(text@ + Seq::<u8>::empty() =~= text@);
    }
    Some(text)
}

/// Run the decoder for `n` symbols against a fixed cumulative table (no
/// scale factor, no model update).
#[verifier::opaque]
pub open spec fn spec_sdec_run(
    st: DecState,
    c: Seq<u32>,
    d: Seq<u8>,
    len: int,
    n: int,
    m: int,
) -> Option<(Seq<u8>, DecState)>
    decreases n,
{
    if n <= 0 {
        Some((Seq::empty(), st))
    } else {
        match spec_selection(st.v, st.b, st.l, c, 1, m) {
            None => None,
            Some((s, x, l2)) => {
                let st1 = spec_dec_renorm(DecState { v: st.v, b: x, l: l2, t: st.t }, d, len);
                match spec_sdec_run(st1, c, d, len, n - 1, m) {
                    None => None,
                    Some((rest, stf)) => Some((seq![s as u8] + rest, stf)),
                }
            },
        }
    }
}

/// The whole static-model decoder as a function of the stream.
#[verifier::opaque]
pub open spec fn spec_decode(d: Seq<u8>, len: int, n: int, c: Seq<u32>, m: int) -> Option<Seq<u8>> {
    let t0 = if len < 32 {
        len
    } else {
        32
    };
    let st0 = DecState { v: first_chunk(d), b: 0, l: 0xffff_ffffu32, t: t0 };
    match spec_sdec_run(st0, c, d, len, n, m) {
        None => None,
        Some((out, stf)) => Some(out),
    }
}

/// A failed static selection poisons the rest of the run.
proof fn lemma_sdec_none(st: DecState, c: Seq<u32>, d: Seq<u8>, len: int, n: int, m: int)
    requires
        n > 0,
        spec_selection(st.v, st.b, st.l, c, 1, m) is None,
    ensures
        spec_sdec_run(st, c, d, len, n, m) is None,
{
    reveal(spec_sdec_run);
}

/// One successful static decoder step.
proof fn lemma_sdec_loop_step(
    d: Seq<u8>,
    len: int,
    n: int,
    m: int,
    st_pre: DecState,
    c: Seq<u32>,
    s: int,
    x: u32,
    l2: u32,
    st3: DecState,
)
    requires
        n > 0,
        spec_selection(st_pre.v, st_pre.b, st_pre.l, c, 1, m) == Some((s, x, l2)),
        ({
            let st2 = DecState { v: st_pre.v, b: x, l: l2, t: st_pre.t };
            &&& (st2.l <= HALF ==> st3 == spec_dec_renorm(st2, d, len) && st3.l >= HALF && st3.t
                <= st2.t + 31)
            &&& (st2.l > HALF ==> st3 == st2)
        }),
    ensures
        st3.l >= HALF,
        st3.t <= st_pre.t + 31,
        ({
            let inner = spec_sdec_run(st3, c, d, len, n - 1, m);
            spec_sdec_run(st_pre, c, d, len, n, m) == (match inner {
                None => None,
                Some((rest, stf)) => Some((seq![s as u8] + rest, stf)),
            })
        }),
{
    reveal(spec_sdec_run);
    let st2 = DecState { v: st_pre.v, b: x, l: l2, t: st_pre.t };
    assert(st3 == spec_dec_renorm(st2, d, len)) by {
        if st2.l > HALF {
            assert(spec_dec_renorm(st2, d, len) == st2);
        }
    }
    assert(st3.l >= HALF && st3.t <= st_pre.t + 31) by {
        if st2.l > HALF {
            assert(st3 == st2);
        }
    }
}

/// Decode `symbols_count` symbols from the first `len` bits of `d` against
/// a fixed cumulative table whose counts span the register range.  The
/// result is exactly `spec_decode`; `None` reports a corrupt stream.
#[verifier::spinoff_prover]
#[verifier::rlimit(100)]
pub fn decode(
    len: usize,
    symbols_count: usize,
    d: &[u8],
    cumulative: &Vec<u32>,
    m: usize,
) -> (r: Option<Vec<u8>>)
    requires
        1 <= m <= 256,
        m <= cumulative@.len(),
        len <= 8 * d@.len(),
        32 * symbols_count + 64 <= usize::MAX,
    ensures
        ({
            let res = spec_decode(d@, len as int, symbols_count as int, cumulative@, m as int);
            match r {
                None => res is None,
                Some(out) => res == Some(out@) && out@.len() == symbols_count,
            }
        }),
{
    let mut text: Vec<u8> = Vec::new();
    let mut b: u32 = 0;
    let mut l: u32 = u32::MAX;
    let mut v: u32 = get_first_data_chunk(d);
    let mut t: usize = if len < 32 {
        len
    } else {
        32
    };
    let ghost st0 = DecState { v: v, b: b, l: l, t: t as int };
    let ghost total = spec_sdec_run(st0, cumulative@, d@, len as int, symbols_count as int, m as int);
    let n = symbols_count;
    let mut k: usize = 0;
    while k < n
        invariant
            n == symbols_count,
            k <= n,
            1 <= m <= 256,
            m <= cumulative@.len(),
            32 * n + 64 <= usize::MAX,
            len <= 8 * d@.len(),
            l >= 1,
            t as int <= 32 + 31 * k as int,
            text@.len() == k,
            st0.v == first_chunk(d@),
            st0.b == 0,
            st0.l == 0xffff_ffffu32,
            st0.t == (if (len as int) < 32 {
                len as int
            } else {
                32int
            }),
            total == spec_sdec_run(
                st0,
                cumulative@,
                d@,
                len as int,
                symbols_count as int,
                m as int,
            ),
            ({
                let inner = spec_sdec_run(
                    DecState { v: v, b: b, l: l, t: t as int },
                    cumulative@,
                    d@,
                    len as int,
                    (n - k) as int,
                    m as int,
                );
                total == (match inner {
                    None => None,
                    Some((rest, stf)) => Some((text@ + rest, stf)),
                })
            }),
        decreases n - k,
    {
        let ghost st_pre = DecState { v: v, b: b, l: l, t: t as int };
        let sel = interval_selection(v, &mut b, &mut l, cumulative, m);
        match sel {
            None => {
                proof {
                    lemma_sdec_none(
                        st_pre,
                        cumulative@,
                        d@,
                        len as int,
                        (n - k) as int,
                        m as int,
                    );
                    reveal(spec_decode);
                }
                return None;
            },
            Some(letter) => {
                let ghost s = letter as int;
                let ghost x = b;
                let ghost l2 = l;
                let ghost text_pre = text@;
                text.push(letter);
                if l <= HALF {
                    decoder_renormalization(&mut v, &mut b, &mut l, &mut t, d, len);
                }
                proof {
                    lemma_sdec_loop_step(
                        d@,
                        len as int,
                        (n - k) as int,
                        m as int,
                        st_pre,
                        cumulative@,
                        s,
                        x,
                        l2,
                        DecState { v: v, b: b, l: l, t: t as int },
                    );
                    assert forall|rest2: Seq<u8>| #[trigger] (text@ + rest2) == text_pre + (
                    seq![letter] + rest2) by {
                        assert(text@ + rest2 =~= text_pre + (seq![letter] + rest2));
                    }
                }
            },
        }
        k = k + 1;
    }
    proof {
        reveal(spec_sdec_run);
        reveal(spec_decode);
        assert(text@ + Seq::<u8>::empty() =~= text@);
    }
    Some(text)
}

} // verus!
