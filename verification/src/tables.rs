//! Quality-driven quantization tables: two 64-entry divisor tables (one
//! for the luma-like channel, one for the two chroma-like channels)
//! derived from a single small quality parameter.

use crate::unit::Unit;
use vstd::prelude::*;

verus! {

/// Base divisor table for the luma-like channel: small divisors at the
/// low-frequency positions, large ones at the high-frequency positions.
pub const LUMA_BASE: [i32; 64] = [
     6,  11,  10,  16,  24,  40,  51,  61,
    12,  12,  14,  19,  26,  58,  60,  55,
    14,  13,  16,  24,  40,  57,  69,  56,
    14,  17,  22,  29,  51,  87,  80,  62,
    18,  22,  37,  56,  68, 109, 103,  77,
    24,  35,  55,  64,  81, 104, 113,  92,
    49,  64,  78,  87, 103, 121, 120, 101,
    72,  92,  95,  98, 112, 100, 103,   9,
];

/// Base divisor table for the chroma-like channels.
pub const CHROMA_BASE: [i32; 64] = [
    17,  18,  24,  47,  99,  99,  99,  99,
    18,  21,  26,  66,  99,  99,  99,  99,
    24,  26,  56,  99,  99,  99,  99,  99,
    47,  66,  99,  99,  99,  99,  99,  99,
    99,  99,  99,  99,  99,  99,  99,  99,
    99,  99,  99,  99,  99,  99,  99,  99,
    99,  99,  99,  99,  99,  99,  99,  99,
    99,  99,  99,  99,  99,  99,  99,  99,
];

/// The quality parameter clamped to the supported 0..=10 range:
/// out-of-range qualities are clamped, not rejected.
pub open spec fn clamp_quality(q: int) -> int {
    if q > 10 {
        10
    } else {
        q
    }
}

/// One base entry scaled for the (already clamped) quality `q`. The
/// factor (10 − q)/5 shrinks divisors monotonically as quality grows;
/// the result is clamped to 1..=127, so a divisor is never zero and
/// always fits one signed byte. Quality 10 gives unit divisors.
pub open spec fn scaled_entry(base: int, q: int) -> int {
    let s = base * (10 - q) / 5;
    if s < 1 {
        1
    } else if s > 127 {
        127
    } else {
        s
    }
}

/// Entry `i` of the luma table at quality `q`.
pub open spec fn luma_entry(q: int, i: int) -> int {
    scaled_entry(LUMA_BASE@[i] as int, clamp_quality(q))
}

/// Entry `i` of the chroma table at quality `q`.
pub open spec fn chroma_entry(q: int, i: int) -> int {
    scaled_entry(CHROMA_BASE@[i] as int, clamp_quality(q))
}

/// Every entry of both base tables lies in 1..=127.
pub proof fn lemma_base_tables_bounds()
    ensures
        forall|i: int| 0 <= i < 64 ==> 1 <= #[trigger] LUMA_BASE@[i] <= 127,
        forall|i: int| 0 <= i < 64 ==> 1 <= #[trigger] CHROMA_BASE@[i] <= 127,
{
}

/// Higher quality never enlarges a divisor, and no divisor is ever
/// outside 1..=127: the scaling law is monotone and never reaches zero.
pub proof fn lemma_scaling_monotone(base: int, q1: int, q2: int)
    requires
        1 <= base <= 127,
        q1 <= q2,
    ensures
        scaled_entry(base, clamp_quality(q1)) >= scaled_entry(base, clamp_quality(q2)),
        1 <= scaled_entry(base, clamp_quality(q2)) <= 127,
{
    let c1 = clamp_quality(q1);
    let c2 = clamp_quality(q2);
    assert(base * (10 - c1) >= base * (10 - c2)) by (nonlinear_arith)
        requires
            1 <= base,
            c1 <= c2,
    ;
    vstd::arithmetic::div_mod::lemma_div_is_ordered(base * (10 - c2), base * (10 - c1), 5);
}

/// Scales one base entry for quality `q`.
fn scale_entry(base: i32, q: i32) -> (r: i32)
    requires
        0 <= q <= 10,
        1 <= base <= 127,
    ensures
        r as int == scaled_entry(base as int, q as int),
{
    proof {
        assert(0 <= base * (10 - q) <= 1270) by (nonlinear_arith)
            requires
                1 <= base <= 127,
                0 <= q <= 10,
        ;
    }
    let s: i32 = base * (10 - q) / 5;
    if s < 1 {
        1
    } else if s > 127 {
        127
    } else {
        s
    }
}

/// Derives the luma and chroma quantization tables from a quality
/// parameter: deterministic, monotone in quality, and never zero.
pub fn from_quality(quality: usize) -> (r: (Unit<i32>, Unit<i32>))
    ensures
        forall|i: int| 0 <= i < 64 ==> (#[trigger] r.0@[i]) as int == luma_entry(
            quality as int,
            i,
        ),
        forall|i: int| 0 <= i < 64 ==> (#[trigger] r.1@[i]) as int == chroma_entry(
            quality as int,
            i,
        ),
{
    proof {
        lemma_base_tables_bounds();
    }
    let q: i32 = if quality > 10 {
        10
    } else {
        quality as i32
    };
    let mut luma: [i32; 64] = [0; 64];
    let mut chroma: [i32; 64] = [0; 64];
    for i in 0..64
        invariant
            0 <= q <= 10,
            q == clamp_quality(quality as int),
            forall|j: int| 0 <= j < i ==> (#[trigger] luma@[j]) as int == scaled_entry(
                LUMA_BASE@[j] as int,
                q as int,
            ),
            forall|j: int| 0 <= j < i ==> (#[trigger] chroma@[j]) as int == scaled_entry(
                CHROMA_BASE@[j] as int,
                q as int,
            ),
    {
        proof {
            lemma_base_tables_bounds();
        }
        luma[i] = scale_entry(LUMA_BASE[i], q);
        chroma[i] = scale_entry(CHROMA_BASE[i], q);
    }
    (Unit::new(luma), Unit::new(chroma))
}

} // verus!
