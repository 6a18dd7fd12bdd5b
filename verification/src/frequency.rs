//! The fundamental frequency of a pitch class at the reference octave.
//!
//! Frequencies are integers in microhertz. The equal-tempered ratio
//! `2^(step/12)` is applied in fixed point with 24 fractional bits and
//! the final product is rounded to the nearest microhertz (halves up);
//! that fixed-point policy is the contract of `freq`.

use vstd::prelude::*;

use crate::theory::Chroma;
use crate::theory::Tone;

verus! {

/// One, in the 24-fractional-bit fixed-point scale.
pub const FP_ONE: u64 = 0x1000000;

/// One half, in the 24-fractional-bit fixed-point scale.
pub const FP_HALF: u64 = 0x800000;

/// Largest supported reference frequency (microhertz), so that every
/// derived frequency fits comfortably in 64 bits.
pub const MAX_REF_FREQ: u64 = 0x4000000000000;

/// `2^(step/12)` in fixed point with 24 fractional bits, rounded to the
/// nearest integer, for each chromatic step.
pub open spec fn pow2_frac24(step: int) -> int {
    if step == 0 {
        0x1000000
    } else if step == 1 {
        17774841
    } else if step == 2 {
        18831788
    } else if step == 3 {
        19951585
    } else if step == 4 {
        21137968
    } else if step == 5 {
        22394897
    } else if step == 6 {
        23726566
    } else if step == 7 {
        25137421
    } else if step == 8 {
        26632170
    } else if step == 9 {
        28215802
    } else if step == 10 {
        29893600
    } else {
        31671166
    }
}

fn pow2_frac24_of(step: u8) -> (r: u64)
    requires
        step < 12,
    ensures
        r as int == pow2_frac24(step as int),
{
    if step == 0 {
        0x1000000
    } else if step == 1 {
        17774841
    } else if step == 2 {
        18831788
    } else if step == 3 {
        19951585
    } else if step == 4 {
        21137968
    } else if step == 5 {
        22394897
    } else if step == 6 {
        23726566
    } else if step == 7 {
        25137421
    } else if step == 8 {
        26632170
    } else if step == 9 {
        28215802
    } else if step == 10 {
        29893600
    } else {
        31671166
    }
}

/// The fundamental frequency (microhertz) of the pitch class at chromatic
/// step `step`, given the chroma's reference frequency: the reference
/// times `2^(step/12)`, in fixed point, rounded to the nearest microhertz.
pub open spec fn freq_spec(ref_freq: int, step: int) -> int {
    (ref_freq * pow2_frac24(step) + FP_HALF as int) / (FP_ONE as int)
}

/// The ratio table stays between one and two (exclusive) in fixed point.
pub proof fn lemma_pow2_frac24_range(step: int)
    requires
        0 <= step < 12,
    ensures
        0x1000000 <= pow2_frac24(step) < 0x2000000,
{
}

/// A frequency derived from an admissible reference frequency is positive
/// and fits well below 2^52.
pub proof fn lemma_freq_bound(ref_freq: int, step: int)
    requires
        1 <= ref_freq <= MAX_REF_FREQ as int,
        0 <= step < 12,
    ensures
        1 <= freq_spec(ref_freq, step) < 0x10000000000000,
{
    lemma_pow2_frac24_range(step);
    let p = pow2_frac24(step);
    assert(ref_freq * p >= 0x1000000) by (nonlinear_arith)
        requires
            ref_freq >= 1,
            p >= 0x1000000,
    ;
    assert(ref_freq * p <= 0x4000000000000 * 0x2000000) by (nonlinear_arith)
        requires
            1 <= ref_freq <= 0x4000000000000,
            0x1000000 <= p < 0x2000000,
    ;
    assert(freq_spec(ref_freq, step) >= 1) by {
        assert(ref_freq * p + 0x800000 >= 0x1000000);
        assert((ref_freq * p + 0x800000) / 0x1000000 >= 1);
    }
    assert(ref_freq * p + 0x800000 < 0x10000000000000 * 0x1000000);
    assert((ref_freq * p + 0x800000) / 0x1000000 < 0x10000000000000);
}

/// The fundamental frequency of `tone` at the chroma's reference octave.
pub fn freq(chroma: &Chroma, tone: Tone, ref_freq: u64) -> (r: u64)
    requires
        tone.wf(),
        1 <= ref_freq <= MAX_REF_FREQ,
    ensures
        r as int == freq_spec(ref_freq as int, tone@),
{
    let step = chroma.get_number(tone);
    let frac = pow2_frac24_of(step as u8);
    proof {
        lemma_freq_bound(ref_freq as int, tone@);
        assert((ref_freq as int) * (frac as int) <= 0x4000000000000 * 0x2000000)
            by (nonlinear_arith)
            requires
                1 <= (ref_freq as int) <= 0x4000000000000,
                0x1000000 <= (frac as int) && (frac as int) < 0x2000000,
        ;
    }
    let num: u128 = (ref_freq as u128) * (frac as u128) + 0x800000;
    let q: u128 = num / 0x1000000;
    q as u64
}

} // verus!
