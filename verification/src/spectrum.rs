//! Spectral representation: a complex spectrum and its per-bin magnitudes.
//!
//! A spectrum holds one complex value per frequency bin, as a pair of
//! integers in a fixed-point scale chosen by the caller, plus the sample
//! rate (microhertz) that produced it. Its magnitude takes the integer
//! square root (rounded down) of `re*re + im*im` per bin, so magnitudes
//! come out in the same scale as the samples and carry no phase.

use vstd::prelude::*;

verus! {

/// One complex frequency-domain sample, a pair of integers in the
/// caller's fixed-point scale.
#[derive(Debug, Clone, Copy, PartialEq, Eq, Structural)]
pub struct ComplexSample {
    pub re: i64,
    pub im: i64,
}

/// Squared modulus of one complex sample, as a mathematical integer.
pub open spec fn modulus_sq(c: ComplexSample) -> int {
    c.re * c.re + c.im * c.im
}

/// `r` is the integer square root, rounded down, of `v`.
pub open spec fn is_isqrt(v: int, r: int) -> bool {
    0 <= r && r * r <= v && v < (r + 1) * (r + 1)
}

/// At most one integer is the rounded-down square root of `v`.
pub proof fn lemma_isqrt_unique(v: int, r1: int, r2: int)
    requires
        is_isqrt(v, r1),
        is_isqrt(v, r2),
    ensures
        r1 == r2,
{
    assert(r1 == r2) by (nonlinear_arith)
        requires
            0 <= r1 && r1 * r1 <= v && v < (r1 + 1) * (r1 + 1),
            0 <= r2 && r2 * r2 <= v && v < (r2 + 1) * (r2 + 1),
    ;
}

/// Integer square root, rounded down: the unique `r` with
/// `r * r <= v < (r + 1) * (r + 1)`.
fn isqrt_u128(v: u128) -> (r: u64)
    ensures
        is_isqrt(v as int, r as int),
{
    let mut lo: u128 = 0;
    let mut hi: u128 = 1u128 << 64;
    proof {
        assert((1u128 << 64) as int == 0x10000000000000000) by (bit_vector);
        assert(0x10000000000000000 * 0x10000000000000000 == u128::MAX as int + 1);
    }
    while hi - lo > 1
        invariant
            0 <= lo < hi <= 0x10000000000000000,
            lo * lo <= v as int,
            (v as int) < hi * hi,
        decreases hi - lo,
    {
        let mid: u128 = lo + (hi - lo) / 2;
        proof {
            assert(lo < mid < hi);
            assert(mid * mid < 0x10000000000000000 * 0x10000000000000000) by (nonlinear_arith)
                requires 0 <= mid < 0x10000000000000000u128,
            ;
        }
        if mid * mid <= v {
            lo = mid;
        } else {
            hi = mid;
        }
    }
    proof {
        assert(lo < 0x10000000000000000);
        assert(hi == lo + 1);
    }
    lo as u64
}

/// A complex-valued spectrum: one sample per frequency bin, with the
/// sample rate (microhertz) used to produce it.
#[derive(Debug)]
pub struct Spectrum {
    inner: Vec<ComplexSample>,
    sample_rate: u64,
}

impl View for Spectrum {
    type V = Seq<ComplexSample>;

    closed spec fn view(&self) -> Seq<ComplexSample> {
        self.inner@
    }
}

impl Spectrum {
    /// Sample rate in microhertz.
    pub closed spec fn rate(&self) -> u64 {
        self.sample_rate
    }

    pub fn new(inner: Vec<ComplexSample>, sample_rate: u64) -> (r: Self)
        ensures
            r@ == inner@,
            r.rate() == sample_rate,
    {
        Self { inner, sample_rate }
    }

    pub fn sample_rate(&self) -> (r: u64)
        ensures
            r == self.rate(),
    {
        self.sample_rate
    }

    pub fn inner(&self) -> (r: &Vec<ComplexSample>)
        ensures
            r@ == self@,
    {
        &self.inner
    }

    /// Element-wise modulus: each bin becomes the rounded-down integer
    /// square root of `re*re + im*im`, in the same scale as the samples;
    /// the bin count and sample rate are preserved.
    pub fn into_magnitude(self) -> (m: Magnitude)
        ensures
            m@.len() == self@.len(),
            m.rate() == self.rate(),
            forall|i: int| 0 <= i < self@.len() ==> is_isqrt(modulus_sq(self@[i]), m@[i] as int),
    {
        let n = self.inner.len();
        let mut out: Vec<u64> = Vec::new();
        let mut j: usize = 0;
        while j < n
            invariant
                n == self@.len(),
                0 <= j <= n,
                out@.len() == j,
                forall|i: int| 0 <= i < j ==> is_isqrt(modulus_sq(self@[i]), out@[i] as int),
            decreases n - j,
        {
            let c = self.inner[j];
            let re = c.re as i128;
            let im = c.im as i128;
            proof {
                assert(0 <= re * re <= 0x40000000000000000000000000000000) by (nonlinear_arith)
                    requires -0x8000000000000000 <= re <= 0x7fffffffffffffff,
                ;
                assert(0 <= im * im <= 0x40000000000000000000000000000000) by (nonlinear_arith)
                    requires -0x8000000000000000 <= im <= 0x7fffffffffffffff,
                ;
            }
            let sq: u128 = ((re * re) as u128) + ((im * im) as u128);
            let r = isqrt_u128(sq);
            proof {
                assert(sq as int == modulus_sq(self@[j as int]));
            }
            out.push(r);
            j += 1;
        }
        Magnitude { inner: out, sample_rate: self.sample_rate }
    }
}

/// Per-bin magnitude values (non-negative scaled integers) with the
/// sample rate of the spectrum they were derived from.
#[derive(Debug)]
pub struct Magnitude {
    pub(crate) inner: Vec<u64>,
    pub(crate) sample_rate: u64,
}

impl View for Magnitude {
    type V = Seq<u64>;

    closed spec fn view(&self) -> Seq<u64> {
        self.inner@
    }
}

impl Magnitude {
    /// Sample rate in microhertz.
    pub closed spec fn rate(&self) -> u64 {
        self.sample_rate
    }

    pub fn new(inner: Vec<u64>, sample_rate: u64) -> (r: Self)
        ensures
            r@ == inner@,
            r.rate() == sample_rate,
    {
        Self { inner, sample_rate }
    }

    pub fn sample_rate(&self) -> (r: u64)
        ensures
            r == self.rate(),
    {
        self.sample_rate
    }

    pub fn inner(&self) -> (r: &Vec<u64>)
        ensures
            r@ == self@,
    {
        &self.inner
    }
}

} // verus!
