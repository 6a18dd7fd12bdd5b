//! Chromagram construction: aggregating spectral magnitude into one
//! energy value per pitch class.
//!
//! For each pitch class the factory walks a configurable number of
//! octave and harmonic multiples of the class's fundamental frequency,
//! takes the strongest magnitude inside a window around the matching
//! bin (the window half-width grows with the harmonic number), divides
//! that maximum by the harmonic number, and sums everything up.
//!
//! Window policy (part of the contract): the window around a center bin
//! `c` for harmonic `h` is `[c - r*h, c + r*h)`, clamped into the valid
//! bin range `[0, bin_count)`; a window that is empty after clamping
//! contributes zero. Center bins are `round(freq * o * h / bin_hz)`
//! computed in integers, rounding halves up.

use vstd::arithmetic::div_mod::lemma_div_nonincreasing;
use vstd::arithmetic::div_mod::lemma_div_pos_is_pos;
use vstd::arithmetic::div_mod::lemma_fundamental_div_mod;
use vstd::prelude::*;

use crate::frequency::freq;
use crate::frequency::freq_spec;
use crate::frequency::lemma_freq_bound;
use crate::frequency::MAX_REF_FREQ;
use crate::spectrum::Magnitude;
use crate::theory::Chroma;
use crate::theory::Tone;

verus! {

/// Largest supported octave count.
pub const MAX_OCTAVES: usize = 1024;

/// Largest supported harmonic count.
pub const MAX_HARMONICS: usize = 1024;

/// Largest supported window half-width, in bins.
pub const MAX_BIN_RADIUS: usize = 1048576;

/// Largest supported bin count of a magnitude array.
pub const MAX_BINS: u64 = 0x10000000000;

/// Largest supported sample rate, in microhertz.
pub const MAX_SAMPLE_RATE: u64 = 0x4000000000000;

/// Why a chromagram could not be built.
#[derive(Debug, Clone, Copy, PartialEq, Eq, Structural)]
pub enum ChromaError {
    /// The magnitude array held no bins.
    EmptyMagnitude,
    /// The sample rate was zero or above the supported range.
    InvalidSampleRate,
}

/// Configuration of the chromagram aggregation algorithm. Immutable
/// after construction; a default configuration exists.
#[derive(Debug, Clone, Copy)]
pub struct ChromagramFactory {
    /// How many octave multiples of each fundamental are summed.
    pub num_oct: usize,
    /// How many harmonic multiples within each octave are summed.
    pub num_harmonic: usize,
    /// Half-width of the search window, in bins, scaled per harmonic.
    pub r: usize,
    /// Frequency (microhertz) of the chroma's first pitch class at the
    /// reference octave.
    pub ref_freq: u64,
}

impl ChromagramFactory {
    /// An admissible configuration: at least one octave and harmonic,
    /// and every parameter small enough that the bin arithmetic cannot
    /// overflow.
    pub open spec fn wf(&self) -> bool {
        &&& 1 <= self.num_oct <= MAX_OCTAVES
        &&& 1 <= self.num_harmonic <= MAX_HARMONICS
        &&& self.r <= MAX_BIN_RADIUS
        &&& 1 <= self.ref_freq <= MAX_REF_FREQ
    }

    pub fn new(num_oct: usize, num_harmonic: usize, r: usize, ref_freq: u64) -> (f: Self)
        requires
            1 <= num_oct <= MAX_OCTAVES,
            1 <= num_harmonic <= MAX_HARMONICS,
            r <= MAX_BIN_RADIUS,
            1 <= ref_freq <= MAX_REF_FREQ,
        ensures
            f == (ChromagramFactory { num_oct, num_harmonic, r, ref_freq }),
            f.wf(),
    {
        Self { num_oct, num_harmonic, r, ref_freq }
    }
}

impl Default for ChromagramFactory {
    /// Two octaves, two harmonics, window half-width two, and the
    /// conventional frequency of C1 (about 130.81 Hz) as reference.
    fn default() -> (f: Self)
        ensures
            f == (ChromagramFactory {
                num_oct: 2usize,
                num_harmonic: 2usize,
                r: 2usize,
                ref_freq: 130812790u64,
            }),
            f.wf(),
    {
        Self { num_oct: 2, num_harmonic: 2, r: 2, ref_freq: 130812790 }
    }
}

/// The bin whose frequency is nearest to octave multiple `o`, harmonic
/// multiple `h` of the fundamental of chromatic step `step`: the target
/// frequency divided by the bin spacing `sr / nbins`, rounded half up.
pub open spec fn center_bin(
    f: ChromagramFactory,
    sr: int,
    nbins: int,
    step: int,
    o: int,
    h: int,
) -> int {
    (freq_spec(f.ref_freq as int, step) * o * h * nbins + sr / 2) / sr
}

/// Strongest magnitude among bins `[lo, hi)`; zero for an empty window.
pub open spec fn window_max(mag: Seq<u64>, lo: int, hi: int) -> int
    decreases hi - lo,
{
    if lo >= hi {
        0
    } else {
        let prev = window_max(mag, lo, hi - 1);
        if mag[hi - 1] as int > prev {
            mag[hi - 1] as int
        } else {
            prev
        }
    }
}

/// Contribution of one harmonic: the window maximum around its center
/// bin (window clamped into the valid bin range), attenuated by the
/// harmonic number.
pub open spec fn harmonic_term(
    f: ChromagramFactory,
    mag: Seq<u64>,
    sr: int,
    step: int,
    o: int,
    h: int,
) -> int {
    let c = center_bin(f, sr, mag.len() as int, step, o, h);
    let rh = f.r as int * h;
    let lo = if c - rh >= 0 { c - rh } else { 0 };
    let hi = if c + rh <= mag.len() as int { c + rh } else { mag.len() as int };
    window_max(mag, lo, hi) / h
}

/// Sum of the contributions of harmonics `1..=h` at octave `o`.
pub open spec fn harmonic_sum(
    f: ChromagramFactory,
    mag: Seq<u64>,
    sr: int,
    step: int,
    o: int,
    h: int,
) -> int
    decreases h,
{
    if h <= 0 {
        0
    } else {
        harmonic_sum(f, mag, sr, step, o, h - 1) + harmonic_term(f, mag, sr, step, o, h)
    }
}

/// Sum of the harmonic sums of octaves `1..=o`.
pub open spec fn octave_sum(
    f: ChromagramFactory,
    mag: Seq<u64>,
    sr: int,
    step: int,
    o: int,
) -> int
    decreases o,
{
    if o <= 0 {
        0
    } else {
        octave_sum(f, mag, sr, step, o - 1) + harmonic_sum(
            f,
            mag,
            sr,
            step,
            o,
            f.num_harmonic as int,
        )
    }
}

/// The chromagram energy of the pitch class at chromatic step `step`.
pub open spec fn pitch_energy(f: ChromagramFactory, mag: Seq<u64>, sr: int, step: int) -> int {
    octave_sum(f, mag, sr, step, f.num_oct as int)
}

proof fn lemma_window_max_bound(mag: Seq<u64>, lo: int, hi: int, b: int)
    requires
        0 <= lo,
        hi <= mag.len(),
        b >= 0,
        forall|i: int| 0 <= i < mag.len() ==> mag[i] as int <= b,
    ensures
        0 <= window_max(mag, lo, hi) <= b,
    decreases hi - lo,
{
    if lo >= hi {
    } else {
        lemma_window_max_bound(mag, lo, hi - 1, b);
    }
}

proof fn lemma_harmonic_sum_bound(
    f: ChromagramFactory,
    mag: Seq<u64>,
    sr: int,
    step: int,
    o: int,
    h: int,
    b: int,
)
    requires
        h >= 0,
        b >= 0,
        forall|i: int| 0 <= i < mag.len() ==> mag[i] as int <= b,
    ensures
        0 <= harmonic_sum(f, mag, sr, step, o, h) <= h * b,
    decreases h,
{
    if h <= 0 {
    } else {
        lemma_harmonic_sum_bound(f, mag, sr, step, o, h - 1, b);
        let c = center_bin(f, sr, mag.len() as int, step, o, h);
        let rh = f.r as int * h;
        let lo = if c - rh >= 0 { c - rh } else { 0 };
        let hi = if c + rh <= mag.len() as int { c + rh } else { mag.len() as int };
        lemma_window_max_bound(mag, lo, hi, b);
        let wm = window_max(mag, lo, hi);
        lemma_div_pos_is_pos(wm, h);
        lemma_div_nonincreasing(wm, h);
        assert((h - 1) * b + b == h * b) by (nonlinear_arith);
    }
}

proof fn lemma_octave_sum_bound(
    f: ChromagramFactory,
    mag: Seq<u64>,
    sr: int,
    step: int,
    o: int,
    b: int,
)
    requires
        o >= 0,
        b >= 0,
        forall|i: int| 0 <= i < mag.len() ==> mag[i] as int <= b,
    ensures
        0 <= octave_sum(f, mag, sr, step, o) <= o * (f.num_harmonic as int * b),
    decreases o,
{
    if o <= 0 {
    } else {
        lemma_octave_sum_bound(f, mag, sr, step, o - 1, b);
        let hh = f.num_harmonic as int;
        if hh >= 0 {
            lemma_harmonic_sum_bound(f, mag, sr, step, o, hh, b);
        } else {
            assert(harmonic_sum(f, mag, sr, step, o, hh) == 0);
            assert(hh * b <= 0) by (nonlinear_arith)
                requires hh < 0, b >= 0,
            ;
        }
        assert((o - 1) * (hh * b) + hh * b == o * (hh * b)) by (nonlinear_arith);
    }
}

/// Every chromagram energy is non-negative: it is a sum of attenuated
/// window maxima, each of which is at least zero.
pub proof fn lemma_energy_nonneg(f: ChromagramFactory, mag: Seq<u64>, sr: int, step: int)
    requires
        f.wf(),
    ensures
        pitch_energy(f, mag, sr, step) >= 0,
{
    let b = u64::MAX as int;
    assert(forall|i: int| 0 <= i < mag.len() ==> mag[i] as int <= b);
    lemma_octave_sum_bound(f, mag, sr, step, f.num_oct as int, b);
}

/// The chromagram: one aggregated energy value per pitch class of the
/// twelve-tone chroma, indexed by chromatic step. Immutable once built.
#[derive(Debug)]
pub struct Chromagram {
    energies: Vec<u64>,
}

impl View for Chromagram {
    type V = Seq<u64>;

    closed spec fn view(&self) -> Seq<u64> {
        self.energies@
    }
}

impl Chromagram {
    #[verifier::type_invariant]
    spec fn type_inv(&self) -> bool {
        self.energies@.len() == 12
    }

    /// Wrap one energy value per pitch class, indexed by chromatic step.
    pub fn new(energies: Vec<u64>) -> (r: Self)
        requires
            energies@.len() == 12,
        ensures
            r@ == energies@,
    {
        Chromagram { energies }
    }

    /// The aggregated energy of one pitch class.
    pub fn energy(&self, tone: Tone) -> (r: u64)
        requires
            tone.wf(),
        ensures
            r == self@[tone@],
            self@.len() == 12,
    {
        proof {
            use_type_invariant(self);
        }
        self.energies[tone.class() as usize]
    }

    /// The key set: exactly the chroma's pitch classes, in chromatic
    /// order, each exactly once.
    pub fn tones(&self) -> (r: Vec<Tone>)
        ensures
            r@.len() == 12,
            forall|i: int| 0 <= i < 12 ==> r@[i]@ == i,
    {
        let chroma = Chroma;
        chroma.iter()
    }

    /// All (pitch class, energy) pairs, in chromatic order.
    pub fn iter(&self) -> (r: Vec<(Tone, u64)>)
        ensures
            r@.len() == 12,
            self@.len() == 12,
            forall|i: int| 0 <= i < 12 ==> (#[trigger] r@[i]).0@ == i && r@[i].1 == self@[i],
    {
        proof {
            use_type_invariant(self);
        }
        let mut out: Vec<(Tone, u64)> = Vec::new();
        let mut c: u8 = 0;
        while c < 12
            invariant
                self@.len() == 12,
                c <= 12,
                out@.len() == c as int,
                forall|i: int|
                    0 <= i < c as int ==> (#[trigger] out@[i]).0@ == i && out@[i].1 == self@[i],
            decreases 12 - c,
        {
            let t = Tone::new(c);
            let e = self.energies[c as usize];
            let ghost pre = out@;
            out.push((t, e));
            proof {
                assert forall|i: int|
                    0 <= i < c as int + 1 implies ((#[trigger] out@[i]).0@ == i && out@[i].1
                    == self@[i]) by {
                    if i < c as int {
                        assert(out@[i] == pre[i]);
                    } else {
                        assert(out@[i] == (t, e));
                    }
                }
            }
            c += 1;
        }
        out
    }
}

impl ChromagramFactory {
    /// Build the chromagram of `magnitude` over the twelve-tone chroma.
    ///
    /// Succeeds exactly when the magnitude holds at least one bin and
    /// its sample rate is positive and within the supported range; the
    /// resulting energy of each pitch class is pinned to the documented
    /// aggregation formula. The bound on the magnitude values rules out
    /// overflow of the 64-bit energy sums.
    #[verifier::loop_isolation(false)]
    pub fn create(&self, magnitude: &Magnitude, chroma: &Chroma) -> (res: Result<
        Chromagram,
        ChromaError,
    >)
        requires
            self.wf(),
            magnitude@.len() <= MAX_BINS,
            forall|i: int|
                0 <= i < magnitude@.len() ==> magnitude@[i] as int <= u64::MAX as int / (
                self.num_oct as int * self.num_harmonic as int),
        ensures
            res is Ok <==> (magnitude@.len() > 0 && 1 <= magnitude.rate() <= MAX_SAMPLE_RATE),
            match res {
                Ok(ch) => ch@.len() == 12 && forall|p: int|
                    0 <= p < 12 ==> ch@[p] as int == pitch_energy(
                        *self,
                        magnitude@,
                        magnitude.rate() as int,
                        p,
                    ),
                Err(e) => {
                    &&& (e == ChromaError::EmptyMagnitude <==> magnitude@.len() == 0)
                    &&& (e == ChromaError::InvalidSampleRate <==> (magnitude@.len() > 0 && !(1
                        <= magnitude.rate() <= MAX_SAMPLE_RATE)))
                },
            },
    {
        let bins = magnitude.inner();
        let nbins = bins.len();
        if nbins == 0 {
            return Err(ChromaError::EmptyMagnitude);
        }
        let sr = magnitude.sample_rate();
        if sr == 0 || sr > MAX_SAMPLE_RATE {
            return Err(ChromaError::InvalidSampleRate);
        }
        let ghost f = *self;
        let ghost mag = magnitude@;
        let ghost b = u64::MAX as int / (self.num_oct as int * self.num_harmonic as int);
        proof {
            assert(self.num_oct as int * self.num_harmonic as int >= 1) by (nonlinear_arith)
                requires self.num_oct >= 1, self.num_harmonic >= 1,
            ;
            lemma_div_pos_is_pos(u64::MAX as int, self.num_oct as int * self.num_harmonic as int);
            lemma_fundamental_div_mod(
                u64::MAX as int,
                self.num_oct as int * self.num_harmonic as int,
            );
            assert((self.num_oct as int * self.num_harmonic as int) * b <= u64::MAX as int);
        }
        let mut energies: Vec<u64> = Vec::new();
        let mut stepu: u8 = 0;
        while stepu < 12
            invariant
                stepu <= 12,
                energies@.len() == stepu as int,
                forall|p: int|
                    0 <= p < stepu as int ==> energies@[p] as int == pitch_energy(
                        f,
                        mag,
                        sr as int,
                        p,
                    ),
            decreases 12 - stepu,
        {
            let tone = Tone::new(stepu);
            let fq = freq(chroma, tone, self.ref_freq);
            proof {
                lemma_freq_bound(self.ref_freq as int, stepu as int);
            }
            let mut oct_sum: u64 = 0;
            let mut oct: usize = 1;
            proof {
                lemma_octave_sum_bound(f, mag, sr as int, stepu as int, 0, b);
            }
            while oct <= self.num_oct
                invariant
                    1 <= oct <= self.num_oct + 1,
                    oct_sum as int == octave_sum(f, mag, sr as int, stepu as int, oct - 1),
                decreases self.num_oct + 1 - oct,
            {
                let mut harmonic_sum_v: u64 = 0;
                let mut harmonic: usize = 1;
                while harmonic <= self.num_harmonic
                    invariant
                        1 <= harmonic <= self.num_harmonic + 1,
                        1 <= oct <= self.num_oct,
                        harmonic_sum_v as int == harmonic_sum(
                            f,
                            mag,
                            sr as int,
                            stepu as int,
                            oct as int,
                            harmonic - 1,
                        ),
                    decreases self.num_harmonic + 1 - harmonic,
                {
                    // center bin of this octave/harmonic pair, in u128 so
                    // the product cannot overflow
                    proof {
                        lemma_freq_bound(self.ref_freq as int, stepu as int);
                        assert((fq as int) * (oct as int) <= 0x10000000000000 * 0x400)
                            by (nonlinear_arith)
                            requires
                                0 <= (fq as int) < 0x10000000000000,
                                1 <= (oct as int) <= 0x400,
                        ;
                    }
                    let m1: u128 = (fq as u128) * (oct as u128);
                    proof {
                        assert((m1 as int) * (harmonic as int) <= 0x4000000000000000 * 0x400)
                            by (nonlinear_arith)
                            requires
                                0 <= (m1 as int) <= 0x4000000000000000,
                                1 <= (harmonic as int) <= 0x400,
                        ;
                    }
                    let m2: u128 = m1 * (harmonic as u128);
                    proof {
                        assert((m2 as int) * (nbins as int) <= 0x1000000000000000000 * 0x10000000000)
                            by (nonlinear_arith)
                            requires
                                0 <= (m2 as int) <= 0x1000000000000000000,
                                1 <= (nbins as int) <= 0x10000000000,
                        ;
                    }
                    let m3: u128 = m2 * (nbins as u128);
                    let c: u128 = (m3 + (sr / 2) as u128) / (sr as u128);
                    let ghost spec_c = center_bin(f, sr as int, mag.len() as int, stepu as int, oct as int, harmonic as int);
                    proof {
                        assert(c as int == spec_c);
                    }
                    proof {
                        assert((self.r as int) * (harmonic as int) <= 0x100000 * 0x400)
                            by (nonlinear_arith)
                            requires
                                0 <= (self.r as int) <= 0x100000,
                                1 <= (harmonic as int) <= 0x400,
                        ;
                    }
                    let rh: u128 = (self.r as u128) * (harmonic as u128);
                    let lo128: u128 = if c > rh { c - rh } else { 0 };
                    let hi128: u128 = if c + rh <= nbins as u128 { c + rh } else { nbins as u128 };
                    let ghost spec_lo = if spec_c - f.r as int * harmonic as int >= 0 { spec_c - f.r as int * harmonic as int } else { 0 };
                    let ghost spec_hi = if spec_c + f.r as int * harmonic as int <= mag.len() as int { spec_c + f.r as int * harmonic as int } else { mag.len() as int };
                    let mut mx: u64 = 0;
                    if lo128 < hi128 {
                        let mut i: usize = lo128 as usize;
                        let hi: usize = hi128 as usize;
                        while i < hi
                            invariant
                                spec_lo <= i as int <= hi as int,
                                hi as int == spec_hi,
                                spec_hi <= mag.len(),
                                mx as int == window_max(mag, spec_lo, i as int),
                            decreases hi - i,
                        {
                            let v = bins[i];
                            if v > mx {
                                mx = v;
                            }
                            i += 1;
                        }
                    } else {
                        proof {
                            assert(spec_lo >= spec_hi);
                            assert(window_max(mag, spec_lo, spec_hi) == 0);
                        }
                    }
                    proof {
                        assert(mx as int == window_max(mag, spec_lo, spec_hi));
                        lemma_window_max_bound(mag, spec_lo, spec_hi, b);
                        lemma_div_pos_is_pos(mx as int, harmonic as int);
                        lemma_div_nonincreasing(mx as int, harmonic as int);
                        lemma_harmonic_sum_bound(
                            f,
                            mag,
                            sr as int,
                            stepu as int,
                            oct as int,
                            harmonic - 1,
                            b,
                        );
                        assert((harmonic - 1) * b + b == harmonic as int * b) by (nonlinear_arith);
                        assert(harmonic as int * b <= (self.num_harmonic as int) * b)
                            by (nonlinear_arith)
                            requires harmonic as int <= self.num_harmonic as int, b >= 0,
                        ;
                        assert((self.num_harmonic as int) * b <= (self.num_oct as int
                            * self.num_harmonic as int) * b) by (nonlinear_arith)
                            requires self.num_oct >= 1, self.num_harmonic >= 1, b >= 0,
                        ;
                    }
                    let term: u64 = mx / (harmonic as u64);
                    proof {
                        assert(term as int == harmonic_term(
                            f,
                            mag,
                            sr as int,
                            stepu as int,
                            oct as int,
                            harmonic as int,
                        ));
                    }
                    harmonic_sum_v = harmonic_sum_v + term;
                    harmonic += 1;
                }
                proof {
                    lemma_octave_sum_bound(f, mag, sr as int, stepu as int, oct - 1, b);
                    lemma_harmonic_sum_bound(
                        f,
                        mag,
                        sr as int,
                        stepu as int,
                        oct as int,
                        self.num_harmonic as int,
                        b,
                    );
                    let hh = self.num_harmonic as int;
                    let oo = self.num_oct as int;
                    assert((oct - 1) * (hh * b) + hh * b == oct as int * (hh * b))
                        by (nonlinear_arith);
                    assert(oct as int * (hh * b) <= oo * (hh * b)) by (nonlinear_arith)
                        requires oct as int <= oo, hh >= 0, b >= 0,
                    ;
                    assert(oo * (hh * b) == (oo * hh) * b) by (nonlinear_arith);
                }
                oct_sum = oct_sum + harmonic_sum_v;
                oct += 1;
            }
            energies.push(oct_sum);
            stepu += 1;
        }
        Ok(Chromagram { energies })
    }
}

/// The pinned total order on pitch classes used by `top_k`: `a` ranks
/// before `b` when its energy is strictly greater, or on equal energy
/// when its chromatic step is smaller.
pub open spec fn comes_before(e: Seq<u64>, a: int, b: int) -> bool {
    e[a] > e[b] || (e[a] == e[b] && a < b)
}

/// The class sequence a sequence of tones stands for.
pub open spec fn classes_of(s: Seq<Tone>) -> Seq<int> {
    s.map_values(|t: Tone| t@)
}

/// What a ranked top-`k` selection over energies `e` must satisfy:
/// the right length, distinct in-range classes, sorted by the pinned
/// order, and every selected class ranking before every unselected one.
pub open spec fn ranked_props(e: Seq<u64>, s: Seq<int>, k: int) -> bool {
    &&& s.len() == if k < 12 { k } else { 12 }
    &&& forall|i: int| 0 <= i < s.len() ==> 0 <= #[trigger] s[i] < 12
    &&& forall|i: int, j: int| 0 <= i < j < s.len() ==> comes_before(e, s[i], s[j])
    &&& forall|i: int, c: int|
        0 <= i < s.len() && 0 <= c < 12 && !(#[trigger] s.contains(c)) ==> comes_before(
            e,
            #[trigger] s[i],
            c,
        )
}

impl Chromagram {
    /// The `k` strongest pitch classes (all twelve if `k` exceeds the
    /// chroma size), sorted by descending energy; exact ties are broken
    /// by ascending chromatic step, so the ranking is a pinned total
    /// order and fully deterministic.
    #[verifier::loop_isolation(false)]
    pub fn top_k(&self, k: usize) -> (r: Vec<Tone>)
        ensures
            self@.len() == 12,
            ranked_props(self@, classes_of(r@), k as int),
            r@.len() == if k < 12 { k as int } else { 12 },
    {
        proof {
            use_type_invariant(self);
        }
        let ghost e = self@;
        let mut order: Vec<u8> = Vec::new();
        while order.len() < 12
            invariant
                self@.len() == 12,
                order@.len() <= 12,
                forall|i: int| 0 <= i < order@.len() ==> 0 <= #[trigger] order@[i] < 12,
                forall|i: int, j: int|
                    0 <= i < j < order@.len() ==> comes_before(
                        e,
                        order@[i] as int,
                        order@[j] as int,
                    ),
                forall|i: int, c: int|
                    0 <= i < order@.len() && 0 <= c < 12 && !(#[trigger] order@.contains(c as u8))
                        ==> comes_before(e, #[trigger] order@[i] as int, c),
            decreases 12 - order.len(),
        {
            // pick the strongest remaining class; scanning upward and
            // replacing only on strictly greater energy keeps the
            // smallest step among equals
            let mut best: usize = 12;
            let mut c: usize = 0;
            while c < 12
                invariant
                    self@.len() == 12,
                    c <= 12,
                    order@.len() < 12,
                    forall|i: int| 0 <= i < order@.len() ==> 0 <= #[trigger] order@[i] < 12,
                    best == 12 || (best < c && !order@.contains(best as u8)),
                    best == 12 ==> forall|d: int|
                        0 <= d < c as int ==> #[trigger] order@.contains(d as u8),
                    best < 12 ==> forall|d: int|
                        0 <= d < c as int && !(#[trigger] order@.contains(d as u8)) && d != best
                            as int ==> comes_before(e, best as int, d),
                decreases 12 - c,
            {
                let ghost oldbest = best;
                if !contains_u8(&order, c as u8) {
                    if best == 12 {
                        best = c;
                    } else if self.energies[c] > self.energies[best] {
                        best = c;
                    }
                }
                proof {
                    if best < 12 {
                        assert forall|d: int|
                            0 <= d < c as int + 1 && !(#[trigger] order@.contains(d as u8)) && d
                                != best as int implies comes_before(e, best as int, d) by {
                            if d == c as int {
                                assert(best == oldbest);
                                assert(e[best as int] >= e[d]);
                                assert(best < c);
                            } else if oldbest == 12 {
                                assert(order@.contains(d as u8));
                            } else if d == oldbest as int {
                                assert(best == c);
                                assert(e[best as int] > e[d]);
                            } else {
                                assert(comes_before(e, oldbest as int, d));
                                if best != oldbest {
                                    assert(e[best as int] > e[oldbest as int]);
                                }
                            }
                        }
                    }
                }
                c += 1;
            }
            proof {
                if best == 12 {
                    // all twelve classes would already be selected,
                    // contradicting the pigeonhole bound below
                    assert(order@.len() < 12);
                    assert forall|i: int, j: int|
                        0 <= i < j < order@.len() implies order@[i] != order@[j] by {
                        assert(comes_before(e, order@[i] as int, order@[j] as int));
                    }
                    lemma_distinct_u8_len(order@, 12);
                    assert(false);
                }
            }
            let ghost pre = order@;
            order.push(best as u8);
            proof {
                assert forall|i: int, j: int|
                    0 <= i < j < order@.len() implies comes_before(
                    e,
                    order@[i] as int,
                    order@[j] as int,
                ) by {
                    if j < pre.len() {
                        assert(order@[i] == pre[i] && order@[j] == pre[j]);
                    } else {
                        assert(order@[j] == best as u8);
                        assert(!pre.contains(best as u8));
                        assert(order@[i] == pre[i]);
                        assert(comes_before(e, pre[i] as int, best as int));
                    }
                }
                assert forall|i: int, c2: int|
                    0 <= i < order@.len() && 0 <= c2 < 12 && !(#[trigger] order@.contains(
                        c2 as u8,
                    )) implies comes_before(e, #[trigger] order@[i] as int, c2) by {
                    assert(!pre.contains(c2 as u8)) by {
                        if pre.contains(c2 as u8) {
                            let wj = choose|wj: int| 0 <= wj < pre.len() && pre[wj] == c2 as u8;
                            assert(order@[wj] == c2 as u8);
                            assert(order@.contains(c2 as u8));
                        }
                    }
                    if i < pre.len() {
                        assert(order@[i] == pre[i]);
                        assert(comes_before(e, pre[i] as int, c2));
                    } else {
                        assert(order@[i] == best as u8);
                        assert(c2 != best as int);
                        assert(comes_before(e, best as int, c2));
                    }
                }
            }
        }
        let limit: usize = if k < 12 { k } else { 12 };
        let mut r: Vec<Tone> = Vec::new();
        let mut i: usize = 0;
        while i < limit
            invariant
                limit <= 12,
                order@.len() == 12,
                i <= limit,
                r@.len() == i as int,
                forall|j: int| 0 <= j < i as int ==> (#[trigger] r@[j])@ == order@[j] as int,
                forall|j: int| 0 <= j < order@.len() ==> 0 <= #[trigger] order@[j] < 12,
            decreases limit - i,
        {
            let cls = order[i];
            let t = Tone::new(cls);
            let ghost prer = r@;
            r.push(t);
            proof {
                assert forall|j: int| 0 <= j < i as int + 1 implies (#[trigger] r@[j])@
                    == order@[j] as int by {
                    if j < i as int {
                        assert(r@[j] == prer[j]);
                    } else {
                        assert(r@[j] == t);
                    }
                }
            }
            i += 1;
        }
        proof {
            let s = classes_of(r@);
            assert(s.len() == r@.len());
            assert forall|j: int| 0 <= j < s.len() implies 0 <= #[trigger] s[j] < 12 by {
                assert(s[j] == r@[j]@);
            }
            assert forall|a: int, b2: int| 0 <= a < b2 < s.len() implies comes_before(
                e,
                s[a],
                s[b2],
            ) by {
                assert(s[a] == order@[a] as int && s[b2] == order@[b2] as int);
            }
            assert forall|a: int, c2: int|
                0 <= a < s.len() && 0 <= c2 < 12 && !(#[trigger] s.contains(c2)) implies
                comes_before(e, #[trigger] s[a], c2) by {
                if order@.contains(c2 as u8) {
                    let w = choose|w: int| 0 <= w < 12 && order@[w] == c2 as u8;
                    if w < s.len() {
                        assert(s[w] == c2);
                        assert(false);
                    } else if w > a {
                        assert(comes_before(e, order@[a] as int, order@[w] as int));
                    } else if w < a {
                        assert(comes_before(e, order@[w] as int, order@[a] as int));
                        assert(s[w] == order@[w] as int);
                        assert(false);
                    } else {
                        assert(s[a] == c2);
                        assert(false);
                    }
                } else {
                    assert(comes_before(e, order@[a] as int, c2));
                }
            }
        }
        r
    }
}

/// Whether `v` holds `x`.
fn contains_u8(v: &Vec<u8>, x: u8) -> (r: bool)
    ensures
        r == v@.contains(x),
{
    let mut i: usize = 0;
    while i < v.len()
        invariant
            i <= v@.len(),
            forall|j: int| 0 <= j < i as int ==> v@[j] != x,
        decreases v@.len() - i,
    {
        if v[i] == x {
            return true;
        }
        i += 1;
    }
    false
}

/// A sequence of distinct values below `bound` is no longer than `bound`.
proof fn lemma_distinct_u8_len(s: Seq<u8>, bound: int)
    requires
        forall|i: int| 0 <= i < s.len() ==> 0 <= #[trigger] s[i] < bound,
        forall|i: int, j: int| 0 <= i < j < s.len() ==> s[i] != s[j],
        forall|d: int| 0 <= d < bound ==> #[trigger] s.contains(d as u8),
        0 <= bound < 256,
    ensures
        s.len() >= bound,
    decreases bound,
{
    if bound > 0 {
        let d = bound - 1;
        assert(s.contains(d as u8));
        let w = choose|w: int| 0 <= w < s.len() && s[w] == d as u8;
        let s2 = s.remove(w);
        assert forall|i: int| 0 <= i < s2.len() implies 0 <= #[trigger] s2[i] < bound - 1 by {
            if i < w {
                assert(s2[i] == s[i]);
            } else {
                assert(s2[i] == s[i + 1]);
            }
            assert(s2[i] != d as u8);
        }
        assert forall|i: int, j: int| 0 <= i < j < s2.len() implies s2[i] != s2[j] by {
            if j < w {
            } else if i < w {
                assert(s2[i] == s[i] && s2[j] == s[j + 1]);
            } else {
                assert(s2[i] == s[i + 1] && s2[j] == s[j + 1]);
            }
        }
        assert forall|d2: int| 0 <= d2 < bound - 1 implies #[trigger] s2.contains(d2 as u8) by {
            assert(s.contains(d2 as u8));
            let w2 = choose|w2: int| 0 <= w2 < s.len() && s[w2] == d2 as u8;
            if w2 < w {
                assert(s2[w2] == s[w2]);
                assert(s2[w2] == d2 as u8);
            } else {
                assert(w2 != w);
                assert(s2[w2 - 1] == s[w2]);
                assert(s2[w2 - 1] == d2 as u8);
            }
        }
        lemma_distinct_u8_len(s2, bound - 1);
    }
}


proof fn lemma_ranked_prefix_rec(e: Seq<u64>, s1: Seq<int>, s2: Seq<int>, k1: int, k2: int, n: int)
    requires
        e.len() == 12,
        0 <= k1 <= k2,
        ranked_props(e, s1, k1),
        ranked_props(e, s2, k2),
        0 <= n <= s1.len(),
    ensures
        forall|i: int| 0 <= i < n ==> #[trigger] s1[i] == s2[i],
    decreases n,
{
    assert(s1.len() <= s2.len());
    if n > 0 {
        lemma_ranked_prefix_rec(e, s1, s2, k1, k2, n - 1);
        let a = s1[n - 1];
        let b = s2[n - 1];
        if a != b {
            // each of the two heads must rank before the other: a
            // contradiction, since the ranking order is strict
            assert(comes_before(e, b, a)) by {
                if s2.contains(a) {
                    let w = choose|w: int| 0 <= w < s2.len() && s2[w] == a;
                    if w < n - 1 {
                        assert(s1[w] == s2[w]);
                        assert(comes_before(e, s1[w], s1[n - 1]));
                        assert(false);
                    } else if w > n - 1 {
                        assert(comes_before(e, s2[n - 1], s2[w]));
                    } else {
                        assert(false);
                    }
                } else {
                    assert(comes_before(e, s2[n - 1], a));
                }
            }
            assert(comes_before(e, a, b)) by {
                if s1.contains(b) {
                    let w = choose|w: int| 0 <= w < s1.len() && s1[w] == b;
                    if w < n - 1 {
                        assert(s2[w] == s1[w]);
                        assert(comes_before(e, s2[w], s2[n - 1]));
                        assert(false);
                    } else if w > n - 1 {
                        assert(comes_before(e, s1[n - 1], s1[w]));
                    } else {
                        assert(false);
                    }
                } else {
                    assert(comes_before(e, s1[n - 1], b));
                }
            }
            assert(false);
        }
    }
}

/// Ranked selections are consistent with one another: when `k1 <= k2`,
/// the top-`k1` classes are exactly the leading prefix of the top-`k2`
/// classes, and so also a subset of them.
pub proof fn lemma_top_k_prefix(e: Seq<u64>, s1: Seq<int>, s2: Seq<int>, k1: int, k2: int)
    requires
        e.len() == 12,
        0 <= k1 <= k2,
        ranked_props(e, s1, k1),
        ranked_props(e, s2, k2),
    ensures
        s1 == s2.take(s1.len() as int),
        forall|c: int| s1.contains(c) ==> s2.contains(c),
{
    lemma_ranked_prefix_rec(e, s1, s2, k1, k2, s1.len() as int);
    assert(s1 =~= s2.take(s1.len() as int));
    assert forall|c: int| s1.contains(c) implies s2.contains(c) by {
        let w = choose|w: int| 0 <= w < s1.len() && s1[w] == c;
        assert(s1[w] == s2[w]);
        assert(s2.contains(c));
    }
}


/// Chromagram construction is deterministic: its contract pins every
/// energy to `pitch_energy`, a function of the configuration, the
/// magnitude and the sample rate alone, so any two chromagrams that
/// meet it for the same inputs are equal.
pub proof fn lemma_create_deterministic(
    f: ChromagramFactory,
    mag: Seq<u64>,
    sr: int,
    e1: Seq<u64>,
    e2: Seq<u64>,
)
    requires
        e1.len() == 12,
        e2.len() == 12,
        forall|p: int| 0 <= p < 12 ==> #[trigger] e1[p] as int == pitch_energy(f, mag, sr, p),
        forall|p: int| 0 <= p < 12 ==> #[trigger] e2[p] as int == pitch_energy(f, mag, sr, p),
    ensures
        e1 == e2,
{
    assert(e1 =~= e2);
}

} // verus!
