//! Chord detection: matching a chromagram against the full table of
//! chord templates.
//!
//! The table pairs every chord quality with every root pitch class, in
//! quality-major, root-minor order (all major chords by ascending root,
//! then all minor chords, and so on through the quality enumeration),
//! and gives each chord a binary membership vector over the twelve
//! pitch classes. A candidate chord is scored by the sum of squared
//! energies at the pitch classes *outside* the chord, so a chromagram
//! whose energy sits entirely on chord tones scores zero; the detector
//! returns the chord with the least score, breaking exact ties in favor
//! of the earliest template, so the result is a function of the
//! energies alone. Putting the plain triads ahead of the seventh chords
//! makes a pure minor-triad chromagram name the minor triad itself, not
//! the major-seventh chord one of whose subsets it is.

use vstd::prelude::*;

use crate::chromagram::Chromagram;
use crate::theory::chord_class;
use crate::theory::chord_class_indices;
use crate::theory::Chord;
use crate::theory::Quality;
use crate::theory::Tone;

verus! {

/// Largest admissible energy value for detection, so that a sum of
/// twelve squared energies fits in 128 bits.
pub const ENERGY_LIMIT: u64 = 0x4000000000000000;

/// The binary membership template of the chord with root `root` and
/// quality `q`: true exactly at the chord's constituent pitch classes.
pub open spec fn template_mask(root: int, q: int) -> Seq<bool> {
    Seq::new(12, |i: int| chord_class(root, q).contains(i))
}

/// Weighted squared-error score over the first `n` pitch classes: the
/// sum of `e[i]^2` at classes not in the template.
pub open spec fn score_upto(mask: Seq<bool>, e: Seq<u64>, n: int) -> int
    decreases n,
{
    if n <= 0 {
        0
    } else {
        score_upto(mask, e, n - 1) + if !mask[n - 1] {
            e[n - 1] * e[n - 1]
        } else {
            0
        }
    }
}

/// Score of energies `e` against a full twelve-class template.
pub open spec fn score(mask: Seq<bool>, e: Seq<u64>) -> int {
    score_upto(mask, e, 12)
}

/// Score of the template at table index `t` (quality `t / 12`, root
/// `t % 12`).
pub open spec fn score_at(e: Seq<u64>, t: int) -> int {
    score(template_mask(t % 12, t / 12), e)
}

/// The best template index among the first `n`: least score, earliest
/// index on exact ties.
pub open spec fn best_upto(e: Seq<u64>, n: int) -> int
    decreases n,
{
    if n <= 1 {
        0
    } else {
        let b = best_upto(e, n - 1);
        if score_at(e, n - 1) < score_at(e, b) {
            n - 1
        } else {
            b
        }
    }
}

/// The template index the detector returns for energies `e`.
pub open spec fn best_index(e: Seq<u64>) -> int {
    best_upto(e, 72)
}

/// Scores are sums of squares, hence non-negative.
pub proof fn lemma_score_nonneg(mask: Seq<bool>, e: Seq<u64>, n: int)
    ensures
        0 <= score_upto(mask, e, n),
    decreases n,
{
    if n > 0 {
        lemma_score_nonneg(mask, e, n - 1);
        assert(e[n - 1] * e[n - 1] >= 0) by (nonlinear_arith);
    }
}

/// The chosen template index is in range and its score is minimal over
/// every template index below `n`.
pub proof fn lemma_best_upto_min(e: Seq<u64>, n: int)
    requires
        1 <= n,
    ensures
        0 <= best_upto(e, n) < n,
        forall|t: int| 0 <= t < n ==> score_at(e, best_upto(e, n)) <= #[trigger] score_at(e, t),
    decreases n,
{
    if n > 1 {
        lemma_best_upto_min(e, n - 1);
    }
}

/// A score is zero exactly when every pitch class outside the template
/// carries zero energy.
pub proof fn lemma_score_zero_iff(mask: Seq<bool>, e: Seq<u64>, n: int)
    requires
        0 <= n,
    ensures
        score_upto(mask, e, n) == 0 <==> (forall|i: int|
            0 <= i < n && !(#[trigger] mask[i]) ==> e[i] * e[i] == 0),
    decreases n,
{
    if n > 0 {
        lemma_score_zero_iff(mask, e, n - 1);
        lemma_score_nonneg(mask, e, n - 1);
        assert(e[n - 1] * e[n - 1] >= 0) by (nonlinear_arith);
    }
}

/// The full chord template table: every root pitch class crossed with
/// every quality, in root-major, quality-minor order. Built once and
/// read-only afterward.
#[derive(Debug)]
pub struct ChordTemplates {
    chords: Vec<Chord>,
    masks: Vec<Vec<bool>>,
}

impl ChordTemplates {
    /// The table holds the seventy-two chords in order, each with the
    /// membership vector of its constituent pitch classes.
    pub closed spec fn wf(&self) -> bool {
        &&& self.chords@.len() == 72
        &&& self.masks@.len() == 72
        &&& forall|t: int| 0 <= t < 72 ==> (#[trigger] self.chords@[t])@ == (t % 12, t / 12)
        &&& forall|t: int| 0 <= t < 72 ==> (#[trigger] self.masks@[t])@ == template_mask(
            t % 12,
            t / 12,
        )
    }

    /// Build the full template table.
    #[verifier::loop_isolation(false)]
    pub fn new() -> (tbl: Self)
        ensures
            tbl.wf(),
    {
        let mut chords: Vec<Chord> = Vec::new();
        let mut masks: Vec<Vec<bool>> = Vec::new();
        let mut q: u8 = 0;
        while q < 6
            invariant
                q <= 6,
                chords@.len() == q as int * 12,
                masks@.len() == q as int * 12,
                forall|t: int|
                    0 <= t < chords@.len() ==> (#[trigger] chords@[t])@ == (t % 12, t / 12),
                forall|t: int|
                    0 <= t < masks@.len() ==> (#[trigger] masks@[t])@ == template_mask(
                        t % 12,
                        t / 12,
                    ),
            decreases 6 - q,
        {
            let mut root: u8 = 0;
            while root < 12
                invariant
                    root <= 12,
                    q < 6,
                    chords@.len() == q as int * 12 + root as int,
                    masks@.len() == q as int * 12 + root as int,
                    forall|t: int|
                        0 <= t < chords@.len() ==> (#[trigger] chords@[t])@ == (t % 12, t / 12),
                    forall|t: int|
                        0 <= t < masks@.len() ==> (#[trigger] masks@[t])@ == template_mask(
                            t % 12,
                            t / 12,
                        ),
                decreases 12 - root,
            {
                let cls = chord_class_indices(root, q);
                let mask = mask_from(&cls, Ghost(root as int), Ghost(q as int));
                let ghost tcur = chords@.len() as int;
                proof {
                    assert(tcur == q as int * 12 + root as int);
                    assert(tcur % 12 == root as int && tcur / 12 == q as int) by (nonlinear_arith)
                        requires
                            tcur == q as int * 12 + root as int,
                            0 <= (root as int) && (root as int) < 12,
                            0 <= (q as int) && (q as int) < 6,
                    ;
                }
                let ghost prec = chords@;
                let ghost prem = masks@;
                let chord = Chord::new(Tone::new(root), Quality::new(q));
                chords.push(chord);
                masks.push(mask);
                proof {
                    assert forall|t: int|
                        0 <= t < chords@.len() implies (#[trigger] chords@[t])@ == (
                        t % 12,
                        t / 12,
                    ) by {
                        if t < tcur {
                            assert(chords@[t] == prec[t]);
                        } else {
                            assert(chords@[t] == chord);
                        }
                    }
                    assert forall|t: int|
                        0 <= t < masks@.len() implies (#[trigger] masks@[t])@ == template_mask(
                        t % 12,
                        t / 12,
                    ) by {
                        if t < tcur {
                            assert(masks@[t] == prem[t]);
                        } else {
                            assert(masks@[t] == mask);
                        }
                    }
                }
                root += 1;
            }
            q += 1;
        }
        ChordTemplates { chords, masks }
    }

    /// Score one template against the chromagram, exactly as the spec
    /// `score_at` states it.
    #[verifier::loop_isolation(false)]
    fn score_of(&self, t: usize, chroma: &Chromagram) -> (s: u128)
        requires
            self.wf(),
            t < 72,
            forall|i: int| 0 <= i < chroma@.len() ==> #[trigger] chroma@[i] <= ENERGY_LIMIT,
        ensures
            s as int == score_at(chroma@, t as int),
    {
        let ghost e = chroma@;
        let mask = &self.masks[t];
        let mut s: u128 = 0;
        let mut i: usize = 0;
        while i < 12
            invariant
                i <= 12,
                s as int == score_upto(mask@, e, i as int),
                s as int <= i as int * (0x4000000000000000 * 0x4000000000000000),
            decreases 12 - i,
        {
            proof {
                assert(0x4000000000000000 * 0x4000000000000000 == 0x10000000000000000000000000000000)
                    by (nonlinear_arith);
                assert((i as int) * 0x10000000000000000000000000000000 <= 11
                    * 0x10000000000000000000000000000000) by (nonlinear_arith)
                    requires 0 <= (i as int) <= 11,
                ;
            }
            if !mask[i] {
                let ev: u64 = chroma.energy(Tone::new(i as u8));
                proof {
                    assert(0 <= (ev as int) * (ev as int) <= 0x10000000000000000000000000000000)
                        by (nonlinear_arith)
                        requires 0 <= (ev as int) <= 0x4000000000000000,
                    ;
                    assert(((i as int) + 1) * 0x10000000000000000000000000000000 == (i as int)
                        * 0x10000000000000000000000000000000
                        + 0x10000000000000000000000000000000) by (nonlinear_arith);
                }
                s = s + (ev as u128) * (ev as u128);
            } else {
                proof {
                    assert(((i as int) + 1) * 0x10000000000000000000000000000000 == (i as int)
                        * 0x10000000000000000000000000000000
                        + 0x10000000000000000000000000000000) by (nonlinear_arith);
                }
            }
            i += 1;
        }
        s
    }

    /// The chord whose template minimizes the score against `chroma`;
    /// exact ties go to the earliest template in table order.
    #[verifier::loop_isolation(false)]
    pub fn detect(&self, chroma: &Chromagram) -> (r: Chord)
        requires
            self.wf(),
            forall|i: int| 0 <= i < chroma@.len() ==> #[trigger] chroma@[i] <= ENERGY_LIMIT,
        ensures
            r@ == (best_index(chroma@) % 12, best_index(chroma@) / 12),
            r.wf(),
    {
        let ghost e = chroma@;
        let mut best_t: usize = 0;
        let mut best_s: u128 = self.score_of(0, chroma);
        let mut t: usize = 1;
        while t < 72
            invariant
                1 <= t <= 72,
                best_t < t,
                best_t as int == best_upto(e, t as int),
                best_s as int == score_at(e, best_t as int),
            decreases 72 - t,
        {
            let s = self.score_of(t, chroma);
            if s < best_s {
                best_t = t;
                best_s = s;
            }
            t += 1;
        }
        let r = self.chords[best_t];
        proof {
            assert(r@ == (best_t as int % 12, best_t as int / 12));
        }
        r
    }
}

/// Detect the chord of `chroma`, building the template table on the
/// spot. A long-lived caller can build the table once with
/// `ChordTemplates::new` and reuse it through `ChordTemplates::detect`.
pub fn detect_chord(chroma: &Chromagram) -> (r: Chord)
    requires
        forall|i: int| 0 <= i < chroma@.len() ==> #[trigger] chroma@[i] <= ENERGY_LIMIT,
    ensures
        r@ == (best_index(chroma@) % 12, best_index(chroma@) / 12),
        r.wf(),
{
    let tbl = ChordTemplates::new();
    tbl.detect(chroma)
}

/// Chord detection is deterministic: its contract pins the result to a
/// function of the energies alone, so any two results that meet it for
/// the same chromagram name the same chord.
pub proof fn lemma_detect_deterministic(e: Seq<u64>, r1: (int, int), r2: (int, int))
    requires
        r1 == (best_index(e) % 12, best_index(e) / 12),
        r2 == (best_index(e) % 12, best_index(e) / 12),
    ensures
        r1 == r2,
{
}

/// Perfect-match detection: when the energy sits exactly on a chord's
/// constituent pitch classes, that chord's template scores zero, the
/// detected template also scores zero, and so every pitch class that
/// carries energy belongs to the detected chord.
pub proof fn lemma_perfect_match(e: Seq<u64>, root: int, q: int)
    requires
        e.len() == 12,
        0 <= root < 12,
        0 <= q < 6,
        forall|i: int|
            0 <= i < 12 && !(#[trigger] chord_class(root, q).contains(i)) ==> e[i] == 0,
    ensures
        score_at(e, q * 12 + root) == 0,
        score_at(e, best_index(e)) == 0,
        forall|i: int|
            0 <= i < 12 && e[i] > 0 ==> #[trigger] chord_class(
                best_index(e) % 12,
                best_index(e) / 12,
            ).contains(i),
{
    let t = q * 12 + root;
    assert(t % 12 == root && t / 12 == q) by (nonlinear_arith)
        requires
            t == q * 12 + root,
            0 <= root < 12,
            0 <= q < 6,
    ;
    lemma_score_zero_iff(template_mask(root, q), e, 12);
    assert forall|i: int|
        0 <= i < 12 && !(#[trigger] template_mask(root, q)[i]) implies e[i] * e[i] == 0 by {
        assert(!chord_class(root, q).contains(i));
        assert(e[i] == 0);
    }
    assert(score_at(e, t) == 0);
    lemma_best_upto_min(e, 72);
    assert(0 <= t < 72);
    let bt = best_index(e);
    lemma_score_nonneg(template_mask(bt % 12, bt / 12), e, 12);
    assert(score_at(e, bt) == 0);
    lemma_score_zero_iff(template_mask(bt % 12, bt / 12), e, 12);
    assert forall|i: int|
        0 <= i < 12 && e[i] > 0 implies #[trigger] chord_class(bt % 12, bt / 12).contains(i) by {
        assert(template_mask(bt % 12, bt / 12)[i] == chord_class(bt % 12, bt / 12).contains(i));
        if !chord_class(bt % 12, bt / 12).contains(i) {
            assert(e[i] * e[i] == 0);
            assert(e[i] == 0) by (nonlinear_arith)
                requires e[i] * e[i] == 0,
            ;
        }
    }
}


/// The detector's tie-break: every template earlier than the chosen one
/// scores strictly worse, so the chosen index is the earliest among
/// those attaining the minimum.
pub proof fn lemma_best_upto_earliest(e: Seq<u64>, n: int)
    requires
        1 <= n,
    ensures
        forall|u: int| 0 <= u < best_upto(e, n) ==> #[trigger] score_at(e, u) > score_at(
            e,
            best_upto(e, n),
        ),
    decreases n,
{
    if n > 1 {
        lemma_best_upto_earliest(e, n - 1);
        lemma_best_upto_min(e, n - 1);
        let b = best_upto(e, n - 1);
        if score_at(e, n - 1) < score_at(e, b) {
            assert forall|u: int| 0 <= u < n - 1 implies #[trigger] score_at(e, u) > score_at(
                e,
                n - 1,
            ) by {
                assert(score_at(e, u) >= score_at(e, b));
            }
        }
    }
}

/// The detector returns the template at `t` whenever `t` scores zero
/// and every earlier template scores positively.
pub proof fn lemma_detect_first_minimum(e: Seq<u64>, t: int)
    requires
        0 <= t < 72,
        score_at(e, t) == 0,
        forall|u: int| 0 <= u < t ==> #[trigger] score_at(e, u) > 0,
    ensures
        best_index(e) == t,
{
    let bi = best_index(e);
    lemma_best_upto_min(e, 72);
    lemma_best_upto_earliest(e, 72);
    lemma_score_nonneg(template_mask(bi % 12, bi / 12), e, 12);
    assert(score_at(e, bi) == 0);
    if bi < t {
        assert(score_at(e, bi) > 0);
        assert(false);
    } else if bi > t {
        assert(score_at(e, t) > score_at(e, bi));
        assert(false);
    }
}

/// Exact perfect-match detection: when the energy sits exactly on a
/// chord's constituent pitch classes and no earlier template also
/// scores zero, the detector returns exactly that chord. The second
/// condition excludes the genuinely ambiguous chromagrams: an
/// augmented triad, for one, shares its class set with the augmented
/// triads four and eight steps up, and there the earliest root wins.
pub proof fn lemma_perfect_match_exact(e: Seq<u64>, root: int, q: int)
    requires
        e.len() == 12,
        0 <= root < 12,
        0 <= q < 6,
        forall|i: int|
            0 <= i < 12 && !(#[trigger] chord_class(root, q).contains(i)) ==> e[i] == 0,
        forall|u: int| 0 <= u < q * 12 + root ==> #[trigger] score_at(e, u) > 0,
    ensures
        best_index(e) == q * 12 + root,
{
    lemma_perfect_match(e, root, q);
    lemma_detect_first_minimum(e, q * 12 + root);
}

/// Whether `v` holds `x`.
fn contains_u8(v: &Vec<u8>, x: u8) -> (r: bool)
    ensures
        r == v@.contains(x),
{
    let mut i: usize = 0;
    while i < v.len()
        invariant
            i <= v@.len(),
            forall|j: int| 0 <= j < i as int ==> v@[j] != x,
        decreases v@.len() - i,
    {
        if v[i] == x {
            return true;
        }
        i += 1;
    }
    false
}

/// Turn the constituent-class list of one chord into its binary
/// membership vector over the twelve pitch classes.
#[verifier::loop_isolation(false)]
fn mask_from(cls: &Vec<u8>, Ghost(root): Ghost<int>, Ghost(q): Ghost<int>) -> (m: Vec<bool>)
    requires
        0 <= root < 12,
        0 <= q < 6,
        cls@.len() == chord_class(root, q).len(),
        forall|j: int| 0 <= j < cls@.len() ==> #[trigger] cls@[j] as int == chord_class(root, q)[j],
    ensures
        m@ == template_mask(root, q),
{
    proof {
        assert forall|j: int|
            0 <= j < cls@.len() implies 0 <= #[trigger] chord_class(root, q)[j] < 12 by {
            if j == 0 {
            } else {
                assert(chord_class(root, q)[j] == (root + crate::theory::quality_intervals(q)[j
                    - 1]) % 12);
            }
        }
    }
    let mut m: Vec<bool> = Vec::new();
    let mut i: usize = 0;
    while i < 12
        invariant
            i <= 12,
            m@.len() == i as int,
            forall|j: int| 0 <= j < i as int ==> m@[j] == chord_class(root, q).contains(j),
        decreases 12 - i,
    {
        let hit = contains_u8(cls, i as u8);
        proof {
            if cls@.contains(i as u8) {
                let w = choose|w: int| 0 <= w < cls@.len() && cls@[w] == i as u8;
                assert(chord_class(root, q)[w] == i as int);
                assert(chord_class(root, q).contains(i as int));
            }
            if chord_class(root, q).contains(i as int) {
                let w = choose|w: int|
                    0 <= w < chord_class(root, q).len() && chord_class(root, q)[w] == i as int;
                assert(cls@[w] as int == i as int);
                assert(cls@[w] == i as u8);
                assert(cls@.contains(i as u8));
            }
        }
        let ghost prem = m@;
        m.push(hit);
        proof {
            assert forall|j: int|
                0 <= j < i as int + 1 implies m@[j] == chord_class(root, q).contains(j) by {
                if j < i as int {
                    assert(m@[j] == prem[j]);
                } else {
                    assert(m@[j] == hit);
                }
            }
        }
        i += 1;
    }
    proof {
        assert(m@ =~= template_mask(root, q));
    }
    m
}

} // verus!
