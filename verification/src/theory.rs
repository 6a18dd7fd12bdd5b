//! The slice of the external music-theory model that this crate consumes:
//! pitch classes of the twelve-tone chroma, chord qualities, chords, and
//! the decomposition of a chord into its constituent pitch classes.
//!
//! A pitch class is held as its chromatic step (0 = C, ..., 11 = B), the
//! index the music-theory library assigns to it; a quality is held as its
//! position in that library's enumeration order (major, minor, diminished,
//! augmented, major seventh, minor seventh).

use vstd::prelude::*;

verus! {

/// Number of pitch classes in the twelve-tone chroma.
pub const CHROMA_SIZE: u8 = 12;

/// Number of chord qualities the music-theory library enumerates.
pub const QUALITY_COUNT: u8 = 6;

/// A pitch class of the twelve-tone chroma, held as its chromatic step.
#[derive(Debug, Clone, Copy, PartialEq, Eq, Structural)]
pub struct Tone {
    class: u8,
}

impl View for Tone {
    type V = int;

    closed spec fn view(&self) -> int {
        self.class as int
    }
}

impl Tone {
    pub open spec fn wf(&self) -> bool {
        0 <= self@ < 12
    }

    pub fn new(class: u8) -> (r: Self)
        requires
            class < 12,
        ensures
            r@ == class as int,
    {
        Tone { class }
    }

    /// The chromatic step of this pitch class.
    pub fn class(&self) -> (r: u8)
        ensures
            r as int == self@,
    {
        self.class
    }
}

/// A chord quality, held as its position in the music-theory library's
/// enumeration order.
#[derive(Debug, Clone, Copy, PartialEq, Eq, Structural)]
pub struct Quality {
    index: u8,
}

impl View for Quality {
    type V = int;

    closed spec fn view(&self) -> int {
        self.index as int
    }
}

impl Quality {
    pub open spec fn wf(&self) -> bool {
        0 <= self@ < 6
    }

    pub fn new(index: u8) -> (r: Self)
        requires
            index < 6,
        ensures
            r@ == index as int,
    {
        Quality { index }
    }

    pub fn index(&self) -> (r: u8)
        ensures
            r as int == self@,
    {
        self.index
    }
}

/// A chord: a root pitch class paired with a quality. Equality is
/// structural (root and quality).
#[derive(Debug, Clone, Copy, PartialEq, Eq, Structural)]
pub struct Chord {
    root: Tone,
    quality: Quality,
}

impl View for Chord {
    type V = (int, int);

    closed spec fn view(&self) -> (int, int) {
        (self.root@, self.quality@)
    }
}

impl Chord {
    pub open spec fn wf(&self) -> bool {
        0 <= self@.0 < 12 && 0 <= self@.1 < 6
    }

    pub fn new(root: Tone, quality: Quality) -> (r: Self)
        ensures
            r@ == (root@, quality@),
    {
        Chord { root, quality }
    }

    pub fn root(&self) -> (r: Tone)
        ensures
            r@ == self@.0,
    {
        self.root
    }

    pub fn quality(&self) -> (r: Quality)
        ensures
            r@ == self@.1,
    {
        self.quality
    }
}

/// The twelve-tone chroma definition: twelve pitch classes in chromatic
/// order, each at the step equal to its index.
#[derive(Debug, Clone, Copy)]
pub struct Chroma;

impl Chroma {
    /// Size of the chroma: how many pitch classes one octave holds.
    pub fn len(&self) -> (r: usize)
        ensures
            r == CHROMA_SIZE as usize,
    {
        12
    }

    /// The step number of a pitch class within this chroma.
    pub fn get_number(&self, tone: Tone) -> (r: usize)
        requires
            tone.wf(),
        ensures
            r as int == tone@,
    {
        tone.class() as usize
    }

    /// All pitch classes of the chroma, in chromatic order.
    pub fn iter(&self) -> (r: Vec<Tone>)
        ensures
            r@.len() == 12,
            forall|i: int| 0 <= i < 12 ==> r@[i]@ == i,
    {
        let mut out: Vec<Tone> = Vec::new();
        let mut c: u8 = 0;
        while c < 12
            invariant
                c <= 12,
                out@.len() == c as int,
                forall|i: int| 0 <= i < c as int ==> out@[i]@ == i,
            decreases 12 - c,
        {
            out.push(Tone::new(c));
            c += 1;
        }
        out
    }
}

/// The intervals, in chromatic steps above the root, that each quality
/// adds to the root; the music-theory library fixes this table.
pub open spec fn quality_intervals(q: int) -> Seq<int> {
    if q == 0 {
        seq![4, 7]
    } else if q == 1 {
        seq![3, 7]
    } else if q == 2 {
        seq![3, 6]
    } else if q == 3 {
        seq![4, 8]
    } else if q == 4 {
        seq![4, 7, 11]
    } else {
        seq![3, 7, 11]
    }
}

/// The constituent pitch classes of a chord: its root followed by the
/// root shifted by each of the quality's intervals, modulo 12.
pub open spec fn chord_class(root: int, q: int) -> Seq<int> {
    seq![root] + quality_intervals(q).map_values(|iv: int| (root + iv) % 12)
}

/// Relies on hapsi's `Chord::into_class` and `Chord::into_vec` (with
/// `Quality::enumerate`, `Twelve` and the tone-to-index conversion): a
/// chord decomposes into its root followed by the root raised by the
/// quality's fixed intervals, taken modulo twelve.
#[verifier::external_body]
pub(crate) fn chord_class_indices(root: u8, quality: u8) -> (r: Vec<u8>)
    requires
        root < CHROMA_SIZE,
        quality < QUALITY_COUNT,
    ensures
        r@.len() == chord_class(root as int, quality as int).len(),
        forall|i: int|
            0 <= i < r@.len() ==> r@[i] as int == chord_class(root as int, quality as int)[i],
{
    let tone = *hapsi::core::Octave::iter(&hapsi::twelve_tet::Twelve)
        .nth(root as usize)
        .unwrap();
    let q = *hapsi::chord::Quality::enumerate().nth(quality as usize).unwrap();
    hapsi::chord::Chord::new(tone, q)
        .into_class()
        .into_vec()
        .into_iter()
        .map(|t| usize::from(t) as u8)
        .collect()
}

} // verus!
