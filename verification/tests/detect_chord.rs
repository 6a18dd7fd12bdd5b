//! Chord detection against the real music-theory library: pitch-class
//! and quality indices are taken from hapsi itself, so the expected
//! values match its enumeration order.

use chromachord::Chord;
use chromachord::ChordTemplates;
use chromachord::Chromagram;
use chromachord::Quality;
use chromachord::Tone;

fn tone_index(name: &str) -> u8 {
    let t: hapsi::twelve_tet::Tone = name.parse().unwrap();
    usize::from(t) as u8
}

fn quality_index(q: hapsi::chord::Quality) -> u8 {
    hapsi::chord::Quality::enumerate()
        .position(|x| *x == q)
        .unwrap() as u8
}

fn chroma_with(actives: &[&str]) -> Chromagram {
    let mut energies = vec![0u64; 12];
    for name in actives {
        energies[tone_index(name) as usize] = 1;
    }
    Chromagram::new(energies)
}

#[test]
fn detect_chord() {
    let mut energies = vec![0u64; 12];
    energies[tone_index("C") as usize] = 0;
    energies[tone_index("Cs") as usize] = 0;
    energies[tone_index("D") as usize] = 0;
    energies[tone_index("Ds") as usize] = 0;
    energies[tone_index("E") as usize] = 1;
    energies[tone_index("F") as usize] = 0;
    energies[tone_index("Fs") as usize] = 0;
    energies[tone_index("G") as usize] = 1;
    energies[tone_index("Gs") as usize] = 0;
    energies[tone_index("A") as usize] = 0;
    energies[tone_index("As") as usize] = 0;
    energies[tone_index("B") as usize] = 1;
    let chroma = Chromagram::new(energies);
    let chord = chromachord::detect_chord(&chroma);
    let expected = Chord::new(
        Tone::new(tone_index("E")),
        Quality::new(quality_index(hapsi::prelude::Quality::Minor)),
    );
    assert_eq!(chord, expected);
}

#[test]
fn detect_major_triad() {
    let chroma = chroma_with(&["E", "Gs", "B"]);
    let chord = chromachord::detect_chord(&chroma);
    let expected = Chord::new(
        Tone::new(tone_index("E")),
        Quality::new(quality_index(hapsi::prelude::Quality::Major)),
    );
    assert_eq!(chord, expected);
}

#[test]
fn detect_major_seventh() {
    // A, C#, E, G#: only A major seventh covers all four classes
    let chroma = chroma_with(&["A", "Cs", "E", "Gs"]);
    let chord = chromachord::detect_chord(&chroma);
    let expected = Chord::new(
        Tone::new(tone_index("A")),
        Quality::new(quality_index(hapsi::prelude::Quality::Major7)),
    );
    assert_eq!(chord, expected);
}

#[test]
fn detect_all_zero_picks_first_template() {
    // every template scores zero; the tie goes to the earliest, which
    // is C major
    let chroma = Chromagram::new(vec![0u64; 12]);
    let chord = chromachord::detect_chord(&chroma);
    let expected = Chord::new(
        Tone::new(tone_index("C")),
        Quality::new(quality_index(hapsi::prelude::Quality::Major)),
    );
    assert_eq!(chord, expected);
}

#[test]
fn shared_table_matches_direct_detection() {
    let table = ChordTemplates::new();
    let chroma = chroma_with(&["D", "F", "A"]);
    assert_eq!(table.detect(&chroma), chromachord::detect_chord(&chroma));
    let expected = Chord::new(
        Tone::new(tone_index("D")),
        Quality::new(quality_index(hapsi::prelude::Quality::Minor)),
    );
    assert_eq!(table.detect(&chroma), expected);
}

#[test]
fn detection_is_deterministic() {
    let chroma1 = chroma_with(&["F", "A", "C"]);
    let chroma2 = chroma_with(&["F", "A", "C"]);
    assert_eq!(chromachord::detect_chord(&chroma1), chromachord::detect_chord(&chroma2));
}


#[test]
fn detect_augmented_shares_class_set_with_lowest_root() {
    // E, G#, C is the augmented triad on E, but augmented triads four
    // steps apart share one class set, and the earliest root wins the
    // tie: the detector names it C augmented
    let chroma = chroma_with(&["E", "Gs", "C"]);
    let chord = chromachord::detect_chord(&chroma);
    let expected = Chord::new(
        Tone::new(tone_index("C")),
        Quality::new(quality_index(hapsi::prelude::Quality::Aug)),
    );
    assert_eq!(chord, expected);
}

#[test]
fn chord_accessors() {
    let chord = Chord::new(Tone::new(7), Quality::new(1));
    assert_eq!(chord.root().class(), 7);
    assert_eq!(chord.quality().index(), 1);
}
