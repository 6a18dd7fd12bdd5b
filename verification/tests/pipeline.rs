//! The numeric pipeline: magnitudes, frequencies, chromagram
//! construction, ranked queries, and the scale-inference selection.

use chromachord::infer_scale;
use chromachord::Chroma;
use chromachord::ChromaError;
use chromachord::Chromagram;
use chromachord::ChromagramFactory;
use chromachord::ComplexSample;
use chromachord::Magnitude;
use chromachord::ScaleDatactor;
use chromachord::Spectrum;
use chromachord::Tone;

#[test]
fn magnitude_is_elementwise_modulus() {
    let spectrum = Spectrum::new(
        vec![
            ComplexSample { re: 3, im: 4 },
            ComplexSample { re: -3, im: 4 },
            ComplexSample { re: 0, im: 0 },
            ComplexSample { re: 1, im: 1 },
            ComplexSample { re: -5, im: -12 },
        ],
        44_100_000_000,
    );
    let magnitude = spectrum.into_magnitude();
    assert_eq!(magnitude.inner().as_slice(), &[5, 5, 0, 1, 13]);
    assert_eq!(magnitude.sample_rate(), 44_100_000_000);
}

#[test]
fn magnitude_of_large_sample() {
    let spectrum = Spectrum::new(vec![ComplexSample { re: i64::MIN, im: 0 }], 1);
    let magnitude = spectrum.into_magnitude();
    assert_eq!(magnitude.inner().as_slice(), &[0x8000000000000000u64]);
}

#[test]
fn freq_of_reference_tone_is_reference() {
    let chroma = Chroma;
    assert_eq!(
        chromachord::freq(&chroma, Tone::new(0), 130_812_790),
        130_812_790
    );
}

#[test]
fn freq_applies_fixed_point_ratio() {
    // with the reference at exactly one fixed-point unit, the result is
    // the raw table entry for the step
    let chroma = Chroma;
    assert_eq!(chromachord::freq(&chroma, Tone::new(9), 16_777_216), 28_215_802);
}

#[test]
fn chroma_definition_shape() {
    let chroma = Chroma;
    assert_eq!(chroma.len(), 12);
    let tones = chroma.iter();
    assert_eq!(tones.len(), 12);
    for (i, t) in tones.iter().enumerate() {
        assert_eq!(t.class() as usize, i);
        assert_eq!(chroma.get_number(*t), i);
    }
}

#[test]
fn create_rejects_empty_magnitude() {
    let factory = ChromagramFactory::default();
    let magnitude = Magnitude::new(vec![], 44_100_000_000);
    let result = factory.create(&magnitude, &Chroma);
    assert_eq!(result.unwrap_err(), ChromaError::EmptyMagnitude);
}

#[test]
fn create_rejects_zero_sample_rate() {
    let factory = ChromagramFactory::default();
    let magnitude = Magnitude::new(vec![1, 2, 3], 0);
    let result = factory.create(&magnitude, &Chroma);
    assert_eq!(result.unwrap_err(), ChromaError::InvalidSampleRate);
}

#[test]
fn create_rejects_oversized_sample_rate() {
    let factory = ChromagramFactory::default();
    let magnitude = Magnitude::new(vec![1, 2, 3], u64::MAX);
    let result = factory.create(&magnitude, &Chroma);
    assert_eq!(result.unwrap_err(), ChromaError::InvalidSampleRate);
}

#[test]
fn create_matches_aggregation_formula() {
    // 4096 bins at 44.1 kHz, magnitudes (i*7) % 101: energies computed
    // from the documented formula by hand
    let factory = ChromagramFactory::default();
    let bins: Vec<u64> = (0..4096u64).map(|i| (i * 7) % 101).collect();
    let magnitude = Magnitude::new(bins, 44_100_000_000);
    let chromagram = factory.create(&magnitude, &Chroma).unwrap();
    let expected: [u64; 12] = [239, 270, 288, 288, 215, 210, 146, 174, 190, 232, 256, 171];
    for c in 0..12u8 {
        assert_eq!(chromagram.energy(Tone::new(c)), expected[c as usize]);
    }
}

#[test]
fn create_with_zero_radius_gives_empty_windows() {
    let factory = ChromagramFactory::new(1, 1, 0, 130_812_790);
    let magnitude = Magnitude::new(vec![9u64; 256], 44_100_000_000);
    let chromagram = factory.create(&magnitude, &Chroma).unwrap();
    for c in 0..12u8 {
        assert_eq!(chromagram.energy(Tone::new(c)), 0);
    }
}

#[test]
fn chromagram_keys_are_the_chroma() {
    let chromagram = Chromagram::new((0..12u64).collect());
    let tones = chromagram.tones();
    assert_eq!(tones.len(), 12);
    for (i, t) in tones.iter().enumerate() {
        assert_eq!(t.class() as usize, i);
    }
    let pairs = chromagram.iter();
    assert_eq!(pairs.len(), 12);
    for (i, (t, e)) in pairs.iter().enumerate() {
        assert_eq!(t.class() as usize, i);
        assert_eq!(*e as usize, i);
    }
}

#[test]
fn top_k_sorts_by_energy_then_step() {
    let mut energies = vec![0u64; 12];
    energies[1] = 9;
    energies[3] = 9;
    energies[2] = 3;
    energies[7] = 5;
    let chromagram = Chromagram::new(energies);
    let top = chromagram.top_k(4);
    let classes: Vec<u8> = top.iter().map(|t| t.class()).collect();
    assert_eq!(classes, vec![1, 3, 7, 2]);
}

#[test]
fn top_k_clamps_to_chroma_size() {
    let chromagram = Chromagram::new((0..12u64).collect());
    assert_eq!(chromagram.top_k(0).len(), 0);
    assert_eq!(chromagram.top_k(12).len(), 12);
    assert_eq!(chromagram.top_k(100).len(), 12);
}

#[test]
fn top_k_smaller_is_prefix_of_larger() {
    let energies: Vec<u64> = vec![4, 1, 7, 7, 0, 2, 9, 3, 3, 5, 8, 6];
    let chromagram = Chromagram::new(energies);
    let small: Vec<u8> = chromagram.top_k(3).iter().map(|t| t.class()).collect();
    let large: Vec<u8> = chromagram.top_k(9).iter().map(|t| t.class()).collect();
    assert_eq!(small.as_slice(), &large[..3]);
}

#[test]
fn scale_selection_is_seven_ranked_classes() {
    let energies: Vec<u64> = vec![4, 1, 7, 7, 0, 2, 9, 3, 3, 5, 8, 6];
    let chromagram = Chromagram::new(energies.clone());
    let ranked = infer_scale(&chromagram);
    assert_eq!(ranked.len(), 7);
    let classes: Vec<u8> = ranked.iter().map(|t| t.class()).collect();
    assert_eq!(classes, vec![6, 10, 2, 3, 11, 9, 0]);
    for w in classes.windows(2) {
        let a = energies[w[0] as usize];
        let b = energies[w[1] as usize];
        assert!(a > b || (a == b && w[0] < w[1]));
    }
    let via_trait = chromagram.detect_scale();
    let trait_classes: Vec<u8> = via_trait.iter().map(|t| t.class()).collect();
    assert_eq!(trait_classes, classes);
}

#[test]
fn spectrum_accessors() {
    let samples = vec![ComplexSample { re: 1, im: 2 }, ComplexSample { re: 3, im: 4 }];
    let spectrum = Spectrum::new(samples.clone(), 48_000_000_000);
    assert_eq!(spectrum.sample_rate(), 48_000_000_000);
    assert_eq!(spectrum.inner().len(), 2);
    assert_eq!(spectrum.inner()[0], samples[0]);
    let magnitude = Magnitude::new(vec![7, 8], 48_000_000_000);
    assert_eq!(magnitude.sample_rate(), 48_000_000_000);
    assert_eq!(magnitude.inner().as_slice(), &[7, 8]);
}
