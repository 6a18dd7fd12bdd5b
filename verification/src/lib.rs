//! Chromagram extraction and chord detection over a frequency-domain signal.
//!
//! The pipeline: a complex spectrum is reduced to per-bin magnitudes; a
//! configurable factory aggregates magnitude energy across octaves and
//! harmonics into one energy value per pitch class (a chromagram); the
//! chromagram is matched against a table of chord templates to name the
//! chord being played, and its strongest pitch classes feed scale inference.
//!
//! All quantities are scaled integers: the caller picks a fixed-point scale
//! for the spectral samples, and frequencies are given in microhertz.

pub mod chord_detect;
pub mod chromagram;
pub mod frequency;
pub mod scale_detector;
pub mod spectrum;
pub mod theory;

pub use chord_detect::detect_chord;
pub use chord_detect::ChordTemplates;
pub use chromagram::ChromaError;
pub use chromagram::Chromagram;
pub use chromagram::ChromagramFactory;
pub use frequency::freq;
pub use scale_detector::infer_scale;
pub use scale_detector::ScaleDatactor;
pub use spectrum::ComplexSample;
pub use spectrum::Magnitude;
pub use spectrum::Spectrum;
pub use theory::Chord;
pub use theory::Chroma;
pub use theory::Quality;
pub use theory::Tone;
