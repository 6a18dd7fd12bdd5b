//! Scale inference adapter.
//!
//! Scale inference itself belongs to the external music-theory model;
//! this crate only guarantees the selection contract that inference
//! expects: exactly seven pitch classes (a diatonic scale has seven),
//! ranked by descending chromagram energy under the pinned total order.
//! The music-theory library this crate builds on offers no inference
//! function, so the adapter yields that ranked selection itself, ready
//! to be handed to an inference routine.

use vstd::prelude::*;

use crate::chromagram::classes_of;
use crate::chromagram::ranked_props;
use crate::chromagram::Chromagram;
use crate::theory::Tone;

verus! {

/// Something a most-likely scale can be read off of.
pub trait ScaleDatactor {
    type Scale;

    fn detect_scale(&self) -> Self::Scale;
}

/// The seven pitch classes that scale inference works from: the
/// chromagram's `top_k(7)`, ranked by descending energy with ties
/// broken by ascending chromatic step.
pub fn infer_scale(chroma: &Chromagram) -> (r: Vec<Tone>)
    ensures
        r@.len() == 7,
        ranked_props(chroma@, classes_of(r@), 7),
{
    chroma.top_k(7)
}

impl ScaleDatactor for Chromagram {
    type Scale = Vec<Tone>;

    /// The ranked seven-class selection that a scale is inferred from.
    fn detect_scale(&self) -> Self::Scale {
        infer_scale(self)
    }
}

} // verus!
