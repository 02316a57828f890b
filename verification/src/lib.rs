//! Colour-grading primitives for learning and applying film-simulation LUTs.
use vstd::prelude::*;

pub mod cube;
pub mod cube_text;
pub mod image;
pub mod lut_index;
pub mod metrics;
pub mod residual_fill;
pub mod sampling;
pub mod tone;

verus! {
} // verus!
