//! A small ray tracer: one sphere before a gradient, seen by one camera.
//!
//! For each pixel the camera gives a ray, the sphere says whether and where
//! the ray meets it, and the pixel takes its colour from the distance, or
//! from the gradient where the ray misses.
//!
//! The numbers are IEEE 754 binary32 numbers. They are held as bit patterns
//! and computed with whole numbers, so that every result is stated, bit for
//! bit, and proved:
//!
//! - `rounding` and `root` round exact quotients and square roots to the
//!   nearest pattern;
//! - `scalar` has the numbers and their arithmetic, `vec3` the vectors;
//! - `sphere` and `camera` have the geometry;
//! - `render` has the colour of a pixel and `display` whole images;
//! - `laws` has what holds of all of these, whatever the operands.
use vstd::prelude::*;

pub mod rounding;
pub mod root;
pub mod scalar;
pub mod vec3;
pub mod sphere;
pub mod camera;
pub mod render;
pub mod display;
pub mod laws;

verus! {

/// Width of the image in pixels.
pub const WIDTH: u16 = 255;

/// Height of the image in pixels.
pub const HEIGHT: u16 = 255;

/// Largest value of a colour channel.
pub const SCALE: u8 = 255;

} // verus!
