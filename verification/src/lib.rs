//! A deterministic, seed-driven 2D gradient-noise texture generator.
//!
//! A 64-bit seed drives a pinned pseudo-random shuffle that builds a
//! permutation table; classic 2D gradient (Perlin) noise is evaluated over
//! that table in exact fixed-point arithmetic; several octaves are summed
//! into a fractal field; and each field sample is mapped through banded
//! color thresholds into an RGBA pixel buffer.

pub mod fbm;
pub mod noise;
pub mod render;
pub mod table;

pub use table::PermutationTable;
pub use render::generate_noise;
