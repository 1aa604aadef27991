//! Exact template matching by normalized cross-correlation.
//!
//! A grayscale template is located inside a grayscale source by scoring
//! every admissible alignment. All arithmetic is done on integers: a score is
//! kept as the ratio `num / sqrt(den_sq)` and scores are compared without
//! rounding, so every search result is a function of the pixels alone.

pub mod buffer;
pub mod decode;
pub mod error;
pub mod find;
pub mod integral;
pub mod laws;
pub mod multi;
pub mod ncc;
mod parallel;
pub mod pyramid;
pub mod rank;
pub mod raster;
pub mod score;
pub mod search;
pub mod sums;
pub mod template;
pub mod text;
pub mod wide;
