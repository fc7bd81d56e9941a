//! Reversible pixel-position scrambling of raster images.
//!
//! Every algorithm derives position arrays from a key and the image
//! dimensions alone, then moves pixel values through them into a fresh buffer.
//! Pixel values are never altered, so the transforms hide the arrangement of an
//! image and nothing else.

pub mod binary64;
pub mod digest;
pub mod error;
pub mod permutation;
pub mod utils;
pub mod scramble;
