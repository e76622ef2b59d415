//! Adaptive color quantization: an octree palette reducer with
//! error-diffusion dithering.
//!
//! The pipeline inserts every source pixel into an 8-ary tree keyed by the
//! bits of the three color channels, asks the tree for a palette of at most
//! `K` average colors, and then renders the image through that palette,
//! optionally diffusing the per-pixel quantization residue to neighboring
//! pixels.

pub mod color;
pub mod dither;
pub mod morton;
pub mod octree;

pub use color::ErrRgb;
pub use color::IRgb;
pub use color::SumRgb;
pub use dither::DitherEngine;
pub use dither::DitherMode;
pub use octree::LeafOctree;
