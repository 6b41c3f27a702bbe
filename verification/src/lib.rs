//! Derivation of a 16-entry terminal color palette from image pixel data:
//! an 8-bit RGB color model with exact rational HSL conversion, a median-cut
//! quantizer, and a brightness-dependent palette adjuster.

pub mod backend;
pub mod brightness;
pub mod color;
pub mod median_cut;
pub mod util;
