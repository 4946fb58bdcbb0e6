//! Lossy image coding by a two-band split: the averages of neighbouring
//! pixels, coded as quantized steps, and their half-differences,
//! quantized. The quantizers themselves, which work in floating point,
//! are the caller's.
pub mod coder;
pub mod decoder;
