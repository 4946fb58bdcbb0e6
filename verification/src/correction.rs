//! Error correction for noisy channels.
pub mod hamming;
pub mod blocks;
pub mod laws;
