//! Coders for byte streams, with machine-checked contracts.
//!
//! The centre of the crate is [`arithmetic`], an adaptive binary
//! arithmetic (range) coder: an encoder and a decoder that narrow a 32-bit
//! interval in lockstep, driven by an order-0 frequency model that both
//! sides update from the symbols they have seen. Its contracts say what
//! the encoder writes and what the decoder reads, as mathematical
//! functions of the input, and it is proved that decoding an encoding
//! gives the input back.
//!
//! Around it stand
//! - [`lzw`], Lempel-Ziv-Welch coding with Elias and Fibonacci codes for
//!   the dictionary indices,
//! - [`correction`], an extended Hamming code,
//! - [`entropy`], the counts from which entropies are computed,
//! - [`jpegls`], predictors for lossless image coding, and
//! - [`filtering`], a two-band image coding around a quantizer of the
//!   caller's.
//!
//! [`bits`] holds the shared mathematical model of a bit stream packed into
//! bytes, most significant bit first.
pub mod bits;
pub mod arithmetic;
pub mod correction;
pub mod entropy;
pub mod filtering;
pub mod jpegls;
pub mod lzw;
