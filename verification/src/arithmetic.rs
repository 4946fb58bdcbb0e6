//! Adaptive arithmetic coding over bytes, with an explicit end-of-stream
//! symbol and no header.
pub mod model;
pub mod interval;
pub mod coder;
pub mod decoder;
pub mod roundtrip;
