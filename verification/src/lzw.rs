//! Lempel-Ziv-Welch coding with a choice of universal codes for the
//! dictionary indices.
use vstd::prelude::*;

pub mod prefix_tree;
pub mod coder;
pub mod decoder;
pub mod universal_coder;
pub mod universal_decoder;
pub mod laws;
pub mod roundtrip;

verus! {

/// The largest number of entries that a dictionary takes.
pub const MAX_DICT_SIZE: usize = 1_000_000;

} // verus!
