//! Fixed-point fractions.
//!
//! Weights, intensities, lengths and penalties count in steps of one part in
//! `ONE`; probabilities count in steps of one part in `CERTAIN`.

use vstd::prelude::*;

verus! {

/// The fixed-point number 1 of weights, intensities, lengths and penalties.
pub const ONE: u64 = 0x1_0000_0000;

/// The probability 1. A probability of at least `CERTAIN` always comes true.
pub const CERTAIN: u128 = 0x1_0000_0000_0000_0000;

/// The largest factor by which a fraction may scale a probability.
pub const MAX_SCALE: u128 = 0x400_0000_0000_0000_0000_0000;

/// The largest penalty, in parts of `ONE`.
pub const MAX_PENALTY: i64 = 0x4000_0000_0000_0000;

} // verus!
