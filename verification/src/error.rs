//! Recoverable failures of the pricing entry points. Fatal conditions —
//! division by a zero magnitude and arithmetic past the representable
//! width — are excluded by preconditions instead and never reported.

use vstd::prelude::*;

verus! {

/// A rejected operation, carrying the operands needed to diagnose it.
#[derive(Clone, Copy, PartialEq, Eq, Structural, Debug)]
pub enum Error {
    /// A supplied weight or target vector does not match the asset list.
    BadWeightDimensions { provided: usize, required: usize },
    /// The minted amount came out below the caller's stated minimum.
    BelowMinTokens { computed: u128, minimum: u128 },
    /// More of an asset was requested than the account has staged.
    InsufficientStaged { index: usize, requested: u128, available: u128 },
    /// A weight vector summing to zero cannot be normalized.
    ZeroWeightSum,
}

} // verus!
