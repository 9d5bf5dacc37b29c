use vstd::prelude::*;

verus! {

/// The errors a fingerprint computation can surface.
///
/// All of these are input errors, never transient conditions: each carries
/// enough information to diagnose the call without re-running it.
#[derive(Debug, Clone, Copy, PartialEq, Eq, Structural)]
pub enum KmerError {
    /// A character outside the alphabet `{A, C, T, G}` appeared in the input.
    InvalidSymbol { symbol: char },
    /// The sequence is shorter than the window length `k` (or `k` is zero),
    /// so the window range is empty and no fingerprint is defined.
    EmptyWindowRange { required: u64, actual: u64 },
    /// Two fingerprints built with different `k` were compared.
    DimensionMismatch { left_k: u32, right_k: u32 },
}

} // verus!
