use vstd::prelude::*;

verus! {

/// Why a single patch directive failed.
#[derive(Clone, Copy, Debug, PartialEq, Eq, Structural)]
pub enum PatchError {
    /// The signature string is not a whitespace-separated list of hex-byte
    /// and wildcard tokens, or it has no tokens at all.
    InvalidPattern,
    /// The compiled signature does not occur anywhere in the buffer.
    PatternNotFound,
    /// Adding the signed offset to the match position overflowed or went
    /// negative.
    OffsetOverflow,
    /// The replacement span starts inside the buffer but runs past its end.
    OutOfBounds,
}

/// Which directive of a sequence failed, and why. The caller owns the
/// directive list, so the index is enough to recover its name and signature
/// for diagnostics.
#[derive(Clone, Copy, Debug, PartialEq, Eq, Structural)]
pub struct PatchFailure {
    pub index: usize,
    pub error: PatchError,
}

} // verus!
