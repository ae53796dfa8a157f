//! Errors of the bridge.

use vstd::prelude::*;

verus! {

/// Errors returned by the batched parity bridge.
#[derive(Debug, Clone, Copy, PartialEq, Eq, Structural)]
pub enum BatchedParityBridgeError {
    /// The committed oracle and transparent coefficient vectors differ in length.
    LengthMismatch {
        /// Number of oracle values.
        oracle_len: usize,
        /// Number of transparent coefficients.
        transparent_len: usize,
    },
    /// A public parity-sum bound overflowed `u64`.
    BoundOverflow {
        /// Output bit whose bound overflowed.
        bit: usize,
    },
    /// An opened selected-bit sum exceeded its public bound.
    SumOutOfRange {
        /// Output bit.
        bit: usize,
        /// Opened selected-bit sum.
        sum: u64,
        /// Public upper bound.
        bound: u64,
    },
    /// An opened selected-bit sum had the wrong parity for the claimed bit.
    BatchedParityCheckFailed,
    /// A sumcheck proof or its inputs are malformed or inconsistent.
    InvalidSumcheck,
}

/// Errors of the verifier's channel.
#[derive(Debug, Clone, Copy, PartialEq, Eq, Structural)]
pub enum ChannelError {
    /// What was received is missing, malformed or inconsistent.
    ProofEmpty,
    /// A value that has to be zero is not.
    InvalidAssert,
}

} // verus!
