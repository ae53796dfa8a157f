//! ML-DSA parameter constants.
//!
//! Only the Dilithium2 (ML-DSA-44) parameter set is defined; the [`Mode`] enum is shaped so that
//! others can be added.

use vstd::prelude::*;

verus! {

/// ML-DSA prime modulus `2^23 - 2^13 + 1`.
///
/// Fits in 23 bits, so that any product of two residues fits in 46 bits.
pub const Q: u32 = 8_380_417;

/// The inverse of `Q` modulo `2^32`, the constant of Montgomery reduction.
pub const Q_INV: u32 = 58_728_449;

/// Polynomial degree. Same across all parameter sets.
pub const N: usize = 256;

/// Number of low-order bits dropped from `t` to form `t1`.
pub const D: u32 = 13;

/// Per-mode parameter bundle.
#[derive(Debug, Clone, Copy, PartialEq, Eq, Structural)]
pub struct ModeParams {
    /// Number of rows in the public matrix `A` (and the dimension of `t1`, `w` and the hint vector
    /// `h`).
    pub k: usize,
    /// Number of columns in `A` (and the dimension of the response vector `z`).
    pub l: usize,
    /// Hamming weight of the challenge polynomial `c`.
    pub tau: usize,
    /// Slack term for the norm check on `z`.
    pub beta: u32,
    /// Maximum number of nonzero hint coefficients allowed in `h`.
    pub omega: usize,
    /// Bound on each coefficient of the response vector `z`.
    pub gamma1: u32,
    /// Hint quantum used by `Decompose` and `UseHint`.
    pub gamma2: u32,
    /// Total signature length in bytes.
    pub sig_bytes: usize,
    /// Total public-key length in bytes.
    pub pk_bytes: usize,
}

/// Mode selector.
#[derive(Debug, Clone, Copy, PartialEq, Eq, Structural)]
pub enum Mode {
    /// ML-DSA-44 (Dilithium2), with `k` and `l` both 4.
    Mode2,
}

/// Number of rows of the public matrix for Dilithium2.
pub const K: usize = 4;

/// Number of columns of the public matrix for Dilithium2.
pub const L: usize = 4;

/// Slack term of the norm check for Dilithium2.
pub const BETA: u32 = 78;

/// Maximum number of nonzero hint coefficients for Dilithium2.
pub const OMEGA: usize = 80;

/// Bound on the response coefficients for Dilithium2, `2^17`.
pub const GAMMA1: u32 = 131_072;

/// Hint quantum for Dilithium2, `(Q - 1) / 88`.
pub const GAMMA2: u32 = 95_232;

/// The Dilithium2 parameter bundle.
pub open spec fn mode2() -> ModeParams {
    ModeParams {
        k: K,
        l: L,
        tau: 39,
        beta: BETA,
        omega: OMEGA,
        gamma1: GAMMA1,
        gamma2: GAMMA2,
        sig_bytes: 2420,
        pk_bytes: 1312,
    }
}

impl Mode {
    /// Returns the per-mode constants for this parameter set.
    pub fn params(self) -> (r: ModeParams)
        ensures
            r == mode2(),
    {
        match self {
            Mode::Mode2 => ModeParams {
                k: K,
                l: L,
                tau: 39,
                beta: BETA,
                omega: OMEGA,
                gamma1: GAMMA1,
                gamma2: GAMMA2,
                sig_bytes: 2420,
                pk_bytes: 1312,
            },
        }
    }
}

/// The constants belong together: `gamma1` is `2^17`, `gamma2` is `(Q - 1) / 88`, and `Q_INV`
/// inverts `Q` modulo `2^32`.
pub proof fn law_constants_are_consistent()
    ensures
        GAMMA1 == 0x2_0000,
        88 * GAMMA2 == Q - 1,
        (Q * Q_INV) % 0x1_0000_0000 == 1,
{
}

} // verus!
