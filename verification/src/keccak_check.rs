//! Reductions for the Keccak permutation over binary fields.

pub mod blocks;
pub mod boolean;
pub mod chains;
pub mod chi_iota;
pub mod claims;
pub mod completeness;
pub mod fused_round;
pub mod honest_runs;
pub mod interpolation;
pub mod laws;
pub mod linear_round;
pub mod linear_steps;
pub mod meanings;
pub mod oblong_round;
pub mod protocol;
pub mod recipe;
pub mod rotation;
pub mod runs;
pub mod trace;
