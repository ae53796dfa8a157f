//! A bridge from linear claims over the binary field to claims over a prime field.
//!
//! A claim `y = sum_i t_i * w_i` on a committed oracle `w` with public coefficients `t` is turned into
//! parities of sums of bits of `w`. Sumchecks over a prime field reduce these sums, and that the
//! committed table holds bits, to openings of the table, which a commitment scheme over the prime
//! field discharges.

pub mod acceptance;
pub mod booleanity;
pub mod channel;
pub mod claim_reduction;
pub mod error;
pub mod fp128;
pub mod hachi;
pub mod interpolation;
pub mod lift;
pub mod masks;
pub mod meanings;
pub mod opening;
pub mod packing;
pub mod parity;
pub mod product;
pub mod prover;
pub mod relation;
pub mod round_trip;
pub mod rounds;
pub mod shape;
pub mod statements;
pub mod structured;
pub mod tables;
pub mod wire;

pub use wire::{
    sample_akita_scalar as verify_sample_akita_scalar,
    sample_akita_scalar_vec as verify_sample_akita_scalar_vec,
};
