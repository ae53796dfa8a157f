//! Verified building blocks for proof systems over binary fields.

pub mod bridge;
pub mod field;
pub mod ghash;
pub mod keccak_check;
pub mod mldsa;
pub mod mlecheck;
pub mod multilinear;
pub mod polynomials;
pub mod powers;
pub mod words;
