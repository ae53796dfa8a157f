//! Building blocks of an in-circuit ML-DSA (FIPS 204) verifier for the Dilithium2 parameter set.

pub mod assignments;
pub mod circuit;
pub mod hint;
pub mod honest_signature;
pub mod params;
pub mod polyw1;
pub mod polyz;
pub mod r7;
pub mod rounding;
pub mod shake;
pub mod sigdecode;
pub mod signature_verifier;
pub mod zq;

