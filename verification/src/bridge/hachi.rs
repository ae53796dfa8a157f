//! The bridge to the Hachi scheme, which shares its field, framing and parameters with the bridge to
//! the Akita scheme.

pub use super::channel::{HachiSuccinctOracleSetup, HachiSuccinctSetup};
pub use super::wire::{
    read_akita as read_hachi, sample_akita_scalar as sample_hachi_scalar,
    sample_akita_scalar as verify_sample_hachi_scalar,
    sample_akita_scalar_vec as sample_hachi_scalar_vec,
    sample_akita_scalar_vec as verify_sample_hachi_scalar_vec, write_akita as write_hachi,
};
