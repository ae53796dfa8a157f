//! Parameter constants.

use binary_proofs::mldsa::params::{Mode, D, N, Q, Q_INV};

#[test]
fn dilithium2_constants_match_fips_204() {
    let params = Mode::Mode2.params();
    assert_eq!(Q, 8_380_417);
    assert_eq!(N, 256);
    assert_eq!(D, 13);
    assert_eq!(params.k, 4);
    assert_eq!(params.l, 4);
    assert_eq!(params.tau, 39);
    assert_eq!(params.beta, 78);
    assert_eq!(params.omega, 80);
    assert_eq!(params.gamma1, 131_072);
    assert_eq!(params.gamma2, 95_232);
    assert_eq!(params.sig_bytes, 2_420);
    assert_eq!(params.pk_bytes, 1_312);
}

#[test]
fn q_minv_consistency() {
    let prod = (Q as u64).wrapping_mul(Q_INV as u64) as u32;
    assert_eq!(prod, 1u32);
}
