//! Packing and norm bound of `z` polynomials.

use rand::rngs::StdRng;
use rand::{Rng, SeedableRng};

use binary_proofs::mldsa::circuit::{CircuitBuilder, Wire};
use binary_proofs::mldsa::params::{BETA, GAMMA1, N};
use binary_proofs::mldsa::polyz::{
    assert_norm_centered, pack_to_lanes, polyz_pack_centered_native, polyz_unpack_centered,
    polyz_unpack_centered_native, POLYZ_PACKED_LANES,
};

const TWO_GAMMA1: u32 = 2 * GAMMA1;

fn check_unpack(centered: &[u32; N]) {
    let packed = polyz_pack_centered_native(centered);
    let lanes = pack_to_lanes(&packed);

    let mut builder = CircuitBuilder::new();
    let packed_wires: [Wire; POLYZ_PACKED_LANES] =
        std::array::from_fn(|_| builder.add_witness());
    let expected_wires: [Wire; N] = std::array::from_fn(|_| builder.add_witness());

    let extracted = polyz_unpack_centered(&mut builder, &packed_wires);
    for i in 0..N {
        builder.assert_eq(extracted[i], expected_wires[i]);
    }

    let mut filler = vec![0u64; builder.len()];
    for (w, &v) in packed_wires.iter().zip(&lanes) {
        filler[w.index] = v;
    }
    for (w, &v) in expected_wires.iter().zip(centered) {
        filler[w.index] = v as u64;
    }
    builder.populate_wire_witness(&mut filler);
    assert!(builder.verify_constraints(&filler), "polyz_unpack_centered must accept honest witness");
}

fn try_unpack_and_norm(centered: &[u32; N]) -> Result<(), ()> {
    let packed = polyz_pack_centered_native(centered);
    let lanes = pack_to_lanes(&packed);

    let mut builder = CircuitBuilder::new();
    let packed_wires: [Wire; POLYZ_PACKED_LANES] =
        std::array::from_fn(|_| builder.add_witness());
    let extracted = polyz_unpack_centered(&mut builder, &packed_wires);
    assert_norm_centered(&mut builder, &extracted);

    let mut filler = vec![0u64; builder.len()];
    for (w, &v) in packed_wires.iter().zip(&lanes) {
        filler[w.index] = v;
    }
    builder.populate_wire_witness(&mut filler);
    if builder.verify_constraints(&filler) { Ok(()) } else { Err(()) }
}

#[test]
fn native_pack_then_unpack_round_trips() {
    let mut rng = StdRng::seed_from_u64(0);
    let coeffs: [u32; N] = std::array::from_fn(|_| rng.random_range(0..TWO_GAMMA1));
    let packed = polyz_pack_centered_native(&coeffs);
    let recovered = polyz_unpack_centered_native(&packed);
    assert_eq!(coeffs, recovered);
}

#[test]
fn polyz_unpack_zeros() {
    check_unpack(&[0u32; N]);
}

#[test]
fn polyz_unpack_max_centered() {
    check_unpack(&[TWO_GAMMA1 - 1; N]);
}

#[test]
fn polyz_unpack_random_seeded() {
    let mut rng = StdRng::seed_from_u64(0xc0ffee);
    let coeffs: [u32; N] = std::array::from_fn(|_| rng.random_range(0..TWO_GAMMA1));
    check_unpack(&coeffs);
}

#[test]
fn polyz_unpack_independent_per_index() {
    for k in 0..4 {
        let mut coeffs = [0u32; N];
        for g in 0..N / 4 {
            coeffs[4 * g + k] = TWO_GAMMA1 - 1;
        }
        check_unpack(&coeffs);
    }
}

#[test]
fn norm_accepts_all_zero_centered_around_gamma1() {
    let coeffs = [GAMMA1; N];
    try_unpack_and_norm(&coeffs).expect("gamma1 centered must satisfy the norm bound");
}

#[test]
fn norm_accepts_inner_boundary_lower() {
    let mut coeffs = [GAMMA1; N];
    coeffs[0] = BETA + 1;
    try_unpack_and_norm(&coeffs).expect("centered = beta + 1 must satisfy the norm bound");
}

#[test]
fn norm_accepts_inner_boundary_upper() {
    let mut coeffs = [GAMMA1; N];
    coeffs[0] = 2 * GAMMA1 - BETA - 1;
    try_unpack_and_norm(&coeffs).expect("centered = 2gamma1 - beta - 1 must satisfy the norm bound");
}

#[test]
fn norm_rejects_centered_equal_beta() {
    let mut coeffs = [GAMMA1; N];
    coeffs[42] = BETA;
    assert!(
        try_unpack_and_norm(&coeffs).is_err(),
        "centered = beta must violate the strict norm bound",
    );
}

#[test]
fn norm_rejects_centered_equal_2gamma1_minus_beta() {
    let mut coeffs = [GAMMA1; N];
    coeffs[7] = 2 * GAMMA1 - BETA;
    assert!(
        try_unpack_and_norm(&coeffs).is_err(),
        "centered = 2gamma1 - beta must violate the strict norm bound",
    );
}

#[test]
fn norm_rejects_centered_equal_zero() {
    let mut coeffs = [GAMMA1; N];
    coeffs[1] = 0;
    assert!(try_unpack_and_norm(&coeffs).is_err(), "centered = 0 must violate the norm bound");
}

#[test]
fn norm_rejects_centered_equal_max() {
    let mut coeffs = [GAMMA1; N];
    coeffs[N - 1] = TWO_GAMMA1 - 1;
    assert!(
        try_unpack_and_norm(&coeffs).is_err(),
        "centered = 2gamma1 - 1 must violate the norm bound",
    );
}

#[test]
fn unpack_matches_native_random() {
    let mut rng = StdRng::seed_from_u64(11);
    for _ in 0..4 {
        let coeffs: [u32; N] = std::array::from_fn(|_| rng.random_range(0..TWO_GAMMA1));
        check_unpack(&coeffs);
    }
}

#[test]
fn norm_accepts_uniformly_in_bound() {
    let mut rng = StdRng::seed_from_u64(12);
    for _ in 0..4 {
        let coeffs: [u32; N] =
            std::array::from_fn(|_| rng.random_range(BETA + 1..2 * GAMMA1 - BETA));
        try_unpack_and_norm(&coeffs).unwrap();
    }
}
