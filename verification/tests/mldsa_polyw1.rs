//! Packing of `w1` polynomials, natively and in the circuit.

use rand::rngs::StdRng;
use rand::{Rng, SeedableRng};

use binary_proofs::mldsa::circuit::{CircuitBuilder, Wire};
use binary_proofs::mldsa::params::N;
use binary_proofs::mldsa::polyw1::{
    pack_to_lanes, polyw1_pack, polyw1_pack_native, POLYW1_PACKED_BYTES, POLYW1_PACKED_LANES,
};

const ALPHA: u32 = 44;

fn check_pack(coeffs: &[u32; N]) {
    let expected_lanes = pack_to_lanes(&polyw1_pack_native(coeffs));

    let mut builder = CircuitBuilder::new();
    let coeff_wires: [Wire; N] = std::array::from_fn(|_| builder.add_witness());
    let extracted = polyw1_pack(&mut builder, &coeff_wires);
    let expected_wires: [Wire; POLYW1_PACKED_LANES] =
        std::array::from_fn(|_| builder.add_witness());
    for i in 0..POLYW1_PACKED_LANES {
        builder.assert_eq(extracted[i], expected_wires[i]);
    }

    let mut filler = vec![0u64; builder.len()];
    for (w, &v) in coeff_wires.iter().zip(coeffs) {
        filler[w.index] = v as u64;
    }
    for (w, &v) in expected_wires.iter().zip(&expected_lanes) {
        filler[w.index] = v;
    }
    builder.populate_wire_witness(&mut filler);
    assert!(builder.verify_constraints(&filler), "polyw1_pack must accept honest in-bound witness");
}

#[test]
fn polyw1_pack_zeros() {
    check_pack(&[0u32; N]);
}

#[test]
fn polyw1_pack_max_w1_value() {
    check_pack(&[ALPHA - 1; N]);
}

#[test]
fn polyw1_pack_constant_per_position() {
    for k in 0..4 {
        let mut coeffs = [0u32; N];
        for g in 0..N / 4 {
            coeffs[4 * g + k] = ALPHA - 1;
        }
        check_pack(&coeffs);
    }
}

#[test]
fn polyw1_pack_random_seeded() {
    let mut rng = StdRng::seed_from_u64(0xfeedface);
    let coeffs: [u32; N] = std::array::from_fn(|_| rng.random_range(0..ALPHA));
    check_pack(&coeffs);
}

#[test]
fn polyw1_pack_full_window_values() {
    check_pack(&[0x3f; N]);
}

#[test]
fn polyw1_pack_alternating_extremes() {
    let mut coeffs = [0u32; N];
    for i in 0..N {
        coeffs[i] = if i.is_multiple_of(2) { 43 } else { 0 };
    }
    check_pack(&coeffs);
    for i in 0..N {
        coeffs[i] = if i.is_multiple_of(2) { 0 } else { 43 };
    }
    check_pack(&coeffs);
}

#[test]
fn polyw1_pack_one_set_at_each_lane_boundary() {
    let mut coeffs = [0u32; N];
    for i in 0..N {
        let off = (6 * i) % 64;
        if off > 58 {
            coeffs[i] = 43;
        }
    }
    check_pack(&coeffs);
}

#[test]
fn polyw1_pack_native_zero_polynomial() {
    assert_eq!(polyw1_pack_native(&[0u32; N]), [0u8; POLYW1_PACKED_BYTES]);
}

#[test]
fn polyw1_pack_native_max_w1_value() {
    let packed = polyw1_pack_native(&[43u32; N]);
    assert_eq!(packed[0], 0xeb);
    assert_eq!(packed[1], 0xba);
    assert_eq!(packed[2], 0xae);
}

#[test]
fn polyw1_pack_native_silently_aliases_overflow_bits() {
    let mut coeffs = [0u32; N];
    coeffs[0] = 0x40;
    let packed = polyw1_pack_native(&coeffs);
    assert_eq!(packed[0], 0x40);
    assert_eq!(packed[1], 0);
}
