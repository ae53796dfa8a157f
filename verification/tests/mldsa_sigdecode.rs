//! Sections of a packed signature.

use rand::rngs::StdRng;
use rand::{Rng, SeedableRng};

use binary_proofs::mldsa::circuit::{CircuitBuilder, Wire};
use binary_proofs::mldsa::params::{Mode, BETA, GAMMA1, L, N};
use binary_proofs::mldsa::polyz::assert_norm_centered;
use binary_proofs::mldsa::sigdecode::{
    pack_signature_native, signature_to_lanes, unpack_c_tilde, unpack_z, SIG_C_TILDE_BYTES,
    SIG_PACKED_BYTES, SIG_PACKED_LANES,
};

const TWO_GAMMA1: u32 = 2 * GAMMA1;

fn check_roundtrip(c_tilde: &[u8; SIG_C_TILDE_BYTES], z: &[[u32; N]; L]) {
    let packed = pack_signature_native(c_tilde, z);
    let lanes = signature_to_lanes(&packed);

    let mut builder = CircuitBuilder::new();
    let sig_wires: [Wire; SIG_PACKED_LANES] =
        std::array::from_fn(|_| builder.add_witness());

    let extracted_c_tilde = unpack_c_tilde(&sig_wires);
    let extracted_z = unpack_z(&mut builder, &sig_wires);

    let expected_c_tilde: [Wire; 4] = std::array::from_fn(|_| builder.add_witness());
    for i in 0..4 {
        builder.assert_eq(extracted_c_tilde[i],
            expected_c_tilde[i],
        );
    }

    let expected_z: [[Wire; N]; L] = std::array::from_fn(|_| {
        std::array::from_fn(|_| builder.add_witness())
    });
    for p in 0..L {
        for j in 0..N {
            builder.assert_eq(extracted_z[p][j],
                expected_z[p][j],
            );
        }
    }

    let mut filler = vec![0u64; builder.len()];
    for (w, &v) in sig_wires.iter().zip(&lanes) {
        filler[w.index] = v;
    }
    let c_tilde_lanes = signature_to_lanes_chunk_4(c_tilde);
    for (w, &v) in expected_c_tilde.iter().zip(&c_tilde_lanes) {
        filler[w.index] = v;
    }
    for p in 0..L {
        for j in 0..N {
            filler[expected_z[p][j].index] = z[p][j] as u64;
        }
    }
    builder.populate_wire_witness(&mut filler);
    assert!(builder.verify_constraints(&filler), "sigdecode round-trip must accept honest witness");
}

fn signature_to_lanes_chunk_4(c_tilde: &[u8; 32]) -> [u64; 4] {
    std::array::from_fn(|i| {
        let mut w = [0u8; 8];
        w.copy_from_slice(&c_tilde[8 * i..8 * (i + 1)]);
        u64::from_le_bytes(w)
    })
}

#[test]
fn signature_layout_constants_match_fips_204() {
    assert_eq!(SIG_PACKED_BYTES, Mode::Mode2.params().sig_bytes);
    assert_eq!(SIG_PACKED_BYTES, 2_420);
    assert_eq!(SIG_PACKED_LANES, 303);
}

#[test]
fn sigdecode_zeros() {
    let c_tilde = [0u8; SIG_C_TILDE_BYTES];
    let z = [[0u32; N]; L];
    check_roundtrip(&c_tilde, &z);
}

#[test]
fn sigdecode_random_seeded() {
    let mut rng = StdRng::seed_from_u64(0xdeadbeef);
    let c_tilde: [u8; SIG_C_TILDE_BYTES] = std::array::from_fn(|_| rng.random());
    let z: [[u32; N]; L] =
        std::array::from_fn(|_| std::array::from_fn(|_| rng.random_range(0..TWO_GAMMA1)));
    check_roundtrip(&c_tilde, &z);
}

#[test]
fn sigdecode_isolates_each_z_polynomial() {
    for p_target in 0..L {
        let c_tilde = [0u8; SIG_C_TILDE_BYTES];
        let z: [[u32; N]; L] = std::array::from_fn(|p| {
            if p == p_target {
                [(p_target as u32 + 1) * 1000; N]
            } else {
                [0u32; N]
            }
        });
        check_roundtrip(&c_tilde, &z);
    }
}

#[test]
fn sigdecode_isolates_c_tilde_from_z() {
    let c_tilde: [u8; SIG_C_TILDE_BYTES] = std::array::from_fn(|i| (i as u8).wrapping_mul(17));
    let z = [[0u32; N]; L];
    check_roundtrip(&c_tilde, &z);
}

#[test]
fn sigdecode_then_norm_check_accepts_in_bound_signature() {
    let mut rng = StdRng::seed_from_u64(0x1234);
    let c_tilde: [u8; SIG_C_TILDE_BYTES] = std::array::from_fn(|_| rng.random());
    let z: [[u32; N]; L] = std::array::from_fn(|_| {
        std::array::from_fn(|_| rng.random_range(BETA + 1..2 * GAMMA1 - BETA))
    });
    let packed = pack_signature_native(&c_tilde, &z);
    let lanes = signature_to_lanes(&packed);

    let mut builder = CircuitBuilder::new();
    let sig_wires: [Wire; SIG_PACKED_LANES] =
        std::array::from_fn(|_| builder.add_witness());
    let extracted_z = unpack_z(&mut builder, &sig_wires);
    for poly in &extracted_z {
        assert_norm_centered(&mut builder, poly);
    }

    let mut filler = vec![0u64; builder.len()];
    for (w, &v) in sig_wires.iter().zip(&lanes) {
        filler[w.index] = v;
    }
    builder.populate_wire_witness(&mut filler);
    assert!(builder.verify_constraints(&filler), "in-bound signature must pass full sigdecode + norm check");
}

#[test]
fn sigdecode_then_norm_check_rejects_out_of_bound_signature() {
    let mut rng = StdRng::seed_from_u64(0x5678);
    let c_tilde: [u8; SIG_C_TILDE_BYTES] = std::array::from_fn(|_| rng.random());
    let mut z: [[u32; N]; L] = std::array::from_fn(|_| {
        std::array::from_fn(|_| rng.random_range(BETA + 1..2 * GAMMA1 - BETA))
    });
    z[L - 1][N - 1] = BETA;
    let packed = pack_signature_native(&c_tilde, &z);
    let lanes = signature_to_lanes(&packed);

    let mut builder = CircuitBuilder::new();
    let sig_wires: [Wire; SIG_PACKED_LANES] =
        std::array::from_fn(|_| builder.add_witness());
    let extracted_z = unpack_z(&mut builder, &sig_wires);
    for poly in &extracted_z {
        assert_norm_centered(&mut builder, poly);
    }

    let mut filler = vec![0u64; builder.len()];
    for (w, &v) in sig_wires.iter().zip(&lanes) {
        filler[w.index] = v;
    }
    builder.populate_wire_witness(&mut filler);
    assert!(!builder.verify_constraints(&filler), "out-of-bound signature must be rejected by sigdecode + norm check");
}
