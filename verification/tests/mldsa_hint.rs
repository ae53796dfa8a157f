//! The hint section of a signature.

use rand::rngs::StdRng;
use rand::{Rng, SeedableRng};

use binary_proofs::mldsa::circuit::{CircuitBuilder, Wire};
use binary_proofs::mldsa::hint::{pack_h_native, unpack_h, HINT_SECTION_BYTES};
use binary_proofs::mldsa::params::{K, N, OMEGA};
use binary_proofs::mldsa::sigdecode::{
    signature_to_lanes, SIG_H_LANE_OFFSET, SIG_PACKED_BYTES, SIG_PACKED_LANES,
};

fn embed_hint_section(h_bytes: &[u8; HINT_SECTION_BYTES]) -> [u64; SIG_PACKED_LANES] {
    let mut sig = [0u8; SIG_PACKED_BYTES];
    let h_byte_offset = SIG_H_LANE_OFFSET * 8;
    sig[h_byte_offset..h_byte_offset + HINT_SECTION_BYTES].copy_from_slice(h_bytes);
    signature_to_lanes(&sig)
}

fn embed_hint_section_with_overrides(
    mut h_bytes: [u8; HINT_SECTION_BYTES],
    overrides: &[(usize, u8)],
) -> [u64; SIG_PACKED_LANES] {
    for &(idx, val) in overrides {
        h_bytes[idx] = val;
    }
    embed_hint_section(&h_bytes)
}

fn run_unpack(
    sig_lanes: &[u64; SIG_PACKED_LANES],
    witnessed_h: &[[u8; N]; K],
) -> Result<(), ()> {
    let mut builder = CircuitBuilder::new();
    let sig_wires: [Wire; SIG_PACKED_LANES] =
        std::array::from_fn(|_| builder.add_witness());
    let extracted = unpack_h(&mut builder, &sig_wires);

    let mut filler = vec![0u64; builder.len()];
    for (w, &v) in sig_wires.iter().zip(sig_lanes) {
        filler[w.index] = v;
    }
    for k in 0..K {
        for p in 0..N {
            filler[extracted[k][p].index] = witnessed_h[k][p] as u64;
        }
    }
    builder.populate_wire_witness(&mut filler);
    if builder.verify_constraints(&filler) { Ok(()) } else { Err(()) }
}

#[test]
fn native_pack_and_offsets_consistent() {
    let mut h = [[0u8; N]; K];
    h[0][5] = 1;
    h[0][100] = 1;
    h[1][0] = 1;
    h[2][255] = 1;
    let packed = pack_h_native(&h);
    assert_eq!(packed[0], 5);
    assert_eq!(packed[1], 100);
    assert_eq!(packed[2], 0);
    assert_eq!(packed[3], 255);
    assert_eq!(packed[OMEGA], 2);
    assert_eq!(packed[OMEGA + 1], 3);
    assert_eq!(packed[OMEGA + 2], 4);
    assert_eq!(packed[OMEGA + 3], 4);
}

#[test]
fn unpack_h_accepts_all_zero() {
    let h = [[0u8; N]; K];
    let packed = pack_h_native(&h);
    let sig_lanes = embed_hint_section(&packed);
    run_unpack(&sig_lanes, &h).expect("all-zero hint must be accepted");
}

#[test]
fn unpack_h_accepts_one_per_poly() {
    let mut h = [[0u8; N]; K];
    for k in 0..K {
        h[k][k * 60 + 17] = 1;
    }
    let packed = pack_h_native(&h);
    let sig_lanes = embed_hint_section(&packed);
    run_unpack(&sig_lanes, &h).expect("1-per-poly hint must be accepted");
}

#[test]
fn unpack_h_accepts_one_polynomial_only() {
    let mut h = [[0u8; N]; K];
    for p in (0..20).map(|i| i * 13) {
        h[0][p] = 1;
    }
    let packed = pack_h_native(&h);
    let sig_lanes = embed_hint_section(&packed);
    run_unpack(&sig_lanes, &h).expect("single-poly hint must be accepted");
}

#[test]
fn unpack_h_accepts_omega_full_density() {
    let mut h = [[0u8; N]; K];
    for k in 0..K {
        for j in 0..20 {
            h[k][j * 12] = 1;
        }
    }
    let packed = pack_h_native(&h);
    let sig_lanes = embed_hint_section(&packed);
    run_unpack(&sig_lanes, &h).expect("OMEGA-density hint must be accepted");
}

#[test]
fn unpack_h_accepts_random_seeded() {
    for seed in 0..3 {
        let mut rng = StdRng::seed_from_u64(seed);
        let mut h = [[0u8; N]; K];
        let total_nonzeros = rng.random_range(0..=OMEGA);
        let mut placed = 0usize;
        for k in 0..K {
            if placed >= total_nonzeros {
                break;
            }
            let this_count = rng.random_range(0..=(total_nonzeros - placed).min(40));
            let mut positions: Vec<usize> = (0..N).collect();
            for i in 0..this_count.min(positions.len()) {
                let j = rng.random_range(i..positions.len());
                positions.swap(i, j);
            }
            let mut chosen: Vec<usize> = positions[..this_count].to_vec();
            chosen.sort_unstable();
            for p in chosen {
                h[k][p] = 1;
            }
            placed += this_count;
        }
        let packed = pack_h_native(&h);
        let sig_lanes = embed_hint_section(&packed);
        run_unpack(&sig_lanes, &h)
            .unwrap_or_else(|_| panic!("seed {seed} random hint must be accepted"));
    }
}

#[test]
fn unpack_h_rejects_non_monotone_offsets() {
    let mut h = [[0u8; N]; K];
    for k in 0..K {
        h[k][k * 50] = 1;
    }
    let packed = pack_h_native(&h);
    let sig_lanes = embed_hint_section_with_overrides(
        packed,
        &[(OMEGA, 2), (OMEGA + 1, 1)],
    );
    assert!(
        run_unpack(&sig_lanes, &h).is_err(),
        "non-monotone offsets must be rejected",
    );
}

#[test]
fn unpack_h_rejects_offset_above_omega() {
    let mut h = [[0u8; N]; K];
    h[0][7] = 1;
    let packed = pack_h_native(&h);
    let sig_lanes =
        embed_hint_section_with_overrides(packed, &[(OMEGA + K - 1, 81)]);
    assert!(
        run_unpack(&sig_lanes, &h).is_err(),
        "offset > OMEGA must be rejected",
    );
}

#[test]
fn unpack_h_rejects_non_strict_ordering() {
    let mut h = [[0u8; N]; K];
    h[0][5] = 1;
    h[0][10] = 1;
    let packed = pack_h_native(&h);
    let sig_lanes = embed_hint_section_with_overrides(packed, &[(0, 10), (1, 5)]);
    assert!(
        run_unpack(&sig_lanes, &h).is_err(),
        "non-strict ordering within a polynomial must be rejected",
    );
}

#[test]
fn unpack_h_rejects_duplicate_index_within_polynomial() {
    let mut h = [[0u8; N]; K];
    h[0][5] = 1;
    h[0][10] = 1;
    let packed = pack_h_native(&h);
    let sig_lanes = embed_hint_section_with_overrides(packed, &[(1, 5)]);
    assert!(
        run_unpack(&sig_lanes, &h).is_err(),
        "duplicate index within a polynomial must be rejected (violates strict ordering)",
    );
}

#[test]
fn unpack_h_rejects_nonzero_dead_byte() {
    let mut h = [[0u8; N]; K];
    h[0][7] = 1;
    let packed = pack_h_native(&h);
    let sig_lanes = embed_hint_section_with_overrides(packed, &[(1, 42)]);
    assert!(
        run_unpack(&sig_lanes, &h).is_err(),
        "non-zero dead byte must be rejected",
    );
}

#[test]
fn unpack_h_rejects_bit_count_mismatch() {
    let mut h = [[0u8; N]; K];
    h[0][7] = 1;
    h[0][20] = 1;
    let packed = pack_h_native(&h);
    let sig_lanes = embed_hint_section(&packed);

    let mut tampered_h = h;
    tampered_h[0][20] = 0;
    assert!(
        run_unpack(&sig_lanes, &tampered_h).is_err(),
        "witnessed-bit-count mismatch with encoded offset must be rejected",
    );
}

#[test]
fn unpack_h_rejects_wrong_position_with_correct_count() {
    let mut h = [[0u8; N]; K];
    h[0][7] = 1;
    let packed = pack_h_native(&h);
    let sig_lanes = embed_hint_section(&packed);

    let mut tampered_h = [[0u8; N]; K];
    tampered_h[0][8] = 1;
    assert!(
        run_unpack(&sig_lanes, &tampered_h).is_err(),
        "wrong hint position (cardinality preserved) must be rejected",
    );
}

#[test]
fn unpack_h_rejects_h_bit_geq_2() {
    let mut h = [[0u8; N]; K];
    h[0][7] = 1;
    let packed = pack_h_native(&h);
    let sig_lanes = embed_hint_section(&packed);

    let mut tampered_h = h;
    tampered_h[0][7] = 2;
    assert!(
        run_unpack(&sig_lanes, &tampered_h).is_err(),
        "hint bit > 1 must be rejected by the per-bit `< 2` range check",
    );
}

#[test]
fn unpack_h_handles_index_byte_equal_to_byte_position() {
    let mut h = [[0u8; N]; K];
    for j in 0..4 {
        h[0][j] = 1;
    }
    let packed = pack_h_native(&h);
    let sig_lanes = embed_hint_section(&packed);
    run_unpack(&sig_lanes, &h)
        .expect("ascending index sequence at small positions must be accepted");
}

#[test]
fn different_hints_have_different_sections() {
    let mut first = [[0u8; 256]; 4];
    first[0][7] = 1;
    let mut second = [[0u8; 256]; 4];
    second[1][7] = 1;
    let mut third = [[0u8; 256]; 4];
    third[0][8] = 1;
    let sections = [pack_h_native(&first), pack_h_native(&second), pack_h_native(&third)];
    assert_ne!(sections[0], sections[1]);
    assert_ne!(sections[0], sections[2]);
    assert_ne!(sections[1], sections[2]);
    assert_eq!(sections[0][0], 7);
    assert_eq!(sections[0][80..], [1, 1, 1, 1]);
    assert_eq!(sections[1][80..], [0, 1, 1, 1]);
}
