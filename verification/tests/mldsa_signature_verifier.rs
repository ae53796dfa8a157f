//! The circuit of a whole signature.

use rand::rngs::StdRng;
use rand::{Rng, SeedableRng};
use sha3::digest::{ExtendableOutput, Update, XofReader};
use sha3::Shake256;

use binary_proofs::mldsa::circuit::{CircuitBuilder, Wire};
use binary_proofs::mldsa::hint::{pack_h_native, HINT_SECTION_BYTES};
use binary_proofs::mldsa::params::{BETA, GAMMA1, K, L, N, OMEGA, Q};
use binary_proofs::mldsa::polyw1::{polyw1_pack_native, POLYW1_PACKED_BYTES};
use binary_proofs::mldsa::r7::{HASH_INPUT_BYTES, MU_BYTES, MU_LANES};
use binary_proofs::mldsa::rounding::use_hint_native;
use binary_proofs::mldsa::sigdecode::{
    pack_signature_native, signature_to_lanes, SIG_C_TILDE_BYTES, SIG_H_LANE_OFFSET,
    SIG_PACKED_BYTES, SIG_PACKED_LANES,
};
use binary_proofs::mldsa::signature_verifier::MlDsaVerifier;
use binary_proofs::mldsa::zq::from_u64_witness;

struct SignatureWitness {
    sig_lanes: [u64; SIG_PACKED_LANES],
    mu: [u8; MU_BYTES],
    w_approx: [[u32; N]; K],
    hint: [[u32; N]; K],
}

fn build_honest_witness(seed: u64) -> SignatureWitness {
    let mut rng = StdRng::seed_from_u64(seed);

    let z_centered: [[u32; N]; L] = std::array::from_fn(|_| {
        std::array::from_fn(|_| rng.random_range(BETA + 1..2 * GAMMA1 - BETA))
    });

    let w_approx: [[u32; N]; K] =
        std::array::from_fn(|_| std::array::from_fn(|_| rng.random_range(0..Q)));
    let hint = random_sparse_hint(&mut rng);
    let mu: [u8; MU_BYTES] = std::array::from_fn(|_| rng.random());

    let c_tilde = r7_native(&w_approx, &hint, &mu);

    let mut packed = pack_signature_native(&c_tilde, &z_centered);
    let h_polyvec_u8: [[u8; N]; K] = std::array::from_fn(|k| {
        std::array::from_fn(|p| hint[k][p] as u8)
    });
    let h_section = pack_h_native(&h_polyvec_u8);
    let h_byte_offset = SIG_H_LANE_OFFSET * 8;
    packed[h_byte_offset..h_byte_offset + HINT_SECTION_BYTES].copy_from_slice(&h_section);
    let sig_lanes = signature_to_lanes(&packed);

    SignatureWitness { sig_lanes, mu, w_approx, hint }
}

fn random_sparse_hint(rng: &mut StdRng) -> [[u32; N]; K] {
    let total = rng.random_range(0..=OMEGA);
    let mut placed = 0usize;
    let mut h = [[0u32; N]; K];
    for poly in h.iter_mut() {
        if placed >= total {
            break;
        }
        let this_count = rng.random_range(0..=(total - placed).min(40));
        let mut positions: Vec<usize> = (0..N).collect();
        for i in 0..this_count.min(positions.len()) {
            let j = rng.random_range(i..positions.len());
            positions.swap(i, j);
        }
        for &p in &positions[..this_count] {
            poly[p] = 1;
        }
        placed += this_count;
    }
    h
}

fn r7_native(
    w_approx: &[[u32; N]; K],
    hint: &[[u32; N]; K],
    mu: &[u8; MU_BYTES],
) -> [u8; SIG_C_TILDE_BYTES] {
    let mut hash_input = vec![0u8; HASH_INPUT_BYTES];
    hash_input[..MU_BYTES].copy_from_slice(mu);
    for k in 0..K {
        let w1: [u32; N] =
            std::array::from_fn(|i| use_hint_native(w_approx[k][i], hint[k][i]));
        let packed = polyw1_pack_native(&w1);
        let off = MU_BYTES + k * POLYW1_PACKED_BYTES;
        hash_input[off..off + POLYW1_PACKED_BYTES].copy_from_slice(&packed);
    }

    let mut hasher = Shake256::default();
    hasher.update(&hash_input);
    let mut reader = hasher.finalize_xof();
    let mut out = [0u8; SIG_C_TILDE_BYTES];
    reader.read(&mut out);
    out
}

fn run_verifier(w: &SignatureWitness) -> Result<(), ()> {
    let mut builder = CircuitBuilder::new();

    let sig_wires: [Wire; SIG_PACKED_LANES] =
        std::array::from_fn(|_| builder.add_witness());
    let mu_wires: [Wire; MU_LANES] = std::array::from_fn(|_| builder.add_witness());
    let w_approx_wires: [[Wire; N]; K] =
        std::array::from_fn(|_| std::array::from_fn(|_| from_u64_witness(&mut builder)));

    let verifier =
        MlDsaVerifier::new(&mut builder, &sig_wires, &mu_wires, &w_approx_wires);

    let mut filler = vec![0u64; builder.len()];
    for (wire, &v) in sig_wires.iter().zip(&w.sig_lanes) {
        filler[wire.index] = v;
    }
    let mu_lanes: [u64; MU_LANES] = std::array::from_fn(|i| {
        let mut bytes = [0u8; 8];
        bytes.copy_from_slice(&w.mu[8 * i..8 * (i + 1)]);
        u64::from_le_bytes(bytes)
    });
    for (wire, &v) in mu_wires.iter().zip(&mu_lanes) {
        filler[wire.index] = v;
    }
    for k in 0..K {
        for i in 0..N {
            filler[w_approx_wires[k][i].index] = w.w_approx[k][i] as u64;
            filler[verifier.hint[k][i].index] = w.hint[k][i] as u64;
        }
    }
    builder.populate_wire_witness(&mut filler);
    if builder.verify_constraints(&filler) { Ok(()) } else { Err(()) }
}

fn flip_sig_byte(sig_lanes: &mut [u64; SIG_PACKED_LANES], byte_offset: usize) {
    assert!(byte_offset < SIG_PACKED_BYTES);
    let lane_idx = byte_offset / 8;
    let bit = (byte_offset % 8) * 8;
    sig_lanes[lane_idx] ^= 1u64 << bit;
}

#[test]
fn phase1_verifier_accepts_honest_synthetic_signature() {
    let w = build_honest_witness(0);
    run_verifier(&w).expect("honest synthetic witness must verify");
}

#[test]
fn phase1_verifier_accepts_multiple_seeds() {
    for seed in 1..4 {
        let w = build_honest_witness(seed);
        run_verifier(&w)
            .unwrap_or_else(|_| panic!("seed {seed} honest witness must verify"));
    }
}

#[test]
fn phase1_verifier_rejects_tampered_c_tilde_byte() {
    let mut w = build_honest_witness(10);
    flip_sig_byte(&mut w.sig_lanes, 7);
    assert!(
        run_verifier(&w).is_err(),
        "verifier must reject c~ tampering",
    );
}

#[test]
fn phase1_verifier_rejects_z_out_of_norm() {
    let mut w = build_honest_witness(11);
    let z_first_lane = 4;
    w.sig_lanes[z_first_lane] = 0;
    assert!(
        run_verifier(&w).is_err(),
        "verifier must reject out-of-norm z (centered = 0 violates beta < centered)",
    );
}

#[test]
fn phase1_verifier_rejects_tampered_mu() {
    let mut w = build_honest_witness(12);
    w.mu[0] ^= 0x55;
    assert!(
        run_verifier(&w).is_err(),
        "verifier must reject tampered mu (R7 binding fails)",
    );
}

#[test]
fn phase1_verifier_rejects_tampered_w_approx() {
    let mut w = build_honest_witness(13);
    let original_w1 = use_hint_native(w.w_approx[0][0], w.hint[0][0]);
    let mut try_value = (w.w_approx[0][0] + 1) % Q;
    while use_hint_native(try_value, w.hint[0][0]) == original_w1 {
        try_value = (try_value + 1) % Q;
    }
    w.w_approx[0][0] = try_value;
    assert!(
        run_verifier(&w).is_err(),
        "verifier must reject wApprox tamper that changes use_hint output",
    );
}

#[test]
fn phase1_verifier_rejects_tampered_hint() {
    let mut w = build_honest_witness(14);
    w.hint[0][0] ^= 1;
    assert!(
        run_verifier(&w).is_err(),
        "verifier must reject tampered prover-supplied hint witness",
    );
}

#[test]
fn phase1_verifier_rejects_tampered_h_section_of_sig() {
    let mut w = build_honest_witness(15);
    let h_byte_offset = SIG_H_LANE_OFFSET * 8;
    let target_byte = h_byte_offset + 50;
    let lane_idx = target_byte / 8;
    let bit_in_lane = (target_byte % 8) * 8;
    w.sig_lanes[lane_idx] ^= 1u64 << bit_in_lane;
    assert!(
        run_verifier(&w).is_err(),
        "verifier must reject tampering of sigma's h section",
    );
}

#[test]
fn phase1_verifier_rejects_tampered_w_approx_at_deep_interior() {
    let mut w = build_honest_witness(15);
    let last_k = K - 1;
    let last_i = N - 1;
    let original_w1 = use_hint_native(w.w_approx[last_k][last_i], w.hint[last_k][last_i]);
    let mut try_value = (w.w_approx[last_k][last_i] + 1) % Q;
    while use_hint_native(try_value, w.hint[last_k][last_i]) == original_w1 {
        try_value = (try_value + 1) % Q;
    }
    w.w_approx[last_k][last_i] = try_value;
    assert!(
        run_verifier(&w).is_err(),
        "verifier must reject wApprox tamper at the deepest polyvec slot",
    );
}

#[test]
fn phase1_verifier_rejects_tampered_z_at_polyvec_interior() {
    let mut w = build_honest_witness(16);
    let z_last_lane = 4 + (L - 1) * 72 + 71;
    w.sig_lanes[z_last_lane] = u64::MAX;
    assert!(
        run_verifier(&w).is_err(),
        "verifier must reject out-of-norm z at the last polyvec slot",
    );
}

#[test]
fn phase1_verifier_accepts_w_approx_perturbed_within_hint_slack() {
    let mut w = build_honest_witness(17);
    let original_w1 = use_hint_native(w.w_approx[0][0], w.hint[0][0]);
    let mut perturbed = (w.w_approx[0][0] + 1) % Q;
    while use_hint_native(perturbed, w.hint[0][0]) != original_w1 || perturbed == w.w_approx[0][0]
    {
        perturbed = (perturbed + 1) % Q;
    }
    w.w_approx[0][0] = perturbed;
    run_verifier(&w).expect(
        "verifier must accept wApprox perturbations within the hint slack \
         - this is the same correctness property as `r7_accepts_w_approx_perturbed_within_hint_slack`",
    );
}
