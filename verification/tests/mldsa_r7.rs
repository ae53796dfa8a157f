//! The final hash equation for all polynomials.

use rand::rngs::StdRng;
use rand::{Rng, SeedableRng};
use sha3::digest::{ExtendableOutput, Update, XofReader};
use sha3::Shake256;

use binary_proofs::mldsa::circuit::{CircuitBuilder, Wire};
use binary_proofs::mldsa::params::{GAMMA2, K, N, Q};
use binary_proofs::mldsa::polyw1::{polyw1_pack_native, POLYW1_PACKED_BYTES};
use binary_proofs::mldsa::r7::{assert_r7, C_TILDE_LANES, HASH_INPUT_BYTES, MU_BYTES, MU_LANES};
use binary_proofs::mldsa::rounding::use_hint_native;
use binary_proofs::mldsa::zq::from_u64_witness;

fn r7_native(
    w_approx: &[[u32; N]; K],
    hint: &[[u32; N]; K],
    mu: &[u8; MU_BYTES],
) -> [u64; C_TILDE_LANES] {
    let mut hash_input = vec![0u8; HASH_INPUT_BYTES];
    hash_input[..MU_BYTES].copy_from_slice(mu);
    for k in 0..K {
        let w1: [u32; N] =
            std::array::from_fn(|i| use_hint_native(w_approx[k][i], hint[k][i]));
        let packed = polyw1_pack_native(&w1);
        let off = MU_BYTES + k * POLYW1_PACKED_BYTES;
        hash_input[off..off + POLYW1_PACKED_BYTES].copy_from_slice(&packed);
    }

    let mut hasher = Shake256::default();
    hasher.update(&hash_input);
    let mut reader = hasher.finalize_xof();
    let mut out_bytes = [0u8; C_TILDE_LANES * 8];
    reader.read(&mut out_bytes);
    std::array::from_fn(|i| {
        let mut w = [0u8; 8];
        w.copy_from_slice(&out_bytes[8 * i..8 * (i + 1)]);
        u64::from_le_bytes(w)
    })
}

fn mu_to_lanes(mu: &[u8; MU_BYTES]) -> [u64; MU_LANES] {
    std::array::from_fn(|i| {
        let mut w = [0u8; 8];
        w.copy_from_slice(&mu[8 * i..8 * (i + 1)]);
        u64::from_le_bytes(w)
    })
}

fn run_r7(
    w_approx: &[[u32; N]; K],
    hint: &[[u32; N]; K],
    mu: &[u8; MU_BYTES],
    c_tilde: &[u64; C_TILDE_LANES],
) -> Result<(), ()> {
    let mut builder = CircuitBuilder::new();

    let w_approx_wires: [[Wire; N]; K] =
        std::array::from_fn(|_| std::array::from_fn(|_| from_u64_witness(&mut builder)));
    let hint_wires: [[Wire; N]; K] =
        std::array::from_fn(|_| std::array::from_fn(|_| builder.add_witness()));
    let mu_wires: [Wire; MU_LANES] = std::array::from_fn(|_| builder.add_witness());
    let c_tilde_wires: [Wire; C_TILDE_LANES] =
        std::array::from_fn(|_| builder.add_witness());

    assert_r7(&mut builder, &w_approx_wires, &hint_wires, &mu_wires, &c_tilde_wires);

    let mut filler = vec![0u64; builder.len()];
    for k in 0..K {
        for i in 0..N {
            filler[w_approx_wires[k][i].index] = w_approx[k][i] as u64;
            filler[hint_wires[k][i].index] = hint[k][i] as u64;
        }
    }
    let mu_lanes = mu_to_lanes(mu);
    for (w, &v) in mu_wires.iter().zip(&mu_lanes) {
        filler[w.index] = v;
    }
    for (w, &v) in c_tilde_wires.iter().zip(c_tilde) {
        filler[w.index] = v;
    }

    builder.populate_wire_witness(&mut filler);
    if builder.verify_constraints(&filler) { Ok(()) } else { Err(()) }
}

fn random_honest_witness(seed: u64) -> ([[u32; N]; K], [[u32; N]; K], [u8; MU_BYTES]) {
    let mut rng = StdRng::seed_from_u64(seed);
    let w_approx: [[u32; N]; K] =
        std::array::from_fn(|_| std::array::from_fn(|_| rng.random_range(0..Q)));
    let hint: [[u32; N]; K] =
        std::array::from_fn(|_| std::array::from_fn(|_| rng.random_range(0..2)));
    let mu: [u8; MU_BYTES] = std::array::from_fn(|_| rng.random());
    (w_approx, hint, mu)
}

#[test]
fn r7_accepts_honest_random_zero() {
    let (w_approx, hint, mu) = random_honest_witness(0);
    let c_tilde = r7_native(&w_approx, &hint, &mu);
    run_r7(&w_approx, &hint, &mu, &c_tilde).expect("honest R7 must be accepted");
}

#[test]
fn r7_accepts_honest_random_seed_1() {
    let (w_approx, hint, mu) = random_honest_witness(1);
    let c_tilde = r7_native(&w_approx, &hint, &mu);
    run_r7(&w_approx, &hint, &mu, &c_tilde).expect("honest R7 must be accepted");
}

#[test]
fn r7_accepts_zero_inputs() {
    let w_approx = [[0u32; N]; K];
    let hint = [[0u32; N]; K];
    let mu = [0u8; MU_BYTES];
    let c_tilde = r7_native(&w_approx, &hint, &mu);
    run_r7(&w_approx, &hint, &mu, &c_tilde).expect("zero-input R7 must be accepted");
}

#[test]
fn r7_accepts_inputs_at_decompose_boundaries() {
    let mut w_approx = [[0u32; N]; K];
    let gamma2 = GAMMA2;
    for k in 0..K {
        for i in 0..N {
            w_approx[k][i] = match (k * N + i) % 5 {
                0 => 0,
                1 => gamma2,
                2 => 2 * gamma2,
                3 => Q - gamma2,
                _ => Q - 1,
            };
        }
    }
    let hint = [[1u32; N]; K];
    let mu = [0u8; MU_BYTES];
    let c_tilde = r7_native(&w_approx, &hint, &mu);
    run_r7(&w_approx, &hint, &mu, &c_tilde)
        .expect("decompose-boundary R7 must be accepted");
}

#[test]
fn r7_rejects_tampered_c_tilde() {
    let (w_approx, hint, mu) = random_honest_witness(2);
    let mut c_tilde = r7_native(&w_approx, &hint, &mu);
    c_tilde[0] ^= 1;
    assert!(
        run_r7(&w_approx, &hint, &mu, &c_tilde).is_err(),
        "R7 must reject tampered c~",
    );
}

#[test]
fn r7_accepts_w_approx_perturbed_within_hint_slack() {
    let (w_approx, hint, mu) = random_honest_witness(3);
    let honest_c_tilde = r7_native(&w_approx, &hint, &mu);

    let mut perturbed = w_approx;
    let original_w1 = use_hint_native(w_approx[0][0], hint[0][0]);
    let mut try_value = (w_approx[0][0] + 1) % Q;
    while use_hint_native(try_value, hint[0][0]) != original_w1 || try_value == w_approx[0][0]
    {
        try_value = (try_value + 1) % Q;
    }
    perturbed[0][0] = try_value;
    assert_ne!(perturbed[0][0], w_approx[0][0], "must actually have perturbed");

    run_r7(&perturbed, &hint, &mu, &honest_c_tilde).expect(
        "R7 must accept wApprox perturbations within the hint slack - this is the whole \
         point of ML-DSA hints, not a soundness bug",
    );
}

#[test]
fn r7_rejects_w_approx_perturbed_outside_hint_slack() {
    let (mut w_approx, hint, mu) = random_honest_witness(3);
    let honest_c_tilde = r7_native(&w_approx, &hint, &mu);

    let original_w1 = use_hint_native(w_approx[0][0], hint[0][0]);
    let mut try_value = (w_approx[0][0] + 1) % Q;
    while use_hint_native(try_value, hint[0][0]) == original_w1 {
        try_value = (try_value + 1) % Q;
    }
    w_approx[0][0] = try_value;
    assert_ne!(use_hint_native(try_value, hint[0][0]), original_w1);

    assert!(
        run_r7(&w_approx, &hint, &mu, &honest_c_tilde).is_err(),
        "R7 must reject wApprox tampers that change use_hint output",
    );
}

#[test]
fn r7_rejects_tampered_hint() {
    let (w_approx, mut hint, mu) = random_honest_witness(4);
    let honest_c_tilde = r7_native(&w_approx, &hint, &mu);
    hint[0][0] = 1 - hint[0][0];
    assert!(
        run_r7(&w_approx, &hint, &mu, &honest_c_tilde).is_err(),
        "R7 must reject tampered hint",
    );
}

#[test]
fn r7_rejects_tampered_mu() {
    let (w_approx, hint, mut mu) = random_honest_witness(5);
    let honest_c_tilde = r7_native(&w_approx, &hint, &mu);
    mu[0] ^= 0x55;
    assert!(
        run_r7(&w_approx, &hint, &mu, &honest_c_tilde).is_err(),
        "R7 must reject tampered mu",
    );
}

#[test]
fn r7_rejects_w_approx_perturbed_outside_hint_slack_at_polyvec_interior() {
    let (mut w_approx, hint, mu) = random_honest_witness(6);
    let honest_c_tilde = r7_native(&w_approx, &hint, &mu);

    let last_k = K - 1;
    let last_i = N - 1;
    let original_w1 = use_hint_native(w_approx[last_k][last_i], hint[last_k][last_i]);
    let mut try_value = (w_approx[last_k][last_i] + 1) % Q;
    while use_hint_native(try_value, hint[last_k][last_i]) == original_w1 {
        try_value = (try_value + 1) % Q;
    }
    w_approx[last_k][last_i] = try_value;

    assert!(
        run_r7(&w_approx, &hint, &mu, &honest_c_tilde).is_err(),
        "R7 must reject wApprox tampering at the very last polyvec slot",
    );
}

#[test]
fn r7_rejects_tampered_hint_at_polyvec_interior() {
    let (w_approx, mut hint, mu) = random_honest_witness(7);
    let honest_c_tilde = r7_native(&w_approx, &hint, &mu);
    hint[K / 2][N / 2] = 1 - hint[K / 2][N / 2];
    assert!(
        run_r7(&w_approx, &hint, &mu, &honest_c_tilde).is_err(),
        "R7 must reject tampered hint at the polyvec midpoint",
    );
}

#[test]
fn r7_rejects_hint_geq_2() {
    let (w_approx, mut hint, mu) = random_honest_witness(8);
    let honest_c_tilde = r7_native(&w_approx, &hint, &mu);
    hint[0][0] = 2;
    assert!(
        run_r7(&w_approx, &hint, &mu, &honest_c_tilde).is_err(),
        "R7 must reject hint = 2 (caught by use_hint's range check)",
    );
}
