//! From `wApprox`, hint and `mu` to the final hash, for one polynomial.

use rand::rngs::StdRng;
use rand::{Rng, SeedableRng};
use sha3::digest::{ExtendableOutput, Update, XofReader};
use sha3::Shake256;

use binary_proofs::mldsa::circuit::{CircuitBuilder, Wire};
use binary_proofs::mldsa::params::{GAMMA2, N, Q};
use binary_proofs::mldsa::polyw1::{polyw1_pack, polyw1_pack_native, POLYW1_PACKED_BYTES};
use binary_proofs::mldsa::rounding::{use_hint, use_hint_native};
use binary_proofs::mldsa::shake::shake256;
use binary_proofs::mldsa::zq::from_u64_witness;

const MU_BYTES: usize = 64;
const MU_LANES: usize = MU_BYTES / 8;
const HASH_INPUT_BYTES: usize = MU_BYTES + POLYW1_PACKED_BYTES;
const HASH_INPUT_LANES: usize = HASH_INPUT_BYTES / 8;
const OUT_LANES: usize = 4;

fn pipeline_native(
    w_approx: &[u32; N],
    hint: &[u32; N],
    mu: &[u8; MU_BYTES],
) -> [u64; OUT_LANES] {
    let w1: [u32; N] = std::array::from_fn(|i| use_hint_native(w_approx[i], hint[i]));
    let packed = polyw1_pack_native(&w1);
    let mut hash_input = vec![0u8; HASH_INPUT_BYTES];
    hash_input[..MU_BYTES].copy_from_slice(mu);
    hash_input[MU_BYTES..].copy_from_slice(&packed);

    let mut hasher = Shake256::default();
    hasher.update(&hash_input);
    let mut reader = hasher.finalize_xof();
    let mut out_bytes = [0u8; OUT_LANES * 8];
    reader.read(&mut out_bytes);
    std::array::from_fn(|i| {
        let mut w = [0u8; 8];
        w.copy_from_slice(&out_bytes[8 * i..8 * (i + 1)]);
        u64::from_le_bytes(w)
    })
}

fn check_pipeline(w_approx: &[u32; N], hint: &[u32; N], mu: &[u8; MU_BYTES]) {
    let expected = pipeline_native(w_approx, hint, mu);

    let mut builder = CircuitBuilder::new();

    let w_approx_wires: [Wire; N] =
        std::array::from_fn(|_| from_u64_witness(&mut builder));
    let hint_wires: [Wire; N] = std::array::from_fn(|_| builder.add_witness());

    let mu_wires: [Wire; MU_LANES] = std::array::from_fn(|_| builder.add_witness());

    let w1_wires: [Wire; N] = std::array::from_fn(|i| {
        use_hint(&mut builder, w_approx_wires[i], hint_wires[i])
    });

    let packed_w1_wires = polyw1_pack(&mut builder, &w1_wires);

    let mut hash_input_wires: Vec<Wire> = Vec::with_capacity(HASH_INPUT_LANES);
    hash_input_wires.extend(mu_wires.iter().copied());
    hash_input_wires.extend(packed_w1_wires.iter().copied());
    assert_eq!(hash_input_wires.len(), HASH_INPUT_LANES);

    let computed = shake256(&mut builder, &hash_input_wires, HASH_INPUT_BYTES, OUT_LANES);

    let expected_wires: [Wire; OUT_LANES] = std::array::from_fn(|_| builder.add_witness());
    for i in 0..OUT_LANES {
        builder.assert_eq(computed[i], expected_wires[i]);
    }

    let mut filler = vec![0u64; builder.len()];
    for (w, &v) in w_approx_wires.iter().zip(w_approx) {
        filler[w.index] = v as u64;
    }
    for (w, &v) in hint_wires.iter().zip(hint) {
        filler[w.index] = v as u64;
    }
    for (w, lane_idx) in mu_wires.iter().zip(0..MU_LANES) {
        let mut lane_bytes = [0u8; 8];
        lane_bytes.copy_from_slice(&mu[8 * lane_idx..8 * (lane_idx + 1)]);
        filler[w.index] = u64::from_le_bytes(lane_bytes);
    }
    for (w, &v) in expected_wires.iter().zip(&expected) {
        filler[w.index] = v;
    }
    builder.populate_wire_witness(&mut filler);
    assert!(builder.verify_constraints(&filler), "R6R7 pipeline must accept honest witness");
}

#[test]
fn pipeline_zeros() {
    check_pipeline(&[0u32; N], &[0u32; N], &[0u8; MU_BYTES]);
}

#[test]
fn pipeline_random_with_random_hints() {
    let mut rng = StdRng::seed_from_u64(0x0b1d_6efa);
    let w_approx: [u32; N] = std::array::from_fn(|_| rng.random_range(0..Q));
    let hint: [u32; N] = std::array::from_fn(|_| rng.random_range(0..2));
    let mu: [u8; MU_BYTES] = std::array::from_fn(|_| rng.random());
    check_pipeline(&w_approx, &hint, &mu);
}

#[test]
fn pipeline_all_hints_set() {
    let mut rng = StdRng::seed_from_u64(0xa11_5e7);
    let w_approx: [u32; N] = std::array::from_fn(|_| rng.random_range(0..Q));
    let hint = [1u32; N];
    let mu: [u8; MU_BYTES] = std::array::from_fn(|_| rng.random());
    check_pipeline(&w_approx, &hint, &mu);
}

#[test]
fn pipeline_inputs_at_decompose_boundaries() {
    let mut w_approx = [0u32; N];
    let gamma2 = GAMMA2;
    for i in 0..N {
        w_approx[i] = match i % 5 {
            0 => 0,
            1 => gamma2,
            2 => 2 * gamma2,
            3 => Q - gamma2,
            _ => Q - 1,
        };
    }
    let hint = [1u32; N];
    let mu = [0u8; MU_BYTES];
    check_pipeline(&w_approx, &hint, &mu);
}

#[test]
fn pipeline_rejects_tampered_hint() {
    let mut rng = StdRng::seed_from_u64(0xfa11);
    let w_approx: [u32; N] = std::array::from_fn(|_| rng.random_range(0..Q));
    let hint: [u32; N] = std::array::from_fn(|_| rng.random_range(0..2));
    let mu: [u8; MU_BYTES] = std::array::from_fn(|_| rng.random());

    let expected = pipeline_native(&w_approx, &hint, &mu);

    let mut builder = CircuitBuilder::new();
    let w_approx_wires: [Wire; N] =
        std::array::from_fn(|_| from_u64_witness(&mut builder));
    let hint_wires: [Wire; N] = std::array::from_fn(|_| builder.add_witness());
    let mu_wires: [Wire; MU_LANES] = std::array::from_fn(|_| builder.add_witness());
    let w1_wires: [Wire; N] = std::array::from_fn(|i| {
        use_hint(&mut builder, w_approx_wires[i], hint_wires[i])
    });
    let packed_w1_wires = polyw1_pack(&mut builder, &w1_wires);
    let mut hash_input_wires: Vec<Wire> = Vec::with_capacity(HASH_INPUT_LANES);
    hash_input_wires.extend(mu_wires.iter().copied());
    hash_input_wires.extend(packed_w1_wires.iter().copied());
    let computed = shake256(&mut builder, &hash_input_wires, HASH_INPUT_BYTES, OUT_LANES);
    let expected_wires: [Wire; OUT_LANES] = std::array::from_fn(|_| builder.add_witness());
    for i in 0..OUT_LANES {
        builder.assert_eq(computed[i], expected_wires[i]);
    }

    let mut filler = vec![0u64; builder.len()];
    for (w, &v) in w_approx_wires.iter().zip(&w_approx) {
        filler[w.index] = v as u64;
    }
    let mut tampered_hint = hint;
    tampered_hint[0] = 1 - tampered_hint[0];
    for (w, &v) in hint_wires.iter().zip(&tampered_hint) {
        filler[w.index] = v as u64;
    }
    for (w, lane_idx) in mu_wires.iter().zip(0..MU_LANES) {
        let mut lane_bytes = [0u8; 8];
        lane_bytes.copy_from_slice(&mu[8 * lane_idx..8 * (lane_idx + 1)]);
        filler[w.index] = u64::from_le_bytes(lane_bytes);
    }
    for (w, &v) in expected_wires.iter().zip(&expected) {
        filler[w.index] = v;
    }
    builder.populate_wire_witness(&mut filler);
    assert!(!builder.verify_constraints(&filler), "pipeline must reject tampered hint");
}
