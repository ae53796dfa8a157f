//! SHAKE256 in the circuit against the `sha3` crate.

use sha3::digest::{ExtendableOutput, Update, XofReader};
use sha3::Shake256;

use binary_proofs::mldsa::circuit::{CircuitBuilder, Wire};
use binary_proofs::mldsa::shake::{
    shake256, shake256_fixed, Shake256Sponge, SHAKE256_RATE_BYTES, SHAKE256_RATE_LANES,
};

fn pack_le_lanes(bytes: &[u8]) -> Vec<u64> {
    let mut out = Vec::with_capacity(bytes.len().div_ceil(8));
    for chunk in bytes.chunks(8) {
        let mut w = [0u8; 8];
        w[..chunk.len()].copy_from_slice(chunk);
        out.push(u64::from_le_bytes(w));
    }
    out
}

fn shake256_native_lanes(input: &[u8], out_lanes: usize) -> Vec<u64> {
    let mut hasher = Shake256::default();
    hasher.update(input);
    let mut reader = hasher.finalize_xof();
    let mut out_bytes = vec![0u8; out_lanes * 8];
    reader.read(&mut out_bytes);
    out_bytes
        .chunks_exact(8)
        .map(|c| {
            let mut w = [0u8; 8];
            w.copy_from_slice(c);
            u64::from_le_bytes(w)
        })
        .collect()
}

fn check_shake256(input: &[u8], out_lanes: usize) {
    let expected_lanes = shake256_native_lanes(input, out_lanes);
    let input_lanes = pack_le_lanes(input);

    let mut builder = CircuitBuilder::new();
    let input_wires: Vec<Wire> = (0..input_lanes.len())
        .map(|_| builder.add_witness())
        .collect();
    let expected_wires: Vec<Wire> = (0..out_lanes).map(|_| builder.add_witness()).collect();

    let computed = shake256(&mut builder, &input_wires, input.len(), out_lanes);
    for (i, (lhs, rhs)) in computed.iter().zip(&expected_wires).enumerate() {
        builder.assert_eq(*lhs, *rhs);
    }

    let mut filler = vec![0u64; builder.len()];
    for (w, &v) in input_wires.iter().zip(&input_lanes) {
        filler[w.index] = v;
    }
    for (w, &v) in expected_wires.iter().zip(&expected_lanes) {
        filler[w.index] = v;
    }
    builder.populate_wire_witness(&mut filler);
    assert!(builder.verify_constraints(&filler), "shake256 circuit must accept honest witness");
}

#[test]
fn shake256_empty_input() {
    check_shake256(&[], 4);
}

#[test]
fn shake256_short_input_one_lane_out() {
    check_shake256(b"abc", 1);
}

#[test]
fn shake256_short_input_four_lanes_out() {
    check_shake256(b"abc", 4);
}

#[test]
fn shake256_word_aligned_input() {
    check_shake256(b"binius64-mldsa!!", 4);
}

#[test]
fn shake256_one_byte_before_block_boundary() {
    let input: Vec<u8> = (0..135u8).collect();
    check_shake256(&input, 4);
}

#[test]
fn shake256_max_lanes_in_first_squeeze_block() {
    check_shake256(b"max-lanes-out", SHAKE256_RATE_LANES);
}

#[test]
fn shake256_exactly_one_rate_block_absorb() {
    let input: Vec<u8> = (0..SHAKE256_RATE_BYTES).map(|i| (i % 251) as u8).collect();
    check_shake256(&input, 4);
}

#[test]
fn shake256_one_byte_over_rate_absorb() {
    let input: Vec<u8> = (0..SHAKE256_RATE_BYTES + 1).map(|i| (i % 251) as u8).collect();
    check_shake256(&input, 4);
}

#[test]
fn shake256_two_full_blocks_plus_partial() {
    let input: Vec<u8> = (0..300).map(|i| (i % 251) as u8).collect();
    check_shake256(&input, 4);
}

#[test]
fn shake256_r7_worst_case_input() {
    let input: Vec<u8> = (0u32..832).map(|i| (i.wrapping_mul(91) % 251) as u8).collect();
    check_shake256(&input, 4);
}

#[test]
fn shake256_squeeze_one_more_lane_than_rate() {
    check_shake256(b"abc", SHAKE256_RATE_LANES + 1);
}

#[test]
fn shake256_squeeze_three_blocks_worth() {
    check_shake256(b"abc", 50);
}

#[test]
fn shake256_long_input_long_output() {
    let input: Vec<u8> = (0u32..1000).map(|i| (i.wrapping_mul(31) % 251) as u8).collect();
    check_shake256(&input, 100);
}

fn check_streaming_squeeze(input: &[u8], chunks: &[usize]) {
    let total_out_lanes: usize = chunks.iter().sum();
    let expected_lanes = shake256_native_lanes(input, total_out_lanes);
    let input_lanes = pack_le_lanes(input);

    let mut builder = CircuitBuilder::new();
    let input_wires: Vec<Wire> = (0..input_lanes.len())
        .map(|_| builder.add_witness())
        .collect();
    let expected_wires: Vec<Wire> = (0..total_out_lanes).map(|_| builder.add_witness()).collect();

    let mut sponge = Shake256Sponge::absorb(&mut builder, &input_wires, input.len());
    let mut computed: Vec<Wire> = Vec::with_capacity(total_out_lanes);
    for &n in chunks {
        computed.extend(sponge.squeeze(&mut builder, n));
    }

    for (i, (lhs, rhs)) in computed.iter().zip(&expected_wires).enumerate() {
        builder.assert_eq(*lhs, *rhs);
    }

    let mut filler = vec![0u64; builder.len()];
    for (w, &v) in input_wires.iter().zip(&input_lanes) {
        filler[w.index] = v;
    }
    for (w, &v) in expected_wires.iter().zip(&expected_lanes) {
        filler[w.index] = v;
    }
    builder.populate_wire_witness(&mut filler);
    assert!(builder.verify_constraints(&filler), "streaming squeeze chunks must match one long squeeze");
}

#[test]
fn streaming_squeeze_two_chunks_within_one_block() {
    check_streaming_squeeze(b"streaming", &[7, 5]);
}

#[test]
fn streaming_squeeze_chunks_straddle_block_boundary() {
    check_streaming_squeeze(b"streaming", &[7, 23]);
}

#[test]
fn streaming_squeeze_one_lane_at_a_time() {
    check_streaming_squeeze(b"fisher-yates", &[1; 20]);
}

#[test]
fn shake256_fixed_matches_shake256() {
    let input = b"fixed-length output";
    let expected = shake256_native_lanes(input, 4);
    let lanes = pack_le_lanes(input);
    let mut builder = CircuitBuilder::new();
    let wires: Vec<Wire> = (0..lanes.len()).map(|_| builder.add_witness()).collect();
    let computed: Vec<Wire> = shake256_fixed(&mut builder, &wires, input.len(), 4);
    let mut filler = vec![0u64; builder.len()];
    for (w, &v) in wires.iter().zip(&lanes) {
        filler[w.index] = v;
    }
    builder.populate_wire_witness(&mut filler);
    assert!(builder.verify_constraints(&filler));
    for (w, &v) in computed.iter().zip(&expected) {
        assert_eq!(filler[w.index], v);
    }
}
