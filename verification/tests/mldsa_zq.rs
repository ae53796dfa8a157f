//! The residue gadgets against the native operations.

use rand::rngs::StdRng;
use rand::{Rng, SeedableRng};

use binary_proofs::mldsa::circuit::{CircuitBuilder, Wire};
use binary_proofs::mldsa::params::Q;
use binary_proofs::mldsa::zq::reference;
use binary_proofs::mldsa::zq::{add, from_u64_witness, mul, sub};

fn check_binop<F>(op: F, a: u32, b: u32, expected: u32)
where
    F: Fn(&mut CircuitBuilder, Wire, Wire) -> Wire,
{
    assert!(a < Q && b < Q && expected < Q);

    let mut builder = CircuitBuilder::new();
    let a_w = from_u64_witness(&mut builder);
    let b_w = from_u64_witness(&mut builder);
    let exp_w = from_u64_witness(&mut builder);
    let result = op(&mut builder, a_w, b_w);
    builder.assert_eq(result, exp_w);

    let mut filler = vec![0u64; builder.len()];
    filler[a_w.index] = a as u64;
    filler[b_w.index] = b as u64;
    filler[exp_w.index] = expected as u64;

    builder.populate_wire_witness(&mut filler);
    assert!(builder.verify_constraints(&filler), "zq op constraints must be satisfied for the honest witness");
}

fn check_binop_rejects<F>(op: F, a: u32, b: u32, wrong_expected: u32)
where
    F: Fn(&mut CircuitBuilder, Wire, Wire) -> Wire,
{
    assert!(a < Q && b < Q && wrong_expected < Q);

    let mut builder = CircuitBuilder::new();
    let a_w = from_u64_witness(&mut builder);
    let b_w = from_u64_witness(&mut builder);
    let exp_w = from_u64_witness(&mut builder);
    let result = op(&mut builder, a_w, b_w);
    builder.assert_eq(result, exp_w);

    let mut filler = vec![0u64; builder.len()];
    filler[a_w.index] = a as u64;
    filler[b_w.index] = b as u64;
    filler[exp_w.index] = wrong_expected as u64;

    builder.populate_wire_witness(&mut filler);
    assert!(!builder.verify_constraints(&filler), "zq gadget accepted wrong witness for ({a}, {b}) -> {wrong_expected}");
}

#[test]
fn add_edge_cases() {
    for (a, b) in [
        (0, 0),
        (0, Q - 1),
        (Q - 1, 0),
        (Q - 1, Q - 1),
        (1, Q - 1),
        (Q / 2, Q / 2 + 1),
        (Q / 3, 2 * Q / 3),
    ] {
        check_binop(add, a, b, reference::add(a, b));
    }
}

#[test]
fn sub_edge_cases() {
    for (a, b) in [
        (0, 0),
        (Q - 1, Q - 1),
        (0, Q - 1),
        (Q - 1, 0),
        (5, 7),
        (Q / 2, Q / 2 + 1),
    ] {
        check_binop(sub, a, b, reference::sub(a, b));
    }
}

#[test]
fn mul_edge_cases() {
    for (a, b) in [
        (0, 0),
        (0, Q - 1),
        (Q - 1, 0),
        (1, Q - 1),
        (Q - 1, Q - 1),
        (2, Q.div_ceil(2)),
        (12345, 67890),
    ] {
        check_binop(mul, a, b, reference::mul(a, b));
    }
}

#[test]
fn add_rejects_off_by_one() {
    let a = 12345;
    let b = 67890;
    let correct = reference::add(a, b);
    check_binop_rejects(add, a, b, correct.wrapping_add(1) % Q);
}

#[test]
fn sub_rejects_off_by_one() {
    let a = 12345;
    let b = 67890;
    let correct = reference::sub(a, b);
    check_binop_rejects(sub, a, b, (correct + 1) % Q);
}

#[test]
fn mul_rejects_off_by_one() {
    let a = 12345;
    let b = 67890;
    let correct = reference::mul(a, b);
    check_binop_rejects(mul, a, b, (correct + 1) % Q);
}

#[test]
fn from_u64_witness_rejects_out_of_range() {
    let mut builder = CircuitBuilder::new();
    let w = from_u64_witness(&mut builder);

    for bad in [Q, Q + 1, u32::MAX, ((1u64 << 32) - 1) as u32] {
        let mut filler = vec![0u64; builder.len()];
        filler[w.index] = bad as u64;
        builder.populate_wire_witness(&mut filler);
    assert!(!builder.verify_constraints(&filler), "from_u64_witness accepted out-of-range value {bad} (>= Q={Q})");
    }
}

#[test]
fn from_u64_witness_accepts_in_range() {
    let mut builder = CircuitBuilder::new();
    let w = from_u64_witness(&mut builder);

    for good in [0u32, 1, Q / 2, Q - 1] {
        let mut filler = vec![0u64; builder.len()];
        filler[w.index] = good as u64;
        builder.populate_wire_witness(&mut filler);
        assert!(builder.verify_constraints(&filler), "from_u64_witness must accept in-range value");
    }
}

#[test]
fn add_matches_native() {
    let mut rng = StdRng::seed_from_u64(1);
    for _ in 0..16 {
        let (a, b) = (rng.random_range(0..Q), rng.random_range(0..Q));
        check_binop(add, a, b, reference::add(a, b));
    }
}

#[test]
fn sub_matches_native() {
    let mut rng = StdRng::seed_from_u64(2);
    for _ in 0..16 {
        let (a, b) = (rng.random_range(0..Q), rng.random_range(0..Q));
        check_binop(sub, a, b, reference::sub(a, b));
    }
}

#[test]
fn mul_matches_native() {
    let mut rng = StdRng::seed_from_u64(3);
    for _ in 0..16 {
        let (a, b) = (rng.random_range(0..Q), rng.random_range(0..Q));
        check_binop(mul, a, b, reference::mul(a, b));
    }
}

#[test]
fn native_operations_reduce() {
    assert_eq!(reference::add(Q - 1, 2), 1);
    assert_eq!(reference::sub(3, 5), Q - 2);
    assert_eq!(reference::mul(Q - 1, Q - 1), 1);
    assert_eq!(reference::mul(12345, 67890), 60_350);
}
