//! `decompose` and `use_hint`, natively and in the circuit.

use rand::rngs::StdRng;
use rand::{Rng, SeedableRng};

use binary_proofs::mldsa::circuit::CircuitBuilder;
use binary_proofs::mldsa::params::{GAMMA2, Q};
use binary_proofs::mldsa::rounding::{
    decompose, decompose_native, use_hint, use_hint_native, DecomposeMode2Hint, R1_MAX,
};
use binary_proofs::mldsa::zq::from_u64_witness;

fn check_decompose(r: u32) {
    let (expected_r1, expected_r0_signed) = decompose_native(r);
    let expected_r0_p = (expected_r0_signed + GAMMA2 as i32) as u32;

    let mut builder = CircuitBuilder::new();
    let r_wire = from_u64_witness(&mut builder);
    let (r1, r0_p) = decompose(&mut builder, r_wire);

    let expected_r1_wire = builder.add_witness();
    let expected_r0_p_wire = builder.add_witness();
    builder.assert_eq(r1, expected_r1_wire);
    builder.assert_eq(r0_p, expected_r0_p_wire);

    let mut filler = vec![0u64; builder.len()];
    filler[r_wire.index] = r as u64;
    filler[expected_r1_wire.index] = expected_r1 as u64;
    filler[expected_r0_p_wire.index] = expected_r0_p as u64;
    builder.populate_wire_witness(&mut filler);
    assert!(builder.verify_constraints(&filler), "decompose circuit must accept honest witness");
}

fn check_use_hint(r: u32, hint: u32) {
    let expected = use_hint_native(r, hint);

    let mut builder = CircuitBuilder::new();
    let r_wire = from_u64_witness(&mut builder);
    let hint_wire = builder.add_witness();
    let result = use_hint(&mut builder, r_wire, hint_wire);

    let expected_wire = builder.add_witness();
    builder.assert_eq(result, expected_wire);

    let mut filler = vec![0u64; builder.len()];
    filler[r_wire.index] = r as u64;
    filler[hint_wire.index] = hint as u64;
    filler[expected_wire.index] = expected as u64;
    builder.populate_wire_witness(&mut filler);
    assert!(builder.verify_constraints(&filler), "use_hint circuit must accept honest witness");
}

#[test]
fn decompose_zero() {
    check_decompose(0);
}

#[test]
fn decompose_q_minus_one() {
    check_decompose(Q - 1);
}

#[test]
fn decompose_at_gamma2_boundary() {
    check_decompose(GAMMA2);
}

#[test]
fn decompose_at_2gamma2_minus_1() {
    check_decompose(2 * GAMMA2 - 1);
}

#[test]
fn decompose_at_2gamma2() {
    check_decompose(2 * GAMMA2);
}

#[test]
fn decompose_at_87gamma2() {
    check_decompose(Q - GAMMA2 - 1);
}

#[test]
fn decompose_at_q_minus_gamma2() {
    check_decompose(Q - GAMMA2);
}

#[test]
fn decompose_random_sample() {
    let mut rng = StdRng::seed_from_u64(0xc0ffee);
    for _ in 0..32 {
        let r = rng.random_range(0..Q);
        check_decompose(r);
    }
}

#[test]
fn decompose_random_near_zero_and_near_q() {
    let mut rng = StdRng::seed_from_u64(0xdecafbad);
    for _ in 0..16 {
        check_decompose(rng.random_range(0..GAMMA2 + 1));
        check_decompose(rng.random_range(Q - GAMMA2..Q));
    }
}

#[test]
fn use_hint_at_canonical_boundaries() {
    let r_values = [
        0u32,
        1,
        GAMMA2 - 1,
        GAMMA2,
        GAMMA2 + 1,
        2 * GAMMA2,
        Q - GAMMA2 - 1,
        Q - GAMMA2,
        Q - 1,
    ];
    for r in r_values {
        for hint in 0u32..=1 {
            check_use_hint(r, hint);
        }
    }
}

#[test]
fn use_hint_random_sample() {
    let mut rng = StdRng::seed_from_u64(0xa1b2c3d4);
    for _ in 0..32 {
        let r = rng.random_range(0..Q);
        let hint = rng.random_range(0..2);
        check_use_hint(r, hint);
    }
}

#[test]
fn use_hint_rejects_hint_geq_2() {
    let r: u32 = 1234;
    let mut builder = CircuitBuilder::new();
    let r_wire = from_u64_witness(&mut builder);
    let hint_wire = builder.add_witness();
    let _ = use_hint(&mut builder, r_wire, hint_wire);

    let mut filler = vec![0u64; builder.len()];
    filler[r_wire.index] = r as u64;
    filler[hint_wire.index] = 2;
    builder.populate_wire_witness(&mut filler);
    assert!(!builder.verify_constraints(&filler), "use_hint must reject hint >= 2");
}

#[test]
fn decompose_native_boundary_values() {
    let cases = [
        (0u32, 0u32, 0i32),
        (GAMMA2, 0, GAMMA2 as i32),
        (GAMMA2 - 1, 0, GAMMA2 as i32 - 1),
        (GAMMA2 + 1, 1, -(GAMMA2 as i32 - 1)),
        (2 * GAMMA2, 1, 0),
        (Q - GAMMA2 - 1, R1_MAX, GAMMA2 as i32),
        (Q - GAMMA2, 0, -(GAMMA2 as i32)),
        (Q - 1, 0, -1),
    ];
    for (r, expected_a1, expected_a0) in cases {
        let (a1, a0) = decompose_native(r);
        assert_eq!(a1, expected_a1, "a1 wrong for r={r}");
        assert_eq!(a0, expected_a0, "a0 wrong for r={r}");
    }
}

#[test]
fn use_hint_native_boundary_values() {
    assert_eq!(use_hint_native(0, 0), 0);
    assert_eq!(use_hint_native(GAMMA2, 0), 0);
    assert_eq!(use_hint_native(Q - 1, 0), 0);

    assert_eq!(use_hint_native(GAMMA2, 1), 1);
    assert_eq!(use_hint_native(Q - GAMMA2 - 1, 1), 0);

    assert_eq!(use_hint_native(GAMMA2 + 1, 1), 0);
    assert_eq!(use_hint_native(Q - 1, 1), R1_MAX);
    assert_eq!(use_hint_native(2 * GAMMA2, 1), 0);
}

#[test]
fn decompose_native_relation_holds() {
    let two_gamma2 = 2 * GAMMA2 as i32;
    let q = Q as i32;
    let mut r = 0u32;
    while r < Q {
        let (a1, a0) = decompose_native(r);
        assert!(a1 <= R1_MAX);
        assert!(a0 >= -(GAMMA2 as i32) && a0 <= GAMMA2 as i32);
        assert_eq!((a1 as i32 * two_gamma2 + a0).rem_euclid(q), r as i32);
        r += 97;
    }
}

#[test]
fn decompose_hint_gives_canonical_parts() {
    let hint = DecomposeMode2Hint;
    assert_eq!(hint.shape(), (1, 2));
    for r in [0u32, 1, GAMMA2, GAMMA2 + 1, 2 * GAMMA2, Q - GAMMA2 - 1, Q - GAMMA2, Q - 1] {
        let (a1, a0) = decompose_native(r);
        assert_eq!(hint.execute(r as u64), (a1 as u64, (a0 + GAMMA2 as i32) as u64));
    }
}

#[test]
fn decompose_accepts_both_decompositions_of_a_tie() {
    let mut builder = CircuitBuilder::new();
    let r_wire = from_u64_witness(&mut builder);
    let (r1, r0_p) = decompose(&mut builder, r_wire);
    let mut filler = vec![0u64; builder.len()];
    filler[r_wire.index] = GAMMA2 as u64;
    builder.populate_wire_witness(&mut filler);
    assert_eq!((filler[r1.index], filler[r0_p.index]), (0, 2 * GAMMA2 as u64));
    assert!(builder.verify_constraints(&filler));

    // the other decomposition, with the product of the high part and twice gamma2 behind it
    let product = r1.index + 7;
    assert_eq!(filler[product], 0);
    filler[r1.index] = 1;
    filler[r0_p.index] = 0;
    assert!(!builder.verify_constraints(&filler));
    filler[product] = 2 * GAMMA2 as u64;
    assert!(builder.verify_constraints(&filler));
    filler[r0_p.index] = 1;
    assert!(!builder.verify_constraints(&filler));
}
