//! The gates of the circuit builder.

use binary_proofs::mldsa::circuit::CircuitBuilder;

#[test]
fn gates_compute_words() {
    let mut b = CircuitBuilder::new();
    let x = b.add_witness();
    let y = b.add_witness();
    let (sum, carry) = b.iadd(x, y);
    let (hi, lo) = b.imul(x, y);
    let difference = b.isub(x, y);
    let less = b.less_than(x, y);
    let at_most = b.less_equal(y, y);
    let chosen = b.select(less, x, y);
    let both = b.band(x, y);
    let either = b.bxor(x, y);
    let inverted = b.bnot(x);
    let left = b.shl(x, 4);
    let right = b.shr(x, 4);
    let turned = b.rotl(x, 8);
    let byte = b.extract_byte(x, 7);
    let mut values = vec![0u64; b.len()];
    let (u, v) = (0xf123_4567_89ab_cdef_u64, 0x1000_0000_0000_0001_u64);
    values[x.index] = u;
    values[y.index] = v;
    b.populate_wire_witness(&mut values);
    assert!(b.verify_constraints(&values));
    assert_eq!(values[sum.index], u.wrapping_add(v));
    assert_eq!(values[carry.index] >> 63, 1);
    let product = (u as u128) * (v as u128);
    assert_eq!(values[hi.index], (product >> 64) as u64);
    assert_eq!(values[lo.index], product as u64);
    assert_eq!(values[difference.index], u.wrapping_sub(v));
    assert_eq!(values[less.index] >> 63, 0);
    assert_eq!(values[at_most.index] >> 63, 1);
    assert_eq!(values[chosen.index], v);
    assert_eq!(values[both.index], u & v);
    assert_eq!(values[either.index], u ^ v);
    assert_eq!(values[inverted.index], !u);
    assert_eq!(values[left.index], u << 4);
    assert_eq!(values[right.index], u >> 4);
    assert_eq!(values[turned.index], u.rotate_left(8));
    assert_eq!(values[byte.index], 0xf1);
}

#[test]
fn multiplex_selects_by_index() {
    for index in 0..3u64 {
        let mut b = CircuitBuilder::new();
        let inputs = [b.add_constant_64(7), b.add_constant_64(8), b.add_constant_64(9)];
        let selector = b.add_witness();
        let chosen = b.multiplex(&inputs, selector);
        let mut values = vec![0u64; b.len()];
        values[selector.index] = index;
        b.populate_wire_witness(&mut values);
        assert!(b.verify_constraints(&values));
        assert_eq!(values[chosen.index], 7 + index);
    }
}

#[test]
fn bxor_multi_adds_all_words() {
    let mut b = CircuitBuilder::new();
    let inputs = [b.add_constant_64(1), b.add_constant_64(2), b.add_constant_64(7)];
    let all = b.bxor_multi(&inputs);
    let mut values = vec![0u64; b.len()];
    b.populate_wire_witness(&mut values);
    assert_eq!(values[all.index], 4);
}

#[test]
fn division_hint_gives_quotient_and_remainder() {
    let mut b = CircuitBuilder::new();
    let (low, high) = (b.add_constant_64(1000), b.add_constant_64(0));
    let (d, zero) = (b.add_constant_64(7), b.add_constant_64(0));
    let (q, r) = b.biguint_divide_hint([low, high], [d, zero]);
    let mut values = vec![0u64; b.len()];
    b.populate_wire_witness(&mut values);
    assert_eq!(values[q[0].index], 142);
    assert_eq!(values[r[0].index], 6);
}

#[test]
fn checks_reject_wrong_values() {
    let mut b = CircuitBuilder::new();
    let x = b.add_witness();
    let y = b.add_witness();
    b.assert_eq(x, y);
    let mut values = vec![0u64; b.len()];
    values[x.index] = 5;
    values[y.index] = 5;
    assert!(b.verify_constraints(&values));
    values[y.index] = 6;
    assert!(!b.verify_constraints(&values));
}

#[test]
fn checks_depend_on_their_condition() {
    for (condition, accepted) in [(0u64, true), (1u64 << 63, false)] {
        let mut b = CircuitBuilder::new();
        let x = b.add_constant_64(5);
        let y = b.add_constant_64(6);
        let c = b.add_constant_64(condition);
        b.assert_eq_cond(x, y, c);
        let mut values = vec![0u64; b.len()];
        b.populate_wire_witness(&mut values);
        assert_eq!(b.verify_constraints(&values), accepted);
    }
}

#[test]
fn truth_checks_look_at_the_highest_bit() {
    for (word, truth) in [(0u64, false), (1, false), (1 << 63, true), (u64::MAX, true)] {
        let mut b = CircuitBuilder::new();
        let x = b.add_constant_64(word);
        b.assert_true(x);
        let mut values = vec![0u64; b.len()];
        b.populate_wire_witness(&mut values);
        assert_eq!(b.verify_constraints(&values), truth);
        let mut b = CircuitBuilder::new();
        let x = b.add_constant_64(word);
        b.assert_false(x);
        assert_eq!(b.verify_constraints(&values), !truth);
        let mut b = CircuitBuilder::new();
        let x = b.add_constant_64(word);
        b.assert_zero(x);
        assert_eq!(b.verify_constraints(&values), word == 0);
    }
}
