//! Arithmetic of the binary field.

use binary_proofs::field::{BinaryField, Field};
use binary_proofs::ghash::B128;

#[test]
fn products_of_known_elements() {
    let g = B128::new(0x494e_f997_94d5_244f_9152_df59_d87a_9186);
    let a = B128::new(0x1234_5678_9abc_def0_fedc_ba98_7654_3210);
    assert_eq!(g.mul(g).val(), 0x104e_4a83_5b33_5c8b_1e19_2ab1_5579_1f07);
    assert_eq!(a.mul(g).val(), 0xc9eb_2dba_d475_e8cb_7394_c059_a0d5_5acc);
    assert_eq!(B128::new(1 << 127).mul(B128::new(2)).val(), 0x87);
}

#[test]
fn inverses_multiply_to_one() {
    for val in [1u128, 2, 0x87, u128::MAX, 0x494e_f997_94d5_244f_9152_df59_d87a_9186] {
        let a = B128::new(val);
        assert_eq!(a.mul(a.invert_or_zero()), B128::one());
    }
    assert_eq!(B128::zero().invert_or_zero(), B128::zero());
}

#[test]
fn addition_is_its_own_inverse() {
    let a = B128::new(0x1234);
    let b = B128::new(0xff00);
    assert_eq!(a.add(b).val(), 0xed34);
    assert_eq!(a.add(b).sub(b), a);
    assert_eq!(a.add(a), B128::zero());
}

#[test]
fn subspace_elements_are_their_coordinates() {
    assert_eq!(B128::subspace_element(0), B128::zero());
    assert_eq!(B128::subspace_element(5).val(), 5);
    assert_eq!(B128::subspace_element(255).val(), 255);
}
