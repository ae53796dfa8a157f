//! The canonical lift of binary-field scalars to the prime field, and why it is no homomorphism.

use vstd::prelude::*;

use super::fp128::{lemma_modulus, lemma_residue_of_small, residue, Fp128};
use super::parity::BiniusScalar;
use crate::field::{BinaryField, Field, Ring};
use crate::ghash::B128;

verus! {

/// A generator of the multiplicative group of the binary field.
pub const MULTIPLICATIVE_GENERATOR: u128 = 0x494e_f997_94d5_244f_9152_df59_d87a_9186;

/// Why the lift cannot serve as a strict bridge between the two fields.
#[derive(Debug, Clone, Copy, PartialEq, Eq, Structural)]
pub enum BridgeObstruction {
    /// Binary-field addition is XOR, while prime-field addition carries.
    NotAdditive,
    /// Binary-field multiplication and prime-field multiplication are different operations.
    NotMultiplicative,
}

/// Canonical `u128` lift from the binary field to the prime field.
///
/// It is not a field homomorphism.
#[derive(Debug, Clone, Copy, Default)]
pub struct CanonicalU128Bridge;

/// The residue that the lift of a scalar stands for.
pub open spec fn lifted(value: BiniusScalar) -> int {
    residue(value.val as int)
}

/// Whether the lift of the sum of two scalars is the sum of their lifts.
pub open spec fn lift_adds(a: BiniusScalar, b: BiniusScalar) -> bool {
    lifted(a.plus(b)) == residue(lifted(a) + lifted(b))
}

/// The lift is not additive: it fails for one and one.
pub proof fn law_lift_is_not_additive()
    ensures
        !lift_adds(B128 { val: 1 }, B128 { val: 1 }),
{
    lemma_modulus();
    lemma_residue_of_small(0);
    lemma_residue_of_small(1);
    lemma_residue_of_small(2);
    B128::law_characteristic_two(B128 { val: 1 });
}

impl CanonicalU128Bridge {
    /// Lift one scalar into the prime field using its raw canonical bits.
    pub fn lift(value: BiniusScalar) -> (r: Fp128)
        ensures
            r@ == lifted(value),
    {
        Fp128::from_canonical_u128_reduced(value.val)
    }

    /// Lift a slice of scalars into the prime field.
    pub fn lift_slice(values: &[BiniusScalar]) -> (r: Vec<Fp128>)
        ensures
            r@.len() == values@.len(),
            forall|i: int| 0 <= i < r@.len() ==> (#[trigger] r@[i])@ == lifted(values@[i]),
    {
        let mut out: Vec<Fp128> = Vec::with_capacity(values.len());
        let mut i: usize = 0;
        while i < values.len()
            invariant
                i <= values@.len(),
                out@.len() == i,
                forall|j: int| 0 <= j < i ==> (#[trigger] out@[j])@ == lifted(values@[j]),
            decreases values@.len() - i,
        {
            out.push(Self::lift(values[i]));
            i = i + 1;
        }
        out
    }

    /// Returns the first algebraic obstruction that prevents using this lift as a strict bridge.
    pub fn strict_pcs_obstruction() -> (r: Option<BridgeObstruction>)
        ensures
            r == Some(BridgeObstruction::NotAdditive),
    {
        let one: B128 = B128::new(1);
        proof {
            law_lift_is_not_additive();
        }
        if Self::lift(one.add(one)) != Self::lift(one).add(Self::lift(one)) {
            return Some(BridgeObstruction::NotAdditive);
        }
        let generator: B128 = B128::new(MULTIPLICATIVE_GENERATOR);
        if Self::lift(generator.mul(generator)) != Self::lift(generator).mul(
            Self::lift(generator),
        ) {
            return Some(BridgeObstruction::NotMultiplicative);
        }
        None
    }
}

} // verus!
