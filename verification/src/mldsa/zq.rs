//! Gadgets for arithmetic modulo `Q`.
//!
//! All residues fit in 23 bits, so that sums and products fit in one wire.

use vstd::arithmetic::div_mod::lemma_fundamental_div_mod;
use vstd::prelude::*;

use super::circuit::{at, is_division, two_limbs, word_count, CircuitBuilder, Wire};
use super::params::Q;

pub mod reference;

verus! {

/// In-circuit `(a + b) mod Q` of two residues.
pub fn add(b: &mut CircuitBuilder, a: Wire, b_w: Wire) -> (r: Wire)
    requires
        old(b).is_valid(),
        old(b).has(a),
        old(b).has(b_w),
    ensures
        final(b).is_valid(),
        final(b).grows_from(old(b)),
        final(b).has(r),
        forall|v: Seq<u64>| #[trigger]
            final(b).follows(v) && at(v, a) < Q && at(v, b_w) < Q ==> at(v, r) == (at(v, a) + at(
                v,
                b_w,
            )) % (Q as int),
        forall|v: Seq<u64>| #[trigger] final(b).honest(v) == old(b).honest(v),
        forall|v: Seq<u64>| #[trigger] final(b).passes(v) == old(b).passes(v),
{
    let q = b.add_constant_64(Q as u64);
    let (sum, _carry) = b.iadd(a, b_w);
    conditional_sub_q(b, sum, q)
}

/// In-circuit `(a - b) mod Q` of two residues, computed as `(a + Q - b) mod Q`.
pub fn sub(b: &mut CircuitBuilder, a: Wire, b_w: Wire) -> (r: Wire)
    requires
        old(b).is_valid(),
        old(b).has(a),
        old(b).has(b_w),
    ensures
        final(b).is_valid(),
        final(b).grows_from(old(b)),
        final(b).has(r),
        forall|v: Seq<u64>| #[trigger]
            final(b).follows(v) && at(v, a) < Q && at(v, b_w) < Q ==> at(v, r) == (at(v, a) - at(
                v,
                b_w,
            )) % (Q as int),
        forall|v: Seq<u64>| #[trigger] final(b).honest(v) == old(b).honest(v),
        forall|v: Seq<u64>| #[trigger] final(b).passes(v) == old(b).passes(v),
{
    let q = b.add_constant_64(Q as u64);
    let q_minus_b = b.isub(q, b_w);
    let (sum, _carry) = b.iadd(a, q_minus_b);
    conditional_sub_q(b, sum, q)
}

/// A product that a quotient and a remainder make up determines the remainder.
proof fn lemma_remainder(product: int, quotient: int, remainder: int)
    requires
        product == quotient * (Q as int) + remainder,
        0 <= remainder < Q,
    ensures
        product % (Q as int) == remainder,
        product / (Q as int) == quotient,
{
    assert(product % (Q as int) == remainder && product / (Q as int) == quotient)
        by (nonlinear_arith)
        requires
            product == quotient * (Q as int) + remainder,
            0 <= remainder < Q,
            Q == 8_380_417,
    ;
}

/// In-circuit `(a * b) mod Q`.
///
/// The quotient and the remainder are supplied by the prover, and then constrained: the remainder is
/// less than `Q`, and together they make up the product. A product that passes is right whatever
/// the factors are; one of two residues can always pass.
pub fn mul(b: &mut CircuitBuilder, a: Wire, b_w: Wire) -> (r: Wire)
    requires
        old(b).is_valid(),
        old(b).has(a),
        old(b).has(b_w),
    ensures
        final(b).is_valid(),
        final(b).grows_from(old(b)),
        final(b).has(r),
        forall|v: Seq<u64>| #[trigger]
            final(b).follows(v) && final(b).passes(v) ==> at(v, r) == (at(v, a) * at(v, b_w)) % (
            Q as int),
        forall|v: Seq<u64>| #[trigger]
            final(b).follows(v) && final(b).honest(v) && old(b).passes(v) && at(v, a) < Q && at(
                v,
                b_w,
            ) < Q ==> final(b).passes(v),
{
    let q = b.add_constant_64(Q as u64);
    let zero = b.add_constant_64(0);
    let (prod_hi, prod_lo) = b.imul(a, b_w);
    b.assert_zero(prod_hi);
    let (quotient_limbs, remainder_limbs) = b.biguint_divide_hint([prod_lo, zero], [q, zero]);
    let quotient = quotient_limbs[0];
    let remainder = remainder_limbs[0];
    b.assert_zero(quotient_limbs[1]);
    b.assert_zero(remainder_limbs[1]);
    let (qq_hi, qq_lo) = b.imul(quotient, q);
    b.assert_zero(qq_hi);
    let (recovered, carry) = b.iadd(qq_lo, remainder);
    b.assert_false(carry);
    b.assert_eq(recovered, prod_lo);
    let lt = b.less_than(remainder, q);
    b.assert_true(lt);
    proof {
        assert forall|v: Seq<u64>| #[trigger]
            b.follows(v) && b.passes(v) implies at(v, remainder) == (at(v, a) * at(v, b_w)) % (
        Q as int) by {
            let product = at(v, a) * at(v, b_w);
            let qq = at(v, quotient) * at(v, q);
            assert(0 <= product && 0 <= qq) by (nonlinear_arith)
                requires
                    product == at(v, a) * at(v, b_w),
                    qq == at(v, quotient) * at(v, q),
                    0 <= at(v, a),
                    0 <= at(v, b_w),
                    0 <= at(v, quotient),
                    0 <= at(v, q),
            ;
            assert(product == at(v, prod_lo));
            assert(qq == at(v, qq_lo));
            assert(product == at(v, quotient) * (Q as int) + at(v, remainder));
            lemma_remainder(product, at(v, quotient) as int, at(v, remainder) as int);
        }
        assert forall|v: Seq<u64>| #[trigger]
            b.follows(v) && b.honest(v) && old(b).passes(v) && at(v, a) < Q && at(v, b_w)
                < Q implies b.passes(v) by {
            let product = at(v, a) * at(v, b_w);
            assert(0 <= product <= 8_380_416 * 8_380_416) by (nonlinear_arith)
                requires
                    product == at(v, a) * at(v, b_w),
                    0 <= at(v, a) <= 8_380_416,
                    0 <= at(v, b_w) <= 8_380_416,
            ;
            assert(at(v, prod_lo) == product);
            assert(is_division(v, [prod_lo, zero], [q, zero], quotient_limbs, remainder_limbs));
            assert(two_limbs(v, [prod_lo, zero]) == product);
            assert(two_limbs(v, [q, zero]) == Q);
            let k = product / (Q as int);
            assert(0 <= k < word_count());
            assert(at(v, quotient) == k);
            assert(at(v, remainder) == product % (Q as int));
            lemma_fundamental_div_mod(product, Q as int);
            assert(k * (Q as int) + product % (Q as int) == product);
            assert(at(v, qq_lo) == k * (Q as int));
        }
    }
    remainder
}

/// Allocate a fresh witness wire and constrain it to hold a residue.
pub fn from_u64_witness(b: &mut CircuitBuilder) -> (r: Wire)
    requires
        old(b).is_valid(),
    ensures
        final(b).is_valid(),
        final(b).grows_from(old(b)),
        final(b).is_free(r),
        r.index == old(b).size(),
        forall|v: Seq<u64>| #[trigger] final(b).honest(v) == old(b).honest(v),
        forall|v: Seq<u64>| #[trigger]
            final(b).follows(v) ==> (final(b).passes(v) == (old(b).passes(v) && at(v, r) < Q)),
{
    let w = b.add_witness();
    let q = b.add_constant_64(Q as u64);
    let lt = b.less_than(w, q);
    b.assert_true(lt);
    w
}

/// Subtracts `Q` once where the value is not less than it.
fn conditional_sub_q(b: &mut CircuitBuilder, value: Wire, q: Wire) -> (r: Wire)
    requires
        old(b).is_valid(),
        old(b).has(value),
        old(b).has(q),
    ensures
        final(b).is_valid(),
        final(b).grows_from(old(b)),
        final(b).has(r),
        forall|v: Seq<u64>| #[trigger]
            final(b).follows(v) && at(v, q) == Q ==> at(v, r) == if at(v, value) >= Q {
                at(v, value) - Q
            } else {
                at(v, value) as int
            },
        forall|v: Seq<u64>| #[trigger] final(b).honest(v) == old(b).honest(v),
        forall|v: Seq<u64>| #[trigger] final(b).passes(v) == old(b).passes(v),
{
    let geq = b.less_equal(q, value);
    let value_minus_q = b.isub(value, q);
    b.select(geq, value_minus_q, value)
}

} // verus!
