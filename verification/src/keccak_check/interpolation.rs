//! The weights of the bit-index domain interpolate: they give the value of every polynomial with at
//! most 64 coefficients from its values on the domain.

use vstd::prelude::*;

use super::boolean::lemma_bit_scalar_xor;
use super::completeness::are_states;
use super::oblong_round::{extension_values, is_oblong_message, mixed_residual, residual_bit};
use super::rotation::{bit_weights_at, lagrange_weight, law_weights_select, vanishing_except};
use super::trace::{bit_scalar, keccak_round};
use crate::field::{inverse_or_zero, lemma_minus_is_plus, lemma_times_zero, BinaryField};
use crate::mlecheck::polynomial_at;
use crate::multilinear::{
    dot, eq_table, lemma_dot_commutes, lemma_dot_plus, lemma_eq_table_len, lemma_sum_take,
    pointwise_plus, pointwise_times, scaled, sum,
};
use crate::polynomials::{
    law_polynomials_add, law_polynomials_agree, law_polynomials_scale, lemma_padded,
    lemma_times_linear,
};

verus! {

/// The product over the points of the domain but one is a polynomial.
proof fn lemma_vanishing_polynomial<F: BinaryField>(skip: int, n: nat) -> (c: Seq<F>)
    requires
        0 <= skip,
    ensures
        c.len() == if skip < n {
            n
        } else {
            n + 1
        },
        forall|z: F| #[trigger] polynomial_at(c, z) == vanishing_except(z, skip, n),
    decreases n,
{
    let (zero, one) = (F::zero_spec(), F::one_spec());
    if n == 0 {
        let c = seq![one];
        assert forall|z: F| #[trigger] polynomial_at(c, z) == vanishing_except(z, skip, n) by {
            assert(c.skip(1) =~= Seq::<F>::empty());
            assert(polynomial_at(Seq::<F>::empty(), z) == zero);
            assert(polynomial_at(c, z) == one.plus(z.times(zero)));
            lemma_times_zero(z);
            F::law_plus_zero(one);
        }
        c
    } else {
        let before = lemma_vanishing_polynomial::<F>(skip, (n - 1) as nat);
        if n - 1 == skip {
            before
        } else {
            let r = F::subspace_point(n - 1);
            let c = lemma_times_linear(before, r);
            assert forall|z: F| #[trigger] polynomial_at(c, z) == vanishing_except(z, skip, n) by {
                lemma_minus_is_plus(z, r);
                assert(polynomial_at(before, z) == vanishing_except(z, skip, (n - 1) as nat));
            }
            c
        }
    }
}

/// The first terms of an interpolation are a polynomial.
proof fn lemma_interpolation_polynomial<F: BinaryField>(values: Seq<F>, n: nat) -> (c: Seq<F>)
    requires
        values.len() == 64,
        n <= 64,
    ensures
        c.len() == 64,
        forall|z: F| #[trigger]
            polynomial_at(c, z) == sum(pointwise_times(values, bit_weights_at(z)).take(n as int)),
    decreases n,
{
    let zero = F::zero_spec();
    if n == 0 {
        let c = lemma_padded(Seq::<F>::empty(), 64);
        assert forall|z: F| #[trigger]
            polynomial_at(c, z) == sum(
                pointwise_times(values, bit_weights_at(z)).take(n as int),
            ) by {
            assert(polynomial_at(Seq::<F>::empty(), z) == zero);
            assert(pointwise_times(values, bit_weights_at(z)).take(0) =~= Seq::<F>::empty());
        }
        c
    } else {
        let k = n - 1;
        let before = lemma_interpolation_polynomial(values, k as nat);
        let basis = lemma_vanishing_polynomial::<F>(k, 64);
        let d = inverse_or_zero(vanishing_except(F::subspace_point(k), k, 64));
        let factor = values[k].times(d);
        let term = scaled(factor, basis);
        let c = pointwise_plus(before, term);
        assert forall|z: F| #[trigger]
            polynomial_at(c, z) == sum(
                pointwise_times(values, bit_weights_at(z)).take(n as int),
            ) by {
            let products = pointwise_times(values, bit_weights_at(z));
            let v = vanishing_except(z, k, 64);
            law_polynomials_add(before, term, z);
            law_polynomials_scale(factor, basis, z);
            lemma_sum_take(products, k);
            assert(polynomial_at(before, z) == sum(products.take(k)));
            assert(polynomial_at(basis, z) == v);
            assert(products[k] == values[k].times(lagrange_weight(z, k)));
            F::law_times_commutes(v, d);
            F::law_times_associates(values[k], d, v);
        }
        c
    }
}

/// The weights of the bit-index domain interpolate: for the values on the domain of a polynomial
/// with at most 64 coefficients they give its value at every point.
pub proof fn law_weights_interpolate<F: BinaryField>(c: Seq<F>, z: F)
    requires
        c.len() <= 64,
    ensures
        dot(
            Seq::new(64, |b: int| polynomial_at(c, F::subspace_point(b))),
            bit_weights_at(z),
        ) == polynomial_at(c, z),
{
    let values = Seq::new(64, |b: int| polynomial_at(c, F::subspace_point(b)));
    let points = Seq::new(64, |b: int| F::subspace_point(b));
    let f = lemma_padded(c, 64);
    let g = lemma_interpolation_polynomial(values, 64);
    assert forall|x: F| polynomial_at(g, x) == dot(values, #[trigger] bit_weights_at(x)) by {
        let products = pointwise_times(values, bit_weights_at(x));
        assert(products.take(64) =~= products);
        assert(polynomial_at(g, x) == sum(products.take(64)));
    }
    assert forall|i: int, j: int| 0 <= i < j < points.len() implies #[trigger] points[i]
        != #[trigger] points[j] by {
        F::law_subspace_points_differ(i, j);
    }
    assert forall|i: int| 0 <= i < points.len() implies polynomial_at(f, #[trigger] points[i])
        == polynomial_at(g, points[i]) by {
        law_weights_select(values, i);
        assert(polynomial_at(g, points[i]) == dot(values, bit_weights_at(points[i])));
        assert(polynomial_at(f, points[i]) == polynomial_at(c, points[i]));
    }
    law_polynomials_agree(f, g, points, z);
    assert(polynomial_at(f, z) == polynomial_at(c, z));
    assert(polynomial_at(g, z) == dot(values, bit_weights_at(z)));
}

/// The extension of a residual holds the values of its polynomial on the second half of the message
/// domain: where the residual holds the values of a polynomial with at most 64 coefficients at the
/// first 64 points, entry `i` of the extension is its value at point `64 + i`.
pub proof fn law_extension_extrapolates<F: BinaryField>(c: Seq<F>, residual: Seq<F>, i: int)
    requires
        c.len() <= 64,
        residual.len() == 64,
        forall|b: int|
            0 <= b < 64 ==> #[trigger] residual[b] == polynomial_at(c, F::subspace_point(b)),
        0 <= i < 64,
    ensures
        extension_values(residual)[i] == polynomial_at(c, F::subspace_point(64 + i)),
{
    assert(residual =~= Seq::new(64, |b: int| polynomial_at(c, F::subspace_point(b))));
    law_weights_interpolate(c, F::subspace_point(64 + i));
}

/// An extension determines its residual: two residuals that are extended to the same values are the
/// same, so that a wrong bit of a round always shows in the first message.
pub proof fn law_extension_is_injective<F: BinaryField>(a: Seq<F>, b: Seq<F>)
    requires
        a.len() == 64,
        b.len() == 64,
        extension_values(a) == extension_values(b),
    ensures
        a == b,
{
    let points = Seq::new(64, |i: int| F::subspace_point(64 + i));
    let f = lemma_interpolation_polynomial(a, 64);
    let g = lemma_interpolation_polynomial(b, 64);
    assert forall|x: F|
        polynomial_at(f, x) == dot(a, #[trigger] bit_weights_at(x)) && polynomial_at(g, x) == dot(
            b,
            bit_weights_at(x),
        ) by {
        let (p, q) = (
            pointwise_times(a, bit_weights_at(x)),
            pointwise_times(b, bit_weights_at(x)),
        );
        assert(p.take(64) =~= p && q.take(64) =~= q);
        assert(polynomial_at(f, x) == sum(p.take(64)) && polynomial_at(g, x) == sum(q.take(64)));
    }
    assert forall|i: int, j: int| 0 <= i < j < points.len() implies #[trigger] points[i]
        != #[trigger] points[j] by {
        F::law_subspace_points_differ(64 + i, 64 + j);
    }
    assert forall|i: int| 0 <= i < points.len() implies polynomial_at(f, #[trigger] points[i])
        == polynomial_at(g, points[i]) by {
        let w = bit_weights_at(points[i]);
        assert(extension_values(a)[i] == dot(a, w));
        assert(extension_values(b)[i] == dot(b, w));
        assert(polynomial_at(f, points[i]) == dot(a, w));
        assert(polynomial_at(g, points[i]) == dot(b, w));
    }
    assert forall|k: int| 0 <= k < 64 implies a[k] == b[k] by {
        let x = F::subspace_point(k);
        law_polynomials_agree(f, g, points, x);
        law_weights_select(a, k);
        law_weights_select(b, k);
        assert(polynomial_at(f, x) == dot(a, bit_weights_at(x)));
    }
    assert(a =~= b);
}

/// The residual of a round is the difference between the bits of the outputs and those of the round,
/// mixed over lanes and instances alike.
pub proof fn law_residual_is_difference<F: BinaryField>(
    inputs: Seq<Seq<u64>>,
    outputs: Seq<Seq<u64>>,
    round: int,
    high_point: Seq<F>,
    lane_weights: Seq<F>,
    b: int,
)
    requires
        are_states(inputs),
        are_states(outputs),
        inputs.len() == vstd::arithmetic::power2::pow2(high_point.len()),
        outputs.len() == inputs.len(),
        lane_weights.len() == 25,
        0 <= b < 64,
    ensures
        mixed_residual(inputs, outputs, round, high_point, lane_weights, b) == dot(
            eq_table(high_point),
            Seq::new(
                inputs.len(),
                |i: int|
                    dot(
                        lane_weights,
                        Seq::new(25, |lane: int| bit_scalar::<F>(outputs[i][lane], b)),
                    ),
            ),
        ).plus(
            dot(
                eq_table(high_point),
                Seq::new(
                    inputs.len(),
                    |i: int|
                        dot(
                            lane_weights,
                            Seq::new(
                                25,
                                |lane: int|
                                    bit_scalar::<F>(keccak_round(inputs[i], round)[lane], b),
                            ),
                        ),
                ),
            ),
        ),
{
    let e = eq_table(high_point);
    let n = inputs.len();
    lemma_eq_table_len(high_point);
    let given = Seq::new(
        n,
        |i: int|
            dot(lane_weights, Seq::new(25, |lane: int| bit_scalar::<F>(outputs[i][lane], b))),
    );
    let right = Seq::new(
        n,
        |i: int|
            dot(
                lane_weights,
                Seq::new(25, |lane: int| bit_scalar::<F>(keccak_round(inputs[i], round)[lane], b)),
            ),
    );
    let residuals = Seq::new(
        n,
        |i: int| residual_bit(inputs[i], outputs[i], round, lane_weights, b),
    );
    assert forall|i: int| 0 <= i < n implies residuals[i] == pointwise_plus(given, right)[i] by {
        let out = keccak_round(inputs[i], round);
        let p = Seq::new(25, |lane: int| bit_scalar::<F>(outputs[i][lane], b));
        let q = Seq::new(25, |lane: int| bit_scalar::<F>(out[lane], b));
        let bits = Seq::new(25, |lane: int| bit_scalar::<F>(outputs[i][lane] ^ out[lane], b));
        assert forall|lane: int| 0 <= lane < 25 implies bits[lane] == pointwise_plus(
            p,
            q,
        )[lane] by {
            lemma_bit_scalar_xor::<F>(outputs[i][lane], out[lane], b);
        }
        assert(bits =~= pointwise_plus(p, q));
        lemma_dot_commutes(lane_weights, bits);
        lemma_dot_commutes(lane_weights, p);
        lemma_dot_commutes(lane_weights, q);
        lemma_dot_plus(p, q, lane_weights);
    }
    assert(residuals =~= pointwise_plus(given, right));
    lemma_dot_commutes(e, residuals);
    lemma_dot_commutes(e, given);
    lemma_dot_commutes(e, right);
    lemma_dot_plus(given, right, e);
}

/// There is one first message for a round, and it is that of no other residual: where a message is
/// right for two batches of outputs, their residuals agree at every bit.
pub proof fn law_first_message_determines_residual<F: BinaryField>(
    message: Seq<F>,
    inputs: Seq<Seq<u64>>,
    outputs: Seq<Seq<u64>>,
    others: Seq<Seq<u64>>,
    round: int,
    high_point: Seq<F>,
    lane_weights: Seq<F>,
    b: int,
)
    requires
        is_oblong_message(message, inputs, outputs, round, high_point, lane_weights),
        is_oblong_message(message, inputs, others, round, high_point, lane_weights),
        0 <= b < 64,
    ensures
        message.len() == 64,
        mixed_residual(inputs, outputs, round, high_point, lane_weights, b) == mixed_residual(
            inputs,
            others,
            round,
            high_point,
            lane_weights,
            b,
        ),
{
    let p = Seq::new(
        64,
        |k: int| mixed_residual(inputs, outputs, round, high_point, lane_weights, k),
    );
    let q = Seq::new(
        64,
        |k: int| mixed_residual(inputs, others, round, high_point, lane_weights, k),
    );
    law_extension_is_injective(p, q);
    assert(p[b] == q[b]);
}

/// Two messages that are right for the same round are the same, in all 64 entries.
pub proof fn law_first_message_is_unique<F: BinaryField>(
    a: Seq<F>,
    b: Seq<F>,
    inputs: Seq<Seq<u64>>,
    outputs: Seq<Seq<u64>>,
    round: int,
    high_point: Seq<F>,
    lane_weights: Seq<F>,
    i: int,
)
    requires
        is_oblong_message(a, inputs, outputs, round, high_point, lane_weights),
        is_oblong_message(b, inputs, outputs, round, high_point, lane_weights),
        0 <= i < 64,
    ensures
        a.len() == 64,
        b.len() == 64,
        a[i] == b[i],
{
}

} // verus!
