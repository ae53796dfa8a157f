//! What the reductions promise as a whole: an honest prover's claims stay true from round to
//! round, and its final claim is the value that the verifier computes.

use vstd::arithmetic::power2::{lemma2_to64, lemma_pow2_unfold, pow2};
use vstd::prelude::*;

use super::blocks::{
    combined, composed, composed_infinity, folded_instances, is_lanes, lane_values, lanes_at,
    lanes_plus, law_composed_along_line, law_linear_image_of_line, law_linear_image_of_sum,
    linear_image, mixed_lanes, position_values, view_value,
};
use super::linear_round::{linear_value, linear_values, linear_y_1};
use super::recipe::{lane_terms, lemma_lane_terms, term_values};
use crate::field::{lemma_times_zero, BinaryField, Field};
use crate::mlecheck::{
    law_linear_round_carries_claim, law_quadratic_round_carries_claim, lemma_dot_quadratics,
    lemma_dot_splits, linear_coeffs, polynomial_at, quadratic, quadratic_coeffs, quadratics,
};
use crate::multilinear::{
    dot, eq_table, evaluation, folded_high, law_fold_high_evaluates, lemma_dot_commutes,
    lemma_dot_plus, lemma_dot_scaled, lemma_eq_table_len, lemma_interpolated, lemma_sum_scaled,
    pointwise_plus, pointwise_times, scaled, sum,
};

verus! {

/// The product of each position of a state and a factor.
pub open spec fn lanes_scaled<F: Field>(c: F, a: Seq<Seq<F>>) -> Seq<Seq<F>> {
    Seq::new(25, |lane: int| Seq::new(64, |j: int| c.times(a[lane][j])))
}

/// The weighted value of a state is additive.
pub proof fn lemma_mixed_lanes_plus<F: Field>(
    a: Seq<Seq<F>>,
    b: Seq<Seq<F>>,
    lane_weights: Seq<F>,
    bit_weights: Seq<F>,
)
    requires
        is_lanes(a),
        is_lanes(b),
        lane_weights.len() == 25,
        bit_weights.len() == 64,
    ensures
        mixed_lanes(lanes_plus(a, b), lane_weights, bit_weights) == mixed_lanes(
            a,
            lane_weights,
            bit_weights,
        ).plus(mixed_lanes(b, lane_weights, bit_weights)),
{
    let c = lanes_plus(a, b);
    let (va, vb, vc) = (
        lane_values(a, bit_weights),
        lane_values(b, bit_weights),
        lane_values(c, bit_weights),
    );
    assert forall|lane: int| 0 <= lane < 25 implies vc[lane] == va[lane].plus(vb[lane]) by {
        assert(c[lane] =~= pointwise_plus(a[lane], b[lane]));
        lemma_dot_plus(a[lane], b[lane], bit_weights);
    }
    assert(vc =~= pointwise_plus(va, vb));
    lemma_dot_commutes(lane_weights, vc);
    lemma_dot_commutes(lane_weights, va);
    lemma_dot_commutes(lane_weights, vb);
    lemma_dot_plus(va, vb, lane_weights);
}

/// The weighted value of a state is homogeneous.
pub proof fn lemma_mixed_lanes_scaled<F: Field>(
    c: F,
    a: Seq<Seq<F>>,
    lane_weights: Seq<F>,
    bit_weights: Seq<F>,
)
    requires
        is_lanes(a),
        lane_weights.len() == 25,
        bit_weights.len() == 64,
    ensures
        mixed_lanes(lanes_scaled(c, a), lane_weights, bit_weights) == c.times(
            mixed_lanes(a, lane_weights, bit_weights),
        ),
{
    let s = lanes_scaled(c, a);
    let (va, vs) = (lane_values(a, bit_weights), lane_values(s, bit_weights));
    assert forall|lane: int| 0 <= lane < 25 implies vs[lane] == c.times(va[lane]) by {
        assert(s[lane] =~= scaled(c, a[lane]));
        lemma_dot_scaled(c, a[lane], bit_weights);
    }
    assert(vs =~= scaled(c, va));
    lemma_dot_commutes(lane_weights, vs);
    lemma_dot_commutes(lane_weights, va);
    lemma_dot_scaled(c, va, lane_weights);
}

/// The image of a multiple of a state under `theta+rho+pi` is that multiple of the image.
pub proof fn lemma_linear_image_scaled<F: Field>(c: F, a: Seq<Seq<F>>)
    requires
        is_lanes(a),
    ensures
        linear_image(lanes_scaled(c, a)) == lanes_scaled(c, linear_image(a)),
{
    let left = linear_image(lanes_scaled(c, a));
    let right = lanes_scaled(c, linear_image(a));
    assert forall|lane: int| 0 <= lane < 25 implies left[lane] == right[lane] by {
        lemma_lane_terms(lane);
        let terms = lane_terms(lane);
        assert forall|j: int| 0 <= j < 64 implies left[lane][j] == right[lane][j] by {
            let s = term_values(terms, view_value(a, j));
            let t = term_values(terms, view_value(lanes_scaled(c, a), j));
            assert forall|k: int| 0 <= k < terms.len() implies t[k] == scaled(c, s)[k] by {
                assert(terms[k].lane < 25 && terms[k].rot < 64);
            }
            assert(t =~= scaled(c, s));
            lemma_sum_scaled(c, s);
        }
        assert(left[lane] =~= right[lane]);
    }
    assert(left =~= right);
}

/// A weighted sum of instances can be taken one instance at a time.
pub proof fn lemma_combined_step<F: Field>(weights: Seq<F>, instances: Seq<Seq<Seq<F>>>)
    requires
        weights.len() == instances.len(),
        weights.len() > 0,
        is_lanes(instances.last()),
    ensures
        combined(weights, instances) == lanes_plus(
            combined(weights.drop_last(), instances.drop_last()),
            lanes_scaled(weights.last(), instances.last()),
        ),
{
    let (w, v) = (weights.drop_last(), instances.drop_last());
    let left = combined(weights, instances);
    let right = lanes_plus(combined(w, v), lanes_scaled(weights.last(), instances.last()));
    assert forall|lane: int| 0 <= lane < 25 implies left[lane] == right[lane] by {
        assert forall|j: int| 0 <= j < 64 implies left[lane][j] == right[lane][j] by {
            let all = pointwise_times(weights, position_values(instances, lane, j));
            assert(all.drop_last() =~= pointwise_times(w, position_values(v, lane, j)));
        }
        assert(left[lane] =~= right[lane]);
    }
    assert(left =~= right);
}

/// The weighted value before chi of a weighted sum of instances is the weighted sum of their
/// values.
pub proof fn law_linear_value_of_combination<F: Field>(
    weights: Seq<F>,
    instances: Seq<Seq<Seq<F>>>,
    lane_weights: Seq<F>,
    bit_weights: Seq<F>,
)
    requires
        weights.len() == instances.len(),
        forall|i: int| 0 <= i < instances.len() ==> is_lanes(#[trigger] instances[i]),
        lane_weights.len() == 25,
        bit_weights.len() == 64,
    ensures
        linear_value(combined(weights, instances), lane_weights, bit_weights) == dot(
            weights,
            linear_values(instances, lane_weights, bit_weights),
        ),
    decreases weights.len(),
{
    let values = linear_values(instances, lane_weights, bit_weights);
    if weights.len() == 0 {
        let zero = combined(weights, instances);
        let z = F::zero_spec();
        assert(dot(weights, values) == z);
        assert(zero =~= lanes_scaled(z, zero)) by {
            assert forall|lane: int| 0 <= lane < 25 implies zero[lane] == lanes_scaled(
                z,
                zero,
            )[lane] by {
                assert forall|j: int| 0 <= j < 64 implies zero[lane][j] == z.times(
                    zero[lane][j],
                ) by {
                    assert(pointwise_times(weights, position_values(instances, lane, j))
                        =~= Seq::<F>::empty());
                    lemma_times_zero(z);
                }
                assert(zero[lane] =~= lanes_scaled(z, zero)[lane]);
            }
        }
        lemma_linear_image_scaled(z, zero);
        lemma_mixed_lanes_scaled(z, linear_image(zero), lane_weights, bit_weights);
        lemma_times_zero(mixed_lanes(linear_image(zero), lane_weights, bit_weights));
    } else {
        let (w, v) = (weights.drop_last(), instances.drop_last());
        assert forall|i: int| 0 <= i < v.len() implies is_lanes(#[trigger] v[i]) by {
            assert(is_lanes(instances[i]));
        }
        assert(is_lanes(instances[instances.len() - 1]));
        law_linear_value_of_combination(w, v, lane_weights, bit_weights);
        lemma_combined_step(weights, instances);
        let rest = combined(w, v);
        let (c, last) = (weights.last(), instances.last());
        law_linear_image_of_sum(rest, lanes_scaled(c, last));
        lemma_linear_image_scaled(c, last);
        lemma_mixed_lanes_plus(
            linear_image(rest),
            lanes_scaled(c, linear_image(last)),
            lane_weights,
            bit_weights,
        );
        lemma_mixed_lanes_scaled(c, linear_image(last), lane_weights, bit_weights);
        assert(pointwise_times(weights, values).drop_last() =~= pointwise_times(
            w,
            linear_values(v, lane_weights, bit_weights),
        ));
    }
}

/// The evaluation of the mixed linear table at a point is the value that is computed from the
/// folded input lanes, so that an honest linear reduction passes its final check.
pub proof fn law_linear_round_is_complete<F: Field>(
    instances: Seq<Seq<Seq<F>>>,
    point: Seq<F>,
    lane_weights: Seq<F>,
    bit_weights: Seq<F>,
)
    requires
        instances.len() == pow2(point.len()),
        forall|i: int| 0 <= i < instances.len() ==> is_lanes(#[trigger] instances[i]),
        lane_weights.len() == 25,
        bit_weights.len() == 64,
    ensures
        evaluation(linear_values(instances, lane_weights, bit_weights), point) == linear_value(
            combined(eq_table(point), instances),
            lane_weights,
            bit_weights,
        ),
{
    lemma_eq_table_len(point);
    law_linear_value_of_combination(eq_table(point), instances, lane_weights, bit_weights);
    lemma_dot_commutes(eq_table(point), linear_values(instances, lane_weights, bit_weights));
}

/// The claim that the linear prover carries on from one round to the next.
pub open spec fn linear_next_claim<F: Field>(
    table: Seq<F>,
    point: Seq<F>,
    claim: F,
    challenge: F,
) -> F {
    polynomial_at(linear_coeffs(claim, point.last(), linear_y_1(table, point)), challenge)
}

/// A true evaluation claim stays true through a round of the linear prover, provided that the
/// coordinate of the round is not one.
pub proof fn law_linear_round_keeps_claim<F: Field>(table: Seq<F>, point: Seq<F>, challenge: F)
    requires
        point.len() > 0,
        table.len() == pow2(point.len()),
        point.last() != F::one_spec(),
    ensures
        linear_next_claim(table, point, evaluation(table, point), challenge) == evaluation(
            folded_high(table, challenge),
            point.drop_last(),
        ),
{
    let low = point.drop_last();
    let e = eq_table(low);
    lemma_pow2_unfold(point.len());
    lemma_eq_table_len(low);
    lemma_eq_table_len(point);
    let n = (table.len() / 2) as int;
    let (lo, hi) = (table.take(n), table.skip(n));
    assert(table =~= lo + hi);
    lemma_dot_splits(lo, hi, point);
    lemma_dot_commutes(table, eq_table(point));
    let (y_0, y_1) = (dot(e, lo), dot(e, hi));
    law_linear_round_carries_claim(point.last(), y_0, y_1, challenge);
    // the folded table takes the interpolated value
    let m = F::one_spec().minus(challenge);
    let folded = folded_high(table, challenge);
    assert(folded =~= pointwise_plus(scaled(m, lo), scaled(challenge, hi))) by {
        assert forall|i: int| 0 <= i < n implies folded[i] == m.times(lo[i]).plus(
            challenge.times(hi[i]),
        ) by {
            lemma_interpolated(table[i], table[i + n], challenge);
        }
    }
    lemma_dot_plus(scaled(m, lo), scaled(challenge, hi), e);
    lemma_dot_scaled(m, lo, e);
    lemma_dot_scaled(challenge, hi, e);
    lemma_dot_commutes(lo, e);
    lemma_dot_commutes(hi, e);
    lemma_interpolated(y_0, y_1, challenge);
}

/// The claim that the linear prover ends with.
pub open spec fn linear_final_claim<F: Field>(
    table: Seq<F>,
    point: Seq<F>,
    claim: F,
    challenges: Seq<F>,
) -> F
    decreases challenges.len(),
{
    if challenges.len() == 0 {
        claim
    } else {
        linear_final_claim(
            folded_high(table, challenges[0]),
            point.drop_last(),
            linear_next_claim(table, point, claim, challenges[0]),
            challenges.skip(1),
        )
    }
}

/// A true evaluation claim leads to the evaluation of the table at the reversed challenges,
/// provided that no coordinate of the point is one.
pub proof fn law_linear_rounds_end_in_evaluation<F: Field>(
    table: Seq<F>,
    point: Seq<F>,
    challenges: Seq<F>,
)
    requires
        table.len() == pow2(point.len()),
        challenges.len() == point.len(),
        forall|j: int| 0 <= j < point.len() ==> point[j] != F::one_spec(),
    ensures
        linear_final_claim(table, point, evaluation(table, point), challenges) == evaluation(
            table,
            challenges.reverse(),
        ),
    decreases challenges.len(),
{
    if challenges.len() == 0 {
        assert(challenges.reverse() =~= point);
    } else {
        let r = challenges[0];
        let rest = challenges.skip(1);
        let folded = folded_high(table, r);
        law_linear_round_keeps_claim(table, point, r);
        lemma_pow2_unfold(point.len());
        law_linear_rounds_end_in_evaluation(folded, point.drop_last(), rest);
        assert(challenges.reverse() =~= rest.reverse().push(r));
        law_fold_high_evaluates(table, rest.reverse(), r);
    }
}

/// The values of a function on instances.
pub open spec fn values_on<F>(
    instances: Seq<Seq<Seq<F>>>,
    g: spec_fn(Seq<Seq<F>>) -> F,
) -> Seq<F> {
    Seq::new(instances.len(), |i: int| g(instances[i]))
}

/// The instances in which the highest instance variable is one.
pub open spec fn upper_half<F>(instances: Seq<Seq<Seq<F>>>) -> Seq<Seq<Seq<F>>> {
    instances.skip((instances.len() / 2) as int)
}

/// The sums of the instances that differ in the highest instance variable.
pub open spec fn half_sums<F: Field>(instances: Seq<Seq<Seq<F>>>) -> Seq<Seq<Seq<F>>> {
    Seq::new(
        instances.len() / 2,
        |i: int| lanes_plus(instances[i], instances[i + instances.len() / 2]),
    )
}

/// The claim on instances: the sum of their values, weighted by the equality indicator of a point.
pub open spec fn weighted_claim<F: Field>(
    instances: Seq<Seq<Seq<F>>>,
    point: Seq<F>,
    g: spec_fn(Seq<Seq<F>>) -> F,
) -> F {
    dot(eq_table(point), values_on(instances, g))
}

/// The value at one of the round polynomial of instances.
pub open spec fn quadratic_y_1<F: Field>(
    instances: Seq<Seq<Seq<F>>>,
    point: Seq<F>,
    g: spec_fn(Seq<Seq<F>>) -> F,
) -> F {
    weighted_claim(upper_half(instances), point.drop_last(), g)
}

/// The leading coefficient of the round polynomial of instances.
pub open spec fn quadratic_y_inf<F: Field>(
    instances: Seq<Seq<Seq<F>>>,
    point: Seq<F>,
    g_inf: spec_fn(Seq<Seq<F>>) -> F,
) -> F {
    weighted_claim(half_sums(instances), point.drop_last(), g_inf)
}

/// Whether a function of states is quadratic along lines, with the given leading coefficient.
pub open spec fn is_quadratic<F: Field>(
    g: spec_fn(Seq<Seq<F>>) -> F,
    g_inf: spec_fn(Seq<Seq<F>>) -> F,
) -> bool {
    forall|lo: Seq<Seq<F>>, hi: Seq<Seq<F>>, x: F|
        is_lanes(lo) && is_lanes(hi) ==> #[trigger] g(lanes_at(lo, hi, x)) == quadratic(
            g(lo),
            g(hi),
            g_inf(lanes_plus(lo, hi)),
            x,
        )
}

/// A true claim on a quadratic function of instances stays true through a round, provided that
/// the coordinate of the round is not one.
pub proof fn law_quadratic_round_keeps_claim<F: Field>(
    instances: Seq<Seq<Seq<F>>>,
    point: Seq<F>,
    g: spec_fn(Seq<Seq<F>>) -> F,
    g_inf: spec_fn(Seq<Seq<F>>) -> F,
    challenge: F,
)
    requires
        point.len() > 0,
        instances.len() == pow2(point.len()),
        forall|i: int| 0 <= i < instances.len() ==> is_lanes(#[trigger] instances[i]),
        point.last() != F::one_spec(),
        is_quadratic(g, g_inf),
    ensures
        polynomial_at(
            quadratic_coeffs(
                weighted_claim(instances, point, g),
                point.last(),
                quadratic_y_1(instances, point, g),
                quadratic_y_inf(instances, point, g_inf),
            ),
            challenge,
        ) == weighted_claim(folded_instances(instances, challenge), point.drop_last(), g),
{
    let low = point.drop_last();
    let e = eq_table(low);
    lemma_pow2_unfold(point.len());
    lemma_eq_table_len(low);
    let n = (instances.len() / 2) as int;
    let lower = instances.take(n);
    let upper = upper_half(instances);
    let (v_0, v_1) = (values_on(lower, g), values_on(upper, g));
    let v_inf = values_on(half_sums(instances), g_inf);
    assert(values_on(instances, g) =~= v_0 + v_1);
    lemma_dot_splits(v_0, v_1, point);
    let (y_0, y_1, y_inf) = (dot(e, v_0), dot(e, v_1), dot(e, v_inf));
    law_quadratic_round_carries_claim(point.last(), y_0, y_1, y_inf, challenge);
    let folded = folded_instances(instances, challenge);
    assert forall|i: int| 0 <= i < n implies values_on(folded, g)[i] == quadratic(
        v_0[i],
        v_1[i],
        v_inf[i],
        challenge,
    ) by {
        assert(is_lanes(instances[i]) && is_lanes(instances[i + n]));
        assert(g(lanes_at(instances[i], instances[i + n], challenge)) == quadratic(
            g(instances[i]),
            g(instances[i + n]),
            g_inf(lanes_plus(instances[i], instances[i + n])),
            challenge,
        ));
    }
    assert(values_on(folded, g) =~= quadratics(v_0, v_1, v_inf, challenge));
    lemma_dot_quadratics(e, v_0, v_1, v_inf, challenge);
}

/// The weighted value after chi and iota, as a function of the state before chi.
pub open spec fn chi_function<F: Field>(
    lane_weights: Seq<F>,
    round: int,
    bit_weights: Seq<F>,
) -> spec_fn(Seq<Seq<F>>) -> F {
    |v: Seq<Seq<F>>| composed(v, lane_weights, round, bit_weights)
}

/// The quadratic part of the weighted value after chi and iota.
pub open spec fn chi_function_infinity<F: Field>(
    lane_weights: Seq<F>,
    bit_weights: Seq<F>,
) -> spec_fn(Seq<Seq<F>>) -> F {
    |v: Seq<Seq<F>>| composed_infinity(v, lane_weights, bit_weights)
}

/// The weighted value after a whole round, as a function of the round input.
pub open spec fn round_function<F: Field>(
    lane_weights: Seq<F>,
    round: int,
    bit_weights: Seq<F>,
) -> spec_fn(Seq<Seq<F>>) -> F {
    |v: Seq<Seq<F>>| composed(linear_image(v), lane_weights, round, bit_weights)
}

/// The quadratic part of the weighted value after a whole round.
pub open spec fn round_function_infinity<F: Field>(
    lane_weights: Seq<F>,
    bit_weights: Seq<F>,
) -> spec_fn(Seq<Seq<F>>) -> F {
    |v: Seq<Seq<F>>| composed_infinity(linear_image(v), lane_weights, bit_weights)
}

/// The weighted value after chi and iota is quadratic in the state before chi.
pub proof fn law_chi_function_is_quadratic<F: BinaryField>(
    lane_weights: Seq<F>,
    round: int,
    bit_weights: Seq<F>,
)
    requires
        lane_weights.len() == 25,
        bit_weights.len() == 64,
    ensures
        is_quadratic(
            chi_function(lane_weights, round, bit_weights),
            chi_function_infinity(lane_weights, bit_weights),
        ),
{
    let g = chi_function(lane_weights, round, bit_weights);
    let g_inf = chi_function_infinity(lane_weights, bit_weights);
    assert forall|lo: Seq<Seq<F>>, hi: Seq<Seq<F>>, x: F|
        is_lanes(lo) && is_lanes(hi) implies #[trigger] g(lanes_at(lo, hi, x)) == quadratic(
        g(lo),
        g(hi),
        g_inf(lanes_plus(lo, hi)),
        x,
    ) by {
        law_composed_along_line(lo, hi, lane_weights, round, bit_weights, x);
    }
}

/// The weighted value after a whole round is quadratic in the round input.
pub proof fn law_round_function_is_quadratic<F: BinaryField>(
    lane_weights: Seq<F>,
    round: int,
    bit_weights: Seq<F>,
)
    requires
        lane_weights.len() == 25,
        bit_weights.len() == 64,
    ensures
        is_quadratic(
            round_function(lane_weights, round, bit_weights),
            round_function_infinity(lane_weights, bit_weights),
        ),
{
    let g = round_function(lane_weights, round, bit_weights);
    let g_inf = round_function_infinity(lane_weights, bit_weights);
    assert forall|lo: Seq<Seq<F>>, hi: Seq<Seq<F>>, x: F|
        is_lanes(lo) && is_lanes(hi) implies #[trigger] g(lanes_at(lo, hi, x)) == quadratic(
        g(lo),
        g(hi),
        g_inf(lanes_plus(lo, hi)),
        x,
    ) by {
        law_linear_image_of_line(lo, hi, x);
        law_linear_image_of_sum(lo, hi);
        law_composed_along_line(
            linear_image(lo),
            linear_image(hi),
            lane_weights,
            round,
            bit_weights,
            x,
        );
    }
}

/// The claim that a quadratic prover ends with.
pub open spec fn quadratic_final_claim<F: Field>(
    instances: Seq<Seq<Seq<F>>>,
    point: Seq<F>,
    g: spec_fn(Seq<Seq<F>>) -> F,
    g_inf: spec_fn(Seq<Seq<F>>) -> F,
    claim: F,
    challenges: Seq<F>,
) -> F
    decreases challenges.len(),
{
    if challenges.len() == 0 {
        claim
    } else {
        quadratic_final_claim(
            folded_instances(instances, challenges[0]),
            point.drop_last(),
            g,
            g_inf,
            polynomial_at(
                quadratic_coeffs(
                    claim,
                    point.last(),
                    quadratic_y_1(instances, point, g),
                    quadratic_y_inf(instances, point, g_inf),
                ),
                challenges[0],
            ),
            challenges.skip(1),
        )
    }
}

/// Fixing the instance variables one after the other, from the highest on, combines the instances
/// by the equality indicator of the reversed challenges.
pub open spec fn all_folded<F: Field>(
    instances: Seq<Seq<Seq<F>>>,
    challenges: Seq<F>,
) -> Seq<Seq<Seq<F>>>
    decreases challenges.len(),
{
    if challenges.len() == 0 {
        instances
    } else {
        all_folded(folded_instances(instances, challenges[0]), challenges.skip(1))
    }
}

/// Folding all instance variables leaves one state: the instances combined by the equality
/// indicator of the reversed challenges.
pub proof fn law_all_folded_is_combined<F: Field>(
    instances: Seq<Seq<Seq<F>>>,
    challenges: Seq<F>,
)
    requires
        instances.len() == pow2(challenges.len()),
        forall|i: int| 0 <= i < instances.len() ==> is_lanes(#[trigger] instances[i]),
    ensures
        all_folded(instances, challenges).len() == 1,
        all_folded(instances, challenges)[0] == combined(eq_table(challenges.reverse()), instances),
    decreases challenges.len(),
{
    if challenges.len() == 0 {
        lemma2_to64();
        let e = eq_table(challenges.reverse());
        assert(e =~= seq![F::one_spec()]);
        let c = combined(e, instances);
        assert(is_lanes(instances[0]));
        assert forall|lane: int| 0 <= lane < 25 implies c[lane] == instances[0][lane] by {
            assert forall|j: int| 0 <= j < 64 implies c[lane][j] == instances[0][lane][j] by {
                let terms = pointwise_times(e, position_values(instances, lane, j));
                assert(terms.drop_last() =~= Seq::<F>::empty());
                assert(sum(Seq::<F>::empty()) == F::zero_spec());
                crate::field::lemma_one_times(instances[0][lane][j]);
                crate::field::lemma_zero_plus(instances[0][lane][j]);
            }
            assert(c[lane] =~= instances[0][lane]);
        }
        assert(c =~= instances[0]);
    } else {
        let r = challenges[0];
        let rest = challenges.skip(1);
        let folded = folded_instances(instances, r);
        lemma_pow2_unfold(challenges.len());
        law_all_folded_is_combined(folded, rest);
        assert(challenges.reverse() =~= rest.reverse().push(r));
        let (a, b) = (
            combined(eq_table(rest.reverse()), folded),
            combined(eq_table(challenges.reverse()), instances),
        );
        assert forall|lane: int| 0 <= lane < 25 implies a[lane] == b[lane] by {
            assert forall|j: int| 0 <= j < 64 implies a[lane][j] == b[lane][j] by {
                let table = position_values(instances, lane, j);
                assert(position_values(folded, lane, j) =~= folded_high(table, r));
                law_fold_high_evaluates(table, rest.reverse(), r);
                lemma_eq_table_len(rest.reverse());
                lemma_eq_table_len(challenges.reverse());
                lemma_dot_commutes(folded_high(table, r), eq_table(rest.reverse()));
                lemma_dot_commutes(table, eq_table(challenges.reverse()));
            }
            assert(a[lane] =~= b[lane]);
        }
        assert(a =~= b);
    }
}

/// A true claim on a quadratic function of instances leads to the value of the function on the
/// instances combined by the reversed challenges, which is what the verifier computes. No
/// coordinate of the point may be one.
pub proof fn law_quadratic_rounds_end_in_value<F: Field>(
    instances: Seq<Seq<Seq<F>>>,
    point: Seq<F>,
    g: spec_fn(Seq<Seq<F>>) -> F,
    g_inf: spec_fn(Seq<Seq<F>>) -> F,
    challenges: Seq<F>,
)
    requires
        instances.len() == pow2(point.len()),
        challenges.len() == point.len(),
        forall|i: int| 0 <= i < instances.len() ==> is_lanes(#[trigger] instances[i]),
        forall|j: int| 0 <= j < point.len() ==> point[j] != F::one_spec(),
        is_quadratic(g, g_inf),
    ensures
        quadratic_final_claim(
            instances,
            point,
            g,
            g_inf,
            weighted_claim(instances, point, g),
            challenges,
        ) == g(combined(eq_table(challenges.reverse()), instances)),
    decreases challenges.len(),
{
    law_all_folded_is_combined(instances, challenges);
    if challenges.len() == 0 {
        lemma2_to64();
        assert(eq_table(point) =~= seq![F::one_spec()]);
        let values = pointwise_times(eq_table(point), values_on(instances, g));
        assert(values.drop_last() =~= Seq::<F>::empty());
        assert(sum(Seq::<F>::empty()) == F::zero_spec());
        crate::field::lemma_one_times(g(instances[0]));
        crate::field::lemma_zero_plus(g(instances[0]));
    } else {
        let r = challenges[0];
        let rest = challenges.skip(1);
        let folded = folded_instances(instances, r);
        lemma_pow2_unfold(point.len());
        law_quadratic_round_keeps_claim(instances, point, g, g_inf, r);
        law_quadratic_rounds_end_in_value(folded, point.drop_last(), g, g_inf, rest);
        law_all_folded_is_combined(folded, rest);
    }
}

} // verus!
