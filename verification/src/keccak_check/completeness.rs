//! Honest runs: true claims on the rounds of the permutation pass every check.

use vstd::arithmetic::power2::pow2;
use vstd::prelude::*;

use super::blocks::{
    batch_scalars, combined, composed, folded_instances, is_lanes, law_linear_image_of_line,
    mixed_lanes, state_scalars,
};
use super::boolean::{law_composed_of_bits, law_linear_image_of_bits};
use super::claims::is_claim_on;
use super::fused_round::{fused_value_at, FusedRoundReduction};
use super::laws::{
    chi_function, chi_function_infinity, lanes_scaled, law_chi_function_is_quadratic,
    law_linear_round_is_complete, law_linear_rounds_end_in_evaluation,
    law_quadratic_rounds_end_in_value, law_round_function_is_quadratic, lemma_combined_step,
    lemma_mixed_lanes_plus, lemma_mixed_lanes_scaled, linear_final_claim, quadratic_final_claim,
    round_function, round_function_infinity, values_on, weighted_claim,
};
use super::linear_round::{linear_value, linear_values};
use super::oblong_round::{
    batch_pre_chi_scalars, extension_values, lemma_round_function_of_bits, mixed_residual,
    residual_bit,
};
use super::rotation::bit_weights_at;
use super::trace::{batch_before_chi, bit_scalar, chi_iota, keccak_round};
use crate::field::{lemma_times_zero, BinaryField, Field};
use crate::multilinear::{
    dot, eq_table, lemma_dot_commutes, lemma_eq_table_len, lemma_sum_zeros, pointwise_times,
};

verus! {

/// The weighted value of a weighted sum of instances is the weighted sum of their values.
pub proof fn law_mixed_lanes_of_combination<F: Field>(
    weights: Seq<F>,
    instances: Seq<Seq<Seq<F>>>,
    lane_weights: Seq<F>,
    bit_weights: Seq<F>,
)
    requires
        weights.len() == instances.len(),
        forall|i: int| 0 <= i < instances.len() ==> is_lanes(#[trigger] instances[i]),
        lane_weights.len() == 25,
        bit_weights.len() == 64,
    ensures
        mixed_lanes(combined(weights, instances), lane_weights, bit_weights) == dot(
            weights,
            mixed_values(instances, lane_weights, bit_weights),
        ),
    decreases weights.len(),
{
    let values = mixed_values(instances, lane_weights, bit_weights);
    if weights.len() == 0 {
        let zero = combined(weights, instances);
        let z = F::zero_spec();
        assert(dot(weights, values) == z);
        assert(zero =~= lanes_scaled(z, zero)) by {
            assert forall|lane: int| 0 <= lane < 25 implies zero[lane] == lanes_scaled(
                z,
                zero,
            )[lane] by {
                assert forall|j: int| 0 <= j < 64 implies zero[lane][j] == z.times(
                    zero[lane][j],
                ) by {
                    lemma_times_zero(z);
                }
                assert(zero[lane] =~= lanes_scaled(z, zero)[lane]);
            }
        }
        lemma_mixed_lanes_scaled(z, zero, lane_weights, bit_weights);
        lemma_times_zero(mixed_lanes(zero, lane_weights, bit_weights));
    } else {
        let (w, v) = (weights.drop_last(), instances.drop_last());
        assert forall|i: int| 0 <= i < v.len() implies is_lanes(#[trigger] v[i]) by {
            assert(is_lanes(instances[i]));
        }
        assert(is_lanes(instances[instances.len() - 1]));
        law_mixed_lanes_of_combination(w, v, lane_weights, bit_weights);
        lemma_combined_step(weights, instances);
        let rest = combined(w, v);
        let (c, last) = (weights.last(), instances.last());
        lemma_mixed_lanes_plus(rest, lanes_scaled(c, last), lane_weights, bit_weights);
        lemma_mixed_lanes_scaled(c, last, lane_weights, bit_weights);
        assert(pointwise_times(weights, values).drop_last() =~= pointwise_times(
            w,
            mixed_values(v, lane_weights, bit_weights),
        ));
    }
}

/// The weighted values of instances.
pub open spec fn mixed_values<F: Field>(
    instances: Seq<Seq<Seq<F>>>,
    lane_weights: Seq<F>,
    bit_weights: Seq<F>,
) -> Seq<F> {
    Seq::new(instances.len(), |i: int| mixed_lanes(instances[i], lane_weights, bit_weights))
}

/// The images of a batch of states under one round.
pub open spec fn batch_round(states: Seq<Seq<u64>>, round: int) -> Seq<Seq<u64>> {
    Seq::new(states.len(), |i: int| keccak_round(states[i], round))
}

/// The images of a batch of states under chi and iota.
pub open spec fn batch_chi_iota(states: Seq<Seq<u64>>, round: int) -> Seq<Seq<u64>> {
    Seq::new(states.len(), |i: int| chi_iota(states[i], round))
}

/// Whether all states have 25 lanes.
pub open spec fn are_states(states: Seq<Seq<u64>>) -> bool {
    forall|i: int| 0 <= i < states.len() ==> (#[trigger] states[i]).len() == 25
}

/// The weighted value of the outputs of a round at a point is that of the round as a function of
/// its inputs.
pub proof fn law_value_of_round_outputs<F: BinaryField>(
    inputs: Seq<Seq<u64>>,
    round: int,
    point: Seq<F>,
    lane_weights: Seq<F>,
    bit_weights: Seq<F>,
)
    requires
        are_states(inputs),
        inputs.len() == pow2(point.len()),
        0 <= round < 24,
        lane_weights.len() == 25,
        bit_weights.len() == 64,
    ensures
        mixed_lanes(
            combined(eq_table(point), batch_scalars::<F>(batch_round(inputs, round))),
            lane_weights,
            bit_weights,
        ) == weighted_claim(
            batch_scalars::<F>(inputs),
            point,
            round_function(lane_weights, round, bit_weights),
        ),
{
    let outputs = batch_scalars::<F>(batch_round(inputs, round));
    let e = eq_table(point);
    lemma_eq_table_len(point);
    assert forall|i: int| 0 <= i < outputs.len() implies is_lanes(#[trigger] outputs[i]) by {}
    law_mixed_lanes_of_combination(e, outputs, lane_weights, bit_weights);
    let g = round_function(lane_weights, round, bit_weights);
    assert forall|i: int| 0 <= i < inputs.len() implies mixed_values(
        outputs,
        lane_weights,
        bit_weights,
    )[i] == values_on(batch_scalars::<F>(inputs), g)[i] by {
        assert(inputs[i].len() == 25);
        lemma_round_function_of_bits::<F>(inputs[i], lane_weights, round, bit_weights);
    }
    assert(mixed_values(outputs, lane_weights, bit_weights) =~= values_on(
        batch_scalars::<F>(inputs),
        g,
    ));
}

/// The weighted value of the outputs of chi and iota at a point is that of these steps as a
/// function of the states before chi.
pub proof fn law_value_of_chi_iota_outputs<F: BinaryField>(
    pre_chi: Seq<Seq<u64>>,
    round: int,
    point: Seq<F>,
    lane_weights: Seq<F>,
    bit_weights: Seq<F>,
)
    requires
        are_states(pre_chi),
        pre_chi.len() == pow2(point.len()),
        0 <= round < 24,
        lane_weights.len() == 25,
        bit_weights.len() == 64,
    ensures
        mixed_lanes(
            combined(eq_table(point), batch_scalars::<F>(batch_chi_iota(pre_chi, round))),
            lane_weights,
            bit_weights,
        ) == weighted_claim(
            batch_scalars::<F>(pre_chi),
            point,
            chi_function(lane_weights, round, bit_weights),
        ),
{
    let outputs = batch_scalars::<F>(batch_chi_iota(pre_chi, round));
    let e = eq_table(point);
    lemma_eq_table_len(point);
    assert forall|i: int| 0 <= i < outputs.len() implies is_lanes(#[trigger] outputs[i]) by {}
    law_mixed_lanes_of_combination(e, outputs, lane_weights, bit_weights);
    let g = chi_function(lane_weights, round, bit_weights);
    assert forall|i: int| 0 <= i < pre_chi.len() implies mixed_values(
        outputs,
        lane_weights,
        bit_weights,
    )[i] == values_on(batch_scalars::<F>(pre_chi), g)[i] by {
        assert(pre_chi[i].len() == 25);
        law_composed_of_bits::<F>(pre_chi[i], lane_weights, round, bit_weights);
    }
    assert(mixed_values(outputs, lane_weights, bit_weights) =~= values_on(
        batch_scalars::<F>(pre_chi),
        g,
    ));
}

/// An honest fused reduction passes its final check: from a true claim on the outputs of a round,
/// the rounds lead to the value that the verifier computes from the inputs. No coordinate of the
/// claimed point may be one.
pub proof fn law_fused_round_is_complete<F: BinaryField>(
    reduction: FusedRoundReduction<F>,
    inputs: Seq<Seq<u64>>,
    challenges: Seq<F>,
)
    requires
        are_states(inputs),
        reduction.round < 24,
        inputs.len() == pow2(reduction.output_claim.high_point@.len()),
        challenges.len() == reduction.output_claim.high_point@.len(),
        forall|j: int|
            0 <= j < challenges.len() ==> reduction.output_claim.high_point@[j] != F::one_spec(),
        is_claim_on(
            reduction.output_claim,
            batch_scalars::<F>(batch_round(inputs, reduction.round as int)),
            reduction.output_claim.bit_challenge,
            reduction.output_claim.high_point@,
            reduction.output_claim.lane_weights@,
        ),
    ensures
        ({
            let claim = reduction.output_claim;
            let bw = bit_weights_at(claim.bit_challenge);
            quadratic_final_claim(
                batch_scalars::<F>(inputs),
                claim.high_point@,
                round_function(claim.lane_weights@, reduction.round as int, bw),
                round_function_infinity(claim.lane_weights@, bw),
                claim.mixed_eval,
                challenges,
            ) == fused_value_at(batch_scalars::<F>(inputs), reduction, challenges)
        }),
{
    let claim = reduction.output_claim;
    let bw = bit_weights_at(claim.bit_challenge);
    let instances = batch_scalars::<F>(inputs);
    law_value_of_round_outputs(
        inputs,
        reduction.round as int,
        claim.high_point@,
        claim.lane_weights@,
        bw,
    );
    law_round_function_is_quadratic(claim.lane_weights@, reduction.round as int, bw);
    assert forall|i: int| 0 <= i < instances.len() implies is_lanes(#[trigger] instances[i]) by {}
    law_quadratic_rounds_end_in_value(
        instances,
        claim.high_point@,
        round_function(claim.lane_weights@, reduction.round as int, bw),
        round_function_infinity(claim.lane_weights@, bw),
        challenges,
    );
}

/// An honest `chi+iota` reduction passes its final check: from the weighted value of the outputs of
/// chi and iota, the rounds lead to the value that the verifier computes from the states before
/// chi. No coordinate of the point may be one.
pub proof fn law_chi_iota_round_is_complete<F: BinaryField>(
    pre_chi: Seq<Seq<u64>>,
    round: int,
    point: Seq<F>,
    lane_weights: Seq<F>,
    bit_weights: Seq<F>,
    challenges: Seq<F>,
)
    requires
        are_states(pre_chi),
        0 <= round < 24,
        pre_chi.len() == pow2(point.len()),
        challenges.len() == point.len(),
        forall|j: int| 0 <= j < point.len() ==> point[j] != F::one_spec(),
        lane_weights.len() == 25,
        bit_weights.len() == 64,
    ensures
        quadratic_final_claim(
            batch_scalars::<F>(pre_chi),
            point,
            chi_function(lane_weights, round, bit_weights),
            chi_function_infinity(lane_weights, bit_weights),
            mixed_lanes(
                combined(eq_table(point), batch_scalars::<F>(batch_chi_iota(pre_chi, round))),
                lane_weights,
                bit_weights,
            ),
            challenges,
        ) == composed(
            combined(eq_table(challenges.reverse()), batch_scalars::<F>(pre_chi)),
            lane_weights,
            round,
            bit_weights,
        ),
{
    let instances = batch_scalars::<F>(pre_chi);
    law_value_of_chi_iota_outputs(pre_chi, round, point, lane_weights, bit_weights);
    law_chi_function_is_quadratic(lane_weights, round, bit_weights);
    assert forall|i: int| 0 <= i < instances.len() implies is_lanes(#[trigger] instances[i]) by {}
    law_quadratic_rounds_end_in_value(
        instances,
        point,
        chi_function(lane_weights, round, bit_weights),
        chi_function_infinity(lane_weights, bit_weights),
        challenges,
    );
}

/// An honest linear reduction passes its final check: from the weighted value of the states before
/// chi, the rounds lead to the value that the verifier computes from the round inputs. No
/// coordinate of the point may be one.
pub proof fn law_linear_round_from_true_claim<F: BinaryField>(
    inputs: Seq<Seq<u64>>,
    point: Seq<F>,
    lane_weights: Seq<F>,
    bit_weights: Seq<F>,
    challenges: Seq<F>,
)
    requires
        are_states(inputs),
        inputs.len() == pow2(point.len()),
        challenges.len() == point.len(),
        forall|j: int| 0 <= j < point.len() ==> point[j] != F::one_spec(),
        lane_weights.len() == 25,
        bit_weights.len() == 64,
    ensures
        linear_final_claim(
            linear_values(batch_scalars::<F>(inputs), lane_weights, bit_weights),
            point,
            mixed_lanes(
                combined(eq_table(point), batch_scalars::<F>(batch_before_chi(inputs))),
                lane_weights,
                bit_weights,
            ),
            challenges,
        ) == linear_value(
            combined(eq_table(challenges.reverse()), batch_scalars::<F>(inputs)),
            lane_weights,
            bit_weights,
        ),
{
    let instances = batch_scalars::<F>(inputs);
    let before = batch_scalars::<F>(batch_before_chi(inputs));
    let e = eq_table(point);
    lemma_eq_table_len(point);
    assert forall|i: int| 0 <= i < before.len() implies is_lanes(#[trigger] before[i]) by {}
    assert forall|i: int| 0 <= i < instances.len() implies is_lanes(#[trigger] instances[i]) by {}
    law_mixed_lanes_of_combination(e, before, lane_weights, bit_weights);
    let table = linear_values(instances, lane_weights, bit_weights);
    assert forall|i: int| 0 <= i < inputs.len() implies mixed_values(
        before,
        lane_weights,
        bit_weights,
    )[i] == table[i] by {
        assert(inputs[i].len() == 25);
        law_linear_image_of_bits::<F>(inputs[i]);
    }
    assert(mixed_values(before, lane_weights, bit_weights) =~= table);
    lemma_dot_commutes(e, table);
    law_linear_rounds_end_in_evaluation(table, point, challenges);
    law_linear_round_is_complete(instances, challenges.reverse(), lane_weights, bit_weights);
}

/// The residual of a round vanishes where the outputs are those of the round.
pub proof fn law_residual_vanishes<F: Field>(
    inputs: Seq<Seq<u64>>,
    round: int,
    high_point: Seq<F>,
    lane_weights: Seq<F>,
    b: int,
)
    requires
        are_states(inputs),
        inputs.len() == pow2(high_point.len()),
        lane_weights.len() == 25,
        0 <= b < 64,
    ensures
        mixed_residual(inputs, batch_round(inputs, round), round, high_point, lane_weights, b)
            == F::zero_spec(),
{
    let outputs = batch_round(inputs, round);
    let z = F::zero_spec();
    let residuals = Seq::new(
        inputs.len(),
        |i: int| residual_bit(inputs[i], outputs[i], round, lane_weights, b),
    );
    assert forall|i: int| 0 <= i < inputs.len() implies residuals[i] == z by {
        let out = keccak_round(inputs[i], round);
        let bits = Seq::new(25, |lane: int| bit_scalar::<F>(outputs[i][lane] ^ out[lane], b));
        assert forall|lane: int| 0 <= lane < 25 implies pointwise_times(lane_weights, bits)[lane]
            == z by {
            let w = out[lane];
            let j = b as u64;
            assert(!(((w ^ w) >> j) & 1 == 1)) by (bit_vector);
            lemma_times_zero(lane_weights[lane]);
        }
        lemma_sum_zeros(pointwise_times(lane_weights, bits));
    }
    lemma_eq_table_len(high_point);
    let products = pointwise_times(eq_table(high_point), residuals);
    assert forall|i: int| 0 <= i < products.len() implies products[i] == z by {
        lemma_times_zero(eq_table(high_point)[i]);
    }
    lemma_sum_zeros(products);
}

/// A residual that vanishes extends to zeros.
pub proof fn law_zero_residual_extends_to_zero<F: BinaryField>(residual: Seq<F>, i: int)
    requires
        residual.len() == 64,
        forall|b: int| 0 <= b < 64 ==> residual[b] == F::zero_spec(),
        0 <= i < 64,
    ensures
        extension_values(residual)[i] == F::zero_spec(),
{
    let w = bit_weights_at(F::subspace_point(64 + i));
    let products = pointwise_times(residual, w);
    assert forall|b: int| 0 <= b < 64 implies products[b] == F::zero_spec() by {
        lemma_times_zero(w[b]);
    }
    lemma_sum_zeros(products);
}

/// When the suffix prover goes over from input bits to values before chi, its claim stays the
/// same.
pub proof fn law_suffix_goes_over_to_pre_chi<F: BinaryField>(
    inputs: Seq<Seq<u64>>,
    point: Seq<F>,
    lane_weights: Seq<F>,
    round: int,
    bit_weights: Seq<F>,
    challenge: F,
)
    requires
        are_states(inputs),
    ensures
        weighted_claim(
            folded_instances(batch_scalars::<F>(inputs), challenge),
            point,
            round_function(lane_weights, round, bit_weights),
        ) == weighted_claim(
            folded_instances(batch_pre_chi_scalars::<F>(inputs), challenge),
            point,
            chi_function(lane_weights, round, bit_weights),
        ),
{
    let a = folded_instances(batch_scalars::<F>(inputs), challenge);
    let b = folded_instances(batch_pre_chi_scalars::<F>(inputs), challenge);
    let g = round_function(lane_weights, round, bit_weights);
    let h = chi_function(lane_weights, round, bit_weights);
    let n = (inputs.len() / 2) as int;
    assert forall|i: int| 0 <= i < n implies values_on(a, g)[i] == values_on(b, h)[i] by {
        let (lo, hi) = (inputs[i], inputs[i + n]);
        assert(lo.len() == 25 && hi.len() == 25);
        law_linear_image_of_line(state_scalars::<F>(lo), state_scalars::<F>(hi), challenge);
        law_linear_image_of_bits::<F>(lo);
        law_linear_image_of_bits::<F>(hi);
    }
    assert(values_on(a, g) =~= values_on(b, h));
}

} // verus!
