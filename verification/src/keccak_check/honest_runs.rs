//! Honest runs over a whole permutation and over a round whose first message is over the bit index.

use vstd::arithmetic::power2::{lemma_pow2_unfold, pow2};
use vstd::prelude::*;

use super::blocks::{
    batch_scalars, combined, folded_instances, is_lanes, lanes_at, law_linear_image_of_line,
    law_tables_hold_states, linear_image, mixed_lanes, table_instances,
};
use super::boolean::law_linear_image_of_bits;
use super::completeness::{
    are_states, batch_chi_iota, batch_round, law_chi_iota_round_is_complete,
    law_linear_round_from_true_claim, law_suffix_goes_over_to_pre_chi, law_value_of_round_outputs,
};
use super::laws::{
    all_folded, chi_function, chi_function_infinity, law_all_folded_is_combined,
    law_chi_function_is_quadratic, law_quadratic_round_keeps_claim,
    law_quadratic_rounds_end_in_value, law_round_function_is_quadratic, linear_final_claim,
    quadratic_final_claim, round_function, round_function_infinity,
};
use super::linear_round::linear_values;
use super::oblong_round::batch_pre_chi_scalars;
use super::protocol::{output_weights, round_checks, VerifierRound};
use super::rotation::bit_weights_at;
use super::runs::suffix_final_claim;
use super::trace::{
    batch_after, batch_before_chi, is_full_trace, keccak_round, keccak_rounds, FullTrace,
};
use crate::field::{BinaryField, Field};
use crate::multilinear::eq_table;

verus! {

/// The point of the claim on the output of round `t`.
pub open spec fn output_point<F>(
    rounds: Seq<VerifierRound<F>>,
    high_point: Seq<F>,
    t: int,
) -> Seq<F> {
    if t + 1 < rounds.len() {
        rounds[t + 1].linear_challenges@.reverse()
    } else {
        high_point
    }
}

/// Whether both reductions of round `t` ended with what honest provers end with, which start from
/// the claims on the tables of the trace.
pub open spec fn is_honest_round<F: BinaryField>(
    trace: FullTrace<F>,
    bit_challenge: F,
    high_point: Seq<F>,
    lane_weights: Seq<F>,
    rounds: Seq<VerifierRound<F>>,
    t: int,
) -> bool {
    let n = pow2(high_point.len());
    let bw = bit_weights_at(bit_challenge);
    let (w_out, w_pre) = (output_weights(rounds, lane_weights, t), rounds[t].pre_chi_weights@);
    let out = table_instances(trace.round_output_spec(t), n);
    let pre_chi = table_instances(trace.rounds@[t].pre_chi, n);
    let input = table_instances(trace.rounds@[t].input, n);
    let out_point = output_point(rounds, high_point, t);
    let pre_point = rounds[t].chi_iota_challenges@.reverse();
    &&& rounds[t].chi_iota_eval == quadratic_final_claim(
        pre_chi,
        out_point,
        chi_function(w_out, t, bw),
        chi_function_infinity(w_out, bw),
        mixed_lanes(combined(eq_table(out_point), out), w_out, bw),
        rounds[t].chi_iota_challenges@,
    )
    &&& rounds[t].linear_eval == linear_final_claim(
        linear_values(input, w_pre, bw),
        pre_point,
        mixed_lanes(combined(eq_table(pre_point), pre_chi), w_pre, bw),
        rounds[t].linear_challenges@,
    )
}

/// Whether no coordinate is one.
pub open spec fn avoids_one<F: Field>(point: Seq<F>) -> bool {
    forall|j: int| 0 <= j < point.len() ==> #[trigger] point[j] != F::one_spec()
}

/// The states that a batch goes through have 25 lanes.
pub proof fn lemma_states_after(states: Seq<Seq<u64>>, n: nat)
    requires
        are_states(states),
    ensures
        are_states(batch_after(states, n)),
{
    assert forall|i: int| 0 <= i < states.len() implies (#[trigger] batch_after(
        states,
        n,
    )[i]).len() == 25 by {
        assert(states[i].len() == 25);
        if n > 0 {
            let s = keccak_rounds(states[i], (n - 1) as nat);
            assert(keccak_rounds(states[i], n) == keccak_round(s, n - 1));
        }
    }
}

/// The tables of a round of a trace hold the states before the round, before chi and after it.
pub proof fn lemma_round_tables<F: BinaryField>(trace: FullTrace<F>, states: Seq<Seq<u64>>, t: int)
    requires
        is_full_trace(trace, states),
        0 <= t < 24,
    ensures
        ({
            let before = batch_after(states, t as nat);
            let pre = batch_before_chi(before);
            &&& table_instances(trace.rounds@[t].input, states.len()) == batch_scalars::<F>(before)
            &&& table_instances(trace.rounds@[t].pre_chi, states.len()) == batch_scalars::<F>(pre)
            &&& table_instances(trace.round_output_spec(t), states.len()) == batch_scalars::<F>(
                batch_chi_iota(pre, t),
            )
        }),
{
    let before = batch_after(states, t as nat);
    let pre = batch_before_chi(before);
    let after = batch_after(states, (t + 1) as nat);
    let this = trace.rounds@[t];
    assert(after =~= batch_chi_iota(pre, t)) by {
        assert forall|i: int| 0 <= i < states.len() implies after[i] == batch_chi_iota(pre, t)[i] by {
            assert(keccak_rounds(states[i], (t + 1) as nat) == keccak_round(before[i], t));
        }
    }
    law_tables_hold_states(this.input, before);
    law_tables_hold_states(this.pre_chi, pre);
    if t + 1 < 24 {
        let next = trace.rounds@[t + 1];
        law_tables_hold_states(next.input, after);
    } else {
        law_tables_hold_states(trace.final_output, after);
    }
}

/// The reversal of a point that avoids one avoids one.
proof fn lemma_reverse_avoids_one<F: Field>(point: Seq<F>)
    requires
        avoids_one(point),
    ensures
        avoids_one(point.reverse()),
{
    let back = point.reverse();
    assert forall|j: int| 0 <= j < back.len() implies #[trigger] back[j] != F::one_spec() by {
        assert(point[point.len() - 1 - j] != F::one_spec());
    }
}

/// The whole check is complete: where every round ended with what honest provers end with on the
/// trace of a batch of permutations, every round passes. No coordinate of the points that the
/// reductions start from may be one: of the first point, of the challenges of the `chi+iota`
/// reductions, and of those of the linear reductions but for that of round zero, which is the last.
pub proof fn law_honest_chain_passes<F: BinaryField>(
    trace: FullTrace<F>,
    states: Seq<Seq<u64>>,
    bit_challenge: F,
    high_point: Seq<F>,
    lane_weights: Seq<F>,
    rounds: Seq<VerifierRound<F>>,
    t: int,
)
    requires
        are_states(states),
        states.len() == pow2(high_point.len()),
        is_full_trace(trace, states),
        lane_weights.len() == 25,
        rounds.len() == 24,
        0 <= t < 24,
        forall|u: int|
            0 <= u < 24 ==> (#[trigger] rounds[u]).chi_iota_challenges@.len() == high_point.len()
                && rounds[u].linear_challenges@.len() == high_point.len(),
        avoids_one(high_point),
        forall|u: int|
            0 <= u < 24 ==> avoids_one((#[trigger] rounds[u]).chi_iota_challenges@) && (u > 0
                ==> avoids_one(rounds[u].linear_challenges@)),
        is_honest_round(trace, bit_challenge, high_point, lane_weights, rounds, t),
    ensures
        round_checks(trace, bit_challenge, lane_weights, rounds, t),
{
    let bw = bit_weights_at(bit_challenge);
    let before = batch_after(states, t as nat);
    let pre = batch_before_chi(before);
    let (w_out, w_pre) = (output_weights(rounds, lane_weights, t), rounds[t].pre_chi_weights@);
    let out_point = output_point(rounds, high_point, t);
    let (chi, linear) = (rounds[t].chi_iota_challenges@, rounds[t].linear_challenges@);
    lemma_states_after(states, t as nat);
    lemma_round_tables(trace, states, t);
    lemma_reverse_avoids_one(chi);
    if t + 1 < 24 {
        lemma_reverse_avoids_one(rounds[t + 1].linear_challenges@);
    }
    assert(are_states(pre));
    law_chi_iota_round_is_complete(pre, t, out_point, w_out, bw, chi);
    law_linear_round_from_true_claim(before, chi.reverse(), w_pre, bw, linear);
}

/// The linear images of instances.
pub open spec fn linear_images<F: Field>(instances: Seq<Seq<Seq<F>>>) -> Seq<Seq<Seq<F>>> {
    Seq::new(instances.len(), |i: int| linear_image(instances[i]))
}

/// Folding goes through the linear steps.
proof fn lemma_linear_images_fold<F: Field>(instances: Seq<Seq<Seq<F>>>, challenges: Seq<F>)
    requires
        instances.len() == pow2(challenges.len()),
        forall|i: int| 0 <= i < instances.len() ==> is_lanes(#[trigger] instances[i]),
    ensures
        all_folded(linear_images(instances), challenges) == linear_images(
            all_folded(instances, challenges),
        ),
    decreases challenges.len(),
{
    if challenges.len() > 0 {
        let r = challenges[0];
        let folded = folded_instances(instances, r);
        let n = (instances.len() / 2) as int;
        lemma_pow2_unfold(challenges.len());
        assert forall|i: int| 0 <= i < n implies folded_instances(linear_images(instances), r)[i]
            == linear_images(folded)[i] by {
            assert(is_lanes(instances[i]) && is_lanes(instances[i + n]));
            law_linear_image_of_line(instances[i], instances[i + n], r);
        }
        assert(folded_instances(linear_images(instances), r) =~= linear_images(folded));
        assert forall|i: int| 0 <= i < folded.len() implies is_lanes(#[trigger] folded[i]) by {
            assert(folded[i] == lanes_at(instances[i], instances[i + n], r));
        }
        lemma_linear_images_fold(folded, challenges.skip(1));
    }
}

/// The linear steps applied to a combination of states are the combination of the states before
/// chi.
pub proof fn law_linear_image_of_combined_states<F: BinaryField>(
    inputs: Seq<Seq<u64>>,
    challenges: Seq<F>,
)
    requires
        are_states(inputs),
        inputs.len() == pow2(challenges.len()),
    ensures
        linear_image(combined(eq_table(challenges.reverse()), batch_scalars::<F>(inputs)))
            == combined(eq_table(challenges.reverse()), batch_pre_chi_scalars::<F>(inputs)),
{
    let instances = batch_scalars::<F>(inputs);
    let pre = batch_pre_chi_scalars::<F>(inputs);
    assert forall|i: int| 0 <= i < instances.len() implies is_lanes(#[trigger] instances[i]) by {}
    assert forall|i: int| 0 <= i < pre.len() implies is_lanes(#[trigger] pre[i]) by {}
    assert forall|i: int| 0 <= i < pre.len() implies linear_images(instances)[i] == pre[i] by {
        assert(inputs[i].len() == 25);
        law_linear_image_of_bits::<F>(inputs[i]);
    }
    assert(linear_images(instances) =~= pre);
    lemma_linear_images_fold(instances, challenges);
    law_all_folded_is_combined(instances, challenges);
    law_all_folded_is_combined(pre, challenges);
    assert(linear_images(all_folded(instances, challenges))[0] == all_folded(pre, challenges)[0]);
}

/// An honest suffix passes its final check: from the weighted value of the outputs of a round, its
/// rounds lead to the value that the verifier computes from the inputs. No coordinate of the point
/// may be one.
pub proof fn law_oblong_suffix_is_complete<F: BinaryField>(
    inputs: Seq<Seq<u64>>,
    round: int,
    point: Seq<F>,
    lane_weights: Seq<F>,
    bit_weights: Seq<F>,
    challenges: Seq<F>,
)
    requires
        are_states(inputs),
        inputs.len() == pow2(point.len()),
        challenges.len() == point.len(),
        avoids_one(point),
        0 <= round < 24,
        lane_weights.len() == 25,
        bit_weights.len() == 64,
    ensures
        suffix_final_claim(
            inputs,
            round,
            point,
            lane_weights,
            bit_weights,
            mixed_lanes(
                combined(eq_table(point), batch_scalars::<F>(batch_round(inputs, round))),
                lane_weights,
                bit_weights,
            ),
            challenges,
        ) == round_function(lane_weights, round, bit_weights)(
            combined(eq_table(challenges.reverse()), batch_scalars::<F>(inputs)),
        ),
{
    let instances = batch_scalars::<F>(inputs);
    let pre = batch_pre_chi_scalars::<F>(inputs);
    let g = round_function(lane_weights, round, bit_weights);
    let g_inf = round_function_infinity(lane_weights, bit_weights);
    let h = chi_function(lane_weights, round, bit_weights);
    let h_inf = chi_function_infinity(lane_weights, bit_weights);
    assert forall|i: int| 0 <= i < instances.len() implies is_lanes(#[trigger] instances[i]) by {}
    assert forall|i: int| 0 <= i < pre.len() implies is_lanes(#[trigger] pre[i]) by {}
    law_value_of_round_outputs(inputs, round, point, lane_weights, bit_weights);
    law_round_function_is_quadratic(lane_weights, round, bit_weights);
    if challenges.len() == 0 {
        law_quadratic_rounds_end_in_value(instances, point, g, g_inf, challenges);
    } else {
        let r = challenges[0];
        let rest = challenges.skip(1);
        let low = point.drop_last();
        let folded = folded_instances(pre, r);
        lemma_pow2_unfold(point.len());
        law_quadratic_round_keeps_claim(instances, point, g, g_inf, r);
        law_suffix_goes_over_to_pre_chi(inputs, low, lane_weights, round, bit_weights, r);
        law_chi_function_is_quadratic(lane_weights, round, bit_weights);
        let n = (pre.len() / 2) as int;
        assert forall|i: int| 0 <= i < folded.len() implies is_lanes(#[trigger] folded[i]) by {
            assert(folded[i] == lanes_at(pre[i], pre[i + n], r));
        }
        assert forall|j: int| 0 <= j < low.len() implies low[j] != F::one_spec() by {
            assert(point[j] != F::one_spec());
        }
        law_quadratic_rounds_end_in_value(folded, low, h, h_inf, rest);
        law_all_folded_is_combined(pre, challenges);
        law_all_folded_is_combined(folded, rest);
        law_linear_image_of_combined_states(inputs, challenges);
    }
}

} // verus!
