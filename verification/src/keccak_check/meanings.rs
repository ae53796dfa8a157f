//! What the checks and values of the reductions are, in the entries of tables and the words of
//! states.

use vstd::arithmetic::power2::pow2;
use vstd::prelude::*;

use super::blocks::{
    batch_scalars, chi_image, combined, composed, instance_lanes, lane_values, mixed_lanes,
    position_values, table_instances,
};
use super::claims::{is_claim_on, BitIndexedMixedClaim};
use super::completeness::are_states;
use super::honest_runs::law_linear_image_of_combined_states;
use super::laws::chi_function;
use super::linear_round::linear_value;
use super::protocol::{has_one_dimension, round_checks, VerifierRound};
use super::rotation::{bit_weights_at, law_weights_select, word_scalars};
use super::trace::{batch_after, batch_before_chi, is_full_trace, FullTrace, LaneTables, RC};
use crate::field::{BinaryField, Field};
use crate::multilinear::{dot, eq_table};

verus! {

/// What a verified round says of the claims that its reductions ended with: they are the values
/// that the tables of the trace give, before chi for the linear reduction, and after chi and iota
/// for the other one.
pub proof fn law_verified_round_ends_right<F: BinaryField>(
    trace: FullTrace<F>,
    bit_challenge: F,
    lane_weights: Seq<F>,
    rounds: Seq<VerifierRound<F>>,
    t: int,
)
    requires
        rounds.len() == 24,
        0 <= t < 24,
        round_checks(trace, bit_challenge, lane_weights, rounds, t),
    ensures
        ({
            let bit_weights = bit_weights_at(bit_challenge);
            let chi = rounds[t].chi_iota_challenges@.reverse();
            let linear = rounds[t].linear_challenges@.reverse();
            &&& rounds[t].linear_eval == linear_value(
                combined(
                    eq_table(linear),
                    table_instances(trace.rounds@[t].input, pow2(linear.len())),
                ),
                rounds[t].pre_chi_weights@,
                bit_weights,
            )
            &&& rounds[t].chi_iota_eval == composed(
                combined(
                    eq_table(chi),
                    table_instances(trace.rounds@[t].pre_chi, pow2(chi.len())),
                ),
                if t < 23 {
                    rounds[t + 1].input_weights@
                } else {
                    lane_weights
                },
                t,
                bit_weights,
            )
        }),
{
}

/// The claims that the reductions of a verified round end with are determined by the trace, the
/// challenges and the weights: a run that ends a reduction with another value is refused.
pub proof fn law_verified_evals_are_determined<F: BinaryField>(
    trace: FullTrace<F>,
    bit_challenge: F,
    lane_weights: Seq<F>,
    a: Seq<VerifierRound<F>>,
    b: Seq<VerifierRound<F>>,
    t: int,
)
    requires
        a.len() == 24,
        b.len() == 24,
        0 <= t < 24,
        a[t].chi_iota_challenges@ == b[t].chi_iota_challenges@,
        a[t].linear_challenges@ == b[t].linear_challenges@,
        a[t].pre_chi_weights@ == b[t].pre_chi_weights@,
        t < 23 ==> a[t + 1].input_weights@ == b[t + 1].input_weights@,
        round_checks(trace, bit_challenge, lane_weights, a, t),
        round_checks(trace, bit_challenge, lane_weights, b, t),
    ensures
        a[t].linear_eval == b[t].linear_eval,
        a[t].chi_iota_eval == b[t].chi_iota_eval,
{
}

/// On the trace of permutations, the linear reduction of a verified round ends with the weighted
/// value of the words before chi at the reversed challenges.
pub proof fn law_linear_eval_is_value_before_chi<F: BinaryField>(
    trace: FullTrace<F>,
    states: Seq<Seq<u64>>,
    bit_challenge: F,
    lane_weights: Seq<F>,
    rounds: Seq<VerifierRound<F>>,
    t: int,
)
    requires
        are_states(states),
        is_full_trace(trace, states),
        rounds.len() == 24,
        0 <= t < 24,
        states.len() == pow2(rounds[t].linear_challenges@.len()),
        round_checks(trace, bit_challenge, lane_weights, rounds, t),
    ensures
        rounds[t].linear_eval == mixed_lanes(
            combined(
                eq_table(rounds[t].linear_challenges@.reverse()),
                batch_scalars::<F>(batch_before_chi(batch_after(states, t as nat))),
            ),
            rounds[t].pre_chi_weights@,
            bit_weights_at(bit_challenge),
        ),
{
    let before = batch_after(states, t as nat);
    let linear = rounds[t].linear_challenges@;
    super::honest_runs::lemma_states_after(states, t as nat);
    super::honest_runs::lemma_round_tables(trace, states, t);
    law_linear_image_of_combined_states::<F>(before, linear);
    let a = super::oblong_round::batch_pre_chi_scalars::<F>(before);
    let b = batch_scalars::<F>(batch_before_chi(before));
    assert(a =~= b);
}

/// The weighted value after chi and iota, written out: each bit of a lane takes the bits of the next
/// two lanes of its row, and the round constant is added to the first lane.
pub proof fn law_composed_written_out<F: Field>(
    v: Seq<Seq<F>>,
    lane_weights: Seq<F>,
    round: int,
    bit_weights: Seq<F>,
)
    ensures
        composed(v, lane_weights, round, bit_weights) == lane_weights[0].times(
            dot(word_scalars::<F>(RC[round]), bit_weights),
        ).plus(
            dot(
                lane_weights,
                Seq::new(
                    25,
                    |lane: int|
                        dot(
                            Seq::new(
                                64,
                                |b: int|
                                    v[lane][b].plus(
                                        v[(lane % 5 + 2) % 5 + 5 * (lane / 5)][b],
                                    ).plus(
                                        v[(lane % 5 + 1) % 5 + 5 * (lane / 5)][b].times(
                                            v[(lane % 5 + 2) % 5 + 5 * (lane / 5)][b],
                                        ),
                                    ),
                            ),
                            bit_weights,
                        ),
                ),
            ),
        ),
        chi_function(lane_weights, round, bit_weights)(v) == composed(
            v,
            lane_weights,
            round,
            bit_weights,
        ),
{
    let image = chi_image(v);
    let values = lane_values(image, bit_weights);
    let written = Seq::new(
        25,
        |lane: int|
            dot(
                Seq::new(
                    64,
                    |b: int|
                        v[lane][b].plus(v[(lane % 5 + 2) % 5 + 5 * (lane / 5)][b]).plus(
                            v[(lane % 5 + 1) % 5 + 5 * (lane / 5)][b].times(
                                v[(lane % 5 + 2) % 5 + 5 * (lane / 5)][b],
                            ),
                        ),
                ),
                bit_weights,
            ),
    );
    assert forall|lane: int| 0 <= lane < 25 implies values[lane] == written[lane] by {
        assert(image[lane] =~= Seq::new(
            64,
            |b: int|
                v[lane][b].plus(v[(lane % 5 + 2) % 5 + 5 * (lane / 5)][b]).plus(
                    v[(lane % 5 + 1) % 5 + 5 * (lane / 5)][b].times(
                        v[(lane % 5 + 2) % 5 + 5 * (lane / 5)][b],
                    ),
                ),
        ));
    }
    assert(values =~= written);
}

/// A claim on tables at a point of the bit-index domain is a claim on one bit: each lane evaluation
/// is that of the entries of the lane's table that belong to this bit, and the mixed evaluation is
/// their weighted sum.
pub proof fn law_claim_at_a_bit<F: BinaryField>(
    claim: BitIndexedMixedClaim<F>,
    tables: LaneTables<F>,
    b: int,
    lane: int,
)
    requires
        0 <= b < 64,
        0 <= lane < 25,
        (#[trigger] tables[lane])@.len() == 64 * pow2(claim.high_point@.len()),
        is_claim_on(
            claim,
            table_instances(tables, pow2(claim.high_point@.len())),
            F::subspace_point(b),
            claim.high_point@,
            claim.lane_weights@,
        ),
    ensures
        claim.lane_evals[lane] == dot(
            eq_table(claim.high_point@),
            Seq::new(
                pow2(claim.high_point@.len()),
                |i: int| tables[lane]@[64 * i + b],
            ),
        ),
        claim.mixed_eval == dot(claim.lane_weights@, claim.lane_evals@),
{
    let n = pow2(claim.high_point@.len());
    let instances = table_instances(tables, n);
    let folded = combined(eq_table(claim.high_point@), instances);
    assert(claim.lane_evals@ == lane_values(folded, bit_weights_at(F::subspace_point(b))));
    law_weights_select(folded[lane], b);
    let entries = Seq::new(n, |i: int| tables[lane]@[64 * i + b]);
    assert forall|i: int| 0 <= i < n implies position_values(instances, lane, b)[i]
        == entries[i] by {
        assert(instances[i] == instance_lanes(tables, i));
    }
    assert(position_values(instances, lane, b) =~= entries);
}

/// A trace has one dimension exactly where all tables of all rounds, before and behind the linear
/// steps, and those of the final output are of the same length.
pub proof fn law_one_dimension<F>(trace: FullTrace<F>, len: nat)
    requires
        trace.rounds@.len() == 24,
        trace.rounds@[0].input[0]@.len() == len,
    ensures
        has_one_dimension(trace) <==> ((forall|t: int, lane: int|
            0 <= t < 24 && 0 <= lane < 25 ==> (#[trigger] trace.rounds@[t].input[lane])@.len()
                == len) && (forall|t: int, lane: int|
            0 <= t < 24 && 0 <= lane < 25 ==> (#[trigger] trace.rounds@[t].pre_chi[lane])@.len()
                == len) && (forall|lane: int|
            0 <= lane < 25 ==> (#[trigger] trace.final_output[lane])@.len() == len)),
{
    if has_one_dimension(trace) {
        assert forall|t: int, lane: int| 0 <= t < 24 && 0 <= lane < 25 implies (
        #[trigger] trace.rounds@[t].input[lane])@.len() == len by {
            assert(super::protocol::has_length(trace.rounds@[t].input, len));
        }
        assert forall|t: int, lane: int| 0 <= t < 24 && 0 <= lane < 25 implies (
        #[trigger] trace.rounds@[t].pre_chi[lane])@.len() == len by {
            assert(super::protocol::has_length(trace.rounds@[t].pre_chi, len));
        }
    }
}

} // verus!
