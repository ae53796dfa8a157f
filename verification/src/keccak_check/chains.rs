//! How the round polynomials of a run hang together: each meets the claim before it and carries on
//! to the claim after it, from the claim of the reduction to the claim that is left.

use vstd::arithmetic::power2::{lemma_pow2_unfold, pow2};
use vstd::prelude::*;

use super::blocks::{batch_scalars, combined, folded_instances, table_instances};
use super::chi_iota::{is_chi_iota_output, ChiIotaReduction, ChiIotaRoundOutput};
use super::claims::{is_claim_on, BitIndexedMixedClaim};
use super::fused_round::{is_fused_output, FusedRoundOutput, FusedRoundReduction};
use super::interpolation::law_extension_extrapolates;
use super::laws::{
    chi_function, chi_function_infinity, law_linear_rounds_end_in_evaluation, linear_final_claim,
    quadratic_final_claim, quadratic_y_1, quadratic_y_inf, round_function, round_function_infinity,
};
use super::linear_round::{
    has_high_vars, is_linear_output, linear_values, linear_y_1, same_lengths, LinearRoundOutput,
    LinearRoundReduction,
};
use super::oblong_round::{
    batch_pre_chi_scalars, is_first_round_output, is_oblong_message, is_residual, mixed_residual,
    OblongFirstRoundOutput, OblongRoundBoundaryClaim,
};
use super::rotation::bit_weights_at;
use super::runs::{
    coefficients, is_fused_run, is_linear_run, is_oblong_run, linear_messages, quadratic_messages,
    suffix_final_claim, suffix_messages, OblongRun, RoundRun,
};
use super::trace::{batch, LaneTables, State};
use crate::field::{lemma_minus_self, lemma_one_times, lemma_times_zero, BinaryField, Field};
use crate::mlecheck::{
    law_round_coeffs_meet_claim, linear_coeffs, polynomial_at, quadratic_coeffs, value_at_zero,
};
use crate::multilinear::{
    dot, eq_table, evaluation, folded_high, law_fold_high_evaluates, lemma_dot_commutes,
    lemma_eq_table_len,
};

verus! {

/// Whether a round polynomial meets the claim before it at a coordinate, and has the claim after it
/// as its value at the challenge.
pub open spec fn carries<F: Field>(
    message: Seq<F>,
    coordinate: F,
    before: F,
    challenge: F,
    after: F,
) -> bool {
    let one = F::one_spec();
    &&& one.minus(coordinate).times(polynomial_at(message, F::zero_spec())).plus(
        coordinate.times(polynomial_at(message, one)),
    ) == before
    &&& polynomial_at(message, challenge) == after
}

/// Whether round polynomials carry a claim on to another one, through the coordinates of a point
/// from the last one on.
pub open spec fn is_chain<F: Field>(
    claims: Seq<F>,
    messages: Seq<Seq<F>>,
    point: Seq<F>,
    claim: F,
    challenges: Seq<F>,
    end: F,
) -> bool {
    &&& messages.len() == challenges.len()
    &&& claims.len() == challenges.len() + 1
    &&& claims[0] == claim
    &&& claims[challenges.len() as int] == end
    &&& forall|k: int|
        0 <= k < challenges.len() ==> carries(
            #[trigger] messages[k],
            point[point.len() - 1 - k],
            claims[k],
            challenges[k],
            claims[k + 1],
        )
}

/// A chain is longer by a round in front of it.
proof fn lemma_longer_chain<F: Field>(
    rest: Seq<F>,
    first: Seq<F>,
    messages: Seq<Seq<F>>,
    point: Seq<F>,
    claim: F,
    challenges: Seq<F>,
    end: F,
) -> (claims: Seq<F>)
    requires
        challenges.len() > 0,
        point.len() > 0,
        challenges.len() <= point.len(),
        is_chain(
            rest,
            messages,
            point.drop_last(),
            polynomial_at(first, challenges[0]),
            challenges.skip(1),
            end,
        ),
        carries(
            first,
            point.last(),
            claim,
            challenges[0],
            polynomial_at(first, challenges[0]),
        ),
    ensures
        is_chain(claims, seq![first] + messages, point, claim, challenges, end),
{
    let claims = seq![claim] + rest;
    let all = seq![first] + messages;
    assert forall|k: int| 0 <= k < challenges.len() implies carries(
        #[trigger] all[k],
        point[point.len() - 1 - k],
        claims[k],
        challenges[k],
        claims[k + 1],
    ) by {
        if k > 0 {
            let low = point.drop_last();
            assert(carries(
                messages[k - 1],
                low[low.len() - 1 - (k - 1)],
                rest[k - 1],
                challenges.skip(1)[k - 1],
                rest[k],
            ));
            assert(all[k] == messages[k - 1]);
            assert(claims[k] == rest[k - 1] && claims[k + 1] == rest[k]);
        }
    }
    claims
}

/// A linear round polynomial meets its claim, provided that the coordinate is not one.
pub proof fn law_linear_coeffs_meet_claim<F: Field>(claim: F, alpha: F, y_1: F, challenge: F)
    requires
        alpha != F::one_spec(),
    ensures
        linear_coeffs(claim, alpha, y_1).len() == 2,
        polynomial_at(linear_coeffs(claim, alpha, y_1), F::one_spec()) == y_1,
        carries(
            linear_coeffs(claim, alpha, y_1),
            alpha,
            claim,
            challenge,
            polynomial_at(linear_coeffs(claim, alpha, y_1), challenge),
        ),
{
    let z = F::zero_spec();
    let one = F::one_spec();
    let c_0 = value_at_zero(claim, alpha, y_1);
    let l = linear_coeffs(claim, alpha, y_1);
    let q = quadratic_coeffs(claim, alpha, y_1, z);
    law_round_coeffs_meet_claim(claim, alpha, y_1, z);
    lemma_minus_self(y_1.minus(c_0));
    assert forall|x: F| polynomial_at(l, x) == #[trigger] polynomial_at(q, x) by {
        let e = Seq::<F>::empty();
        assert(l.skip(1) =~= seq![y_1.minus(c_0)]);
        assert(l.skip(1).skip(1) =~= e);
        assert(q.skip(1) =~= seq![y_1.minus(c_0), z]);
        assert(q.skip(1).skip(1) =~= seq![z]);
        assert(q.skip(1).skip(1).skip(1) =~= e);
        assert(polynomial_at(e, x) == z);
        assert(polynomial_at(q.skip(1).skip(1), x) == z.plus(x.times(z)));
        lemma_times_zero(x);
        F::law_times_commutes(x, z);
        F::law_plus_zero(z);
        assert(polynomial_at(q.skip(1), x) == y_1.minus(c_0).plus(x.times(z)));
        assert(polynomial_at(l.skip(1), x) == y_1.minus(c_0).plus(x.times(z)));
    }
}

/// The round polynomials of the linear prover carry its claim on to the claim that is left,
/// provided that no coordinate of the point is one.
pub proof fn law_linear_messages_chain<F: Field>(
    table: Seq<F>,
    point: Seq<F>,
    claim: F,
    challenges: Seq<F>,
) -> (claims: Seq<F>)
    requires
        challenges.len() <= point.len(),
        forall|j: int| 0 <= j < point.len() ==> point[j] != F::one_spec(),
    ensures
        is_chain(
            claims,
            linear_messages(table, point, claim, challenges),
            point,
            claim,
            challenges,
            linear_final_claim(table, point, claim, challenges),
        ),
    decreases challenges.len(),
{
    if challenges.len() == 0 {
        seq![claim]
    } else {
        let first = linear_coeffs(claim, point.last(), linear_y_1(table, point));
        law_linear_coeffs_meet_claim(
            claim,
            point.last(),
            linear_y_1(table, point),
            challenges[0],
        );
        let folded = folded_high(table, challenges[0]);
        let (low, next) = (point.drop_last(), polynomial_at(first, challenges[0]));
        let rest = law_linear_messages_chain(folded, low, next, challenges.skip(1));
        lemma_longer_chain(
            rest,
            first,
            linear_messages(folded, low, next, challenges.skip(1)),
            point,
            claim,
            challenges,
            linear_final_claim(table, point, claim, challenges),
        )
    }
}

/// The round polynomials for a quadratic function of instances carry the claim on to the claim that
/// is left, provided that no coordinate of the point is one.
pub proof fn law_quadratic_messages_chain<F: Field>(
    instances: Seq<Seq<Seq<F>>>,
    point: Seq<F>,
    g: spec_fn(Seq<Seq<F>>) -> F,
    g_inf: spec_fn(Seq<Seq<F>>) -> F,
    claim: F,
    challenges: Seq<F>,
) -> (claims: Seq<F>)
    requires
        challenges.len() <= point.len(),
        forall|j: int| 0 <= j < point.len() ==> point[j] != F::one_spec(),
    ensures
        is_chain(
            claims,
            quadratic_messages(instances, point, g, g_inf, claim, challenges),
            point,
            claim,
            challenges,
            quadratic_final_claim(instances, point, g, g_inf, claim, challenges),
        ),
    decreases challenges.len(),
{
    if challenges.len() == 0 {
        seq![claim]
    } else {
        let y_1 = quadratic_y_1(instances, point, g);
        let y_inf = quadratic_y_inf(instances, point, g_inf);
        let first = quadratic_coeffs(claim, point.last(), y_1, y_inf);
        law_round_coeffs_meet_claim(claim, point.last(), y_1, y_inf);
        let folded = folded_instances(instances, challenges[0]);
        let (low, next) = (point.drop_last(), polynomial_at(first, challenges[0]));
        let rest = law_quadratic_messages_chain(folded, low, g, g_inf, next, challenges.skip(1));
        lemma_longer_chain(
            rest,
            first,
            quadratic_messages(folded, low, g, g_inf, next, challenges.skip(1)),
            point,
            claim,
            challenges,
            quadratic_final_claim(instances, point, g, g_inf, claim, challenges),
        )
    }
}

/// The value at one of a linear round polynomial is the value of the table with the highest
/// variable fixed to one.
pub proof fn law_linear_y_1_is_value_at_one<F: Field>(table: Seq<F>, point: Seq<F>)
    requires
        point.len() > 0,
        table.len() == pow2(point.len()),
    ensures
        linear_y_1(table, point) == evaluation(table, point.drop_last().push(F::one_spec())),
{
    let one = F::one_spec();
    lemma_pow2_unfold(point.len());
    let low = point.drop_last();
    law_fold_high_evaluates(table, low, one);
    let n = (table.len() / 2) as int;
    let hi = table.skip(n);
    assert(folded_high(table, one) =~= hi) by {
        assert forall|i: int| 0 <= i < n implies folded_high(table, one)[i] == hi[i] by {
            let (lo, up) = (table[i], table[i + n]);
            lemma_one_times(up.minus(lo));
            F::law_minus(up, lo);
            F::law_plus_commutes(lo, up.minus(lo));
        }
    }
    lemma_eq_table_len(low);
    lemma_dot_commutes(hi, eq_table(low));
}

/// The round polynomials of the suffix prover carry its claim on to the claim that is left, provided
/// that no coordinate of the point is one.
pub proof fn law_suffix_messages_chain<F: BinaryField>(
    inputs: Seq<Seq<u64>>,
    round: int,
    point: Seq<F>,
    lane_weights: Seq<F>,
    bit_weights: Seq<F>,
    claim: F,
    challenges: Seq<F>,
) -> (claims: Seq<F>)
    requires
        challenges.len() <= point.len(),
        forall|j: int| 0 <= j < point.len() ==> point[j] != F::one_spec(),
    ensures
        is_chain(
            claims,
            suffix_messages(inputs, round, point, lane_weights, bit_weights, claim, challenges),
            point,
            claim,
            challenges,
            suffix_final_claim(inputs, round, point, lane_weights, bit_weights, claim, challenges),
        ),
{
    if challenges.len() == 0 {
        seq![claim]
    } else {
        let instances = batch_scalars::<F>(inputs);
        let y_1 = quadratic_y_1(
            instances,
            point,
            round_function(lane_weights, round, bit_weights),
        );
        let y_inf = quadratic_y_inf(
            instances,
            point,
            round_function_infinity(lane_weights, bit_weights),
        );
        let first = quadratic_coeffs(claim, point.last(), y_1, y_inf);
        law_round_coeffs_meet_claim(claim, point.last(), y_1, y_inf);
        let folded = folded_instances(batch_pre_chi_scalars::<F>(inputs), challenges[0]);
        let (low, next) = (point.drop_last(), polynomial_at(first, challenges[0]));
        let g = chi_function(lane_weights, round, bit_weights);
        let g_inf = chi_function_infinity(lane_weights, bit_weights);
        let rest = law_quadratic_messages_chain(folded, low, g, g_inf, next, challenges.skip(1));
        lemma_longer_chain(
            rest,
            first,
            quadratic_messages(folded, low, g, g_inf, next, challenges.skip(1)),
            point,
            claim,
            challenges,
            quadratic_final_claim(folded, low, g, g_inf, next, challenges.skip(1)),
        )
    }
}

/// A run of the linear prover is a chain from the claim before chi to the claim that is left.
pub proof fn law_linear_run_is_chain<F: BinaryField>(
    run: RoundRun<F>,
    input: LaneTables<F>,
    reduction: LinearRoundReduction<F>,
    challenges: Seq<F>,
) -> (claims: Seq<F>)
    requires
        is_linear_run(run, input, reduction, challenges),
        challenges.len() == reduction.pre_chi_claim.high_point@.len(),
        forall|j: int|
            0 <= j < challenges.len() ==> reduction.pre_chi_claim.high_point@[j] != F::one_spec(),
    ensures
        is_chain(
            claims,
            Seq::new(run.rounds@.len(), |k: int| run.rounds@[k].coeffs@),
            reduction.pre_chi_claim.high_point@,
            reduction.pre_chi_claim.mixed_eval,
            challenges,
            run.eval,
        ),
{
    let claim = reduction.pre_chi_claim;
    let table = linear_values(
        table_instances(input, pow2(claim.high_point@.len())),
        claim.lane_weights@,
        bit_weights_at(claim.bit_challenge),
    );
    assert(Seq::new(run.rounds@.len(), |k: int| run.rounds@[k].coeffs@) =~= coefficients(
        run.rounds@,
    ));
    law_linear_messages_chain(table, claim.high_point@, claim.mixed_eval, challenges)
}

/// A run of a fused round is a chain from the claim after the round to the claim that is left.
pub proof fn law_fused_run_is_chain<F: BinaryField>(
    run: RoundRun<F>,
    out: FusedRoundOutput<F>,
    instances: Seq<Seq<Seq<F>>>,
    reduction: FusedRoundReduction<F>,
    challenges: Seq<F>,
) -> (claims: Seq<F>)
    requires
        is_fused_run(run, out, instances, reduction, challenges),
        challenges.len() == reduction.output_claim.high_point@.len(),
        forall|j: int|
            0 <= j < challenges.len() ==> reduction.output_claim.high_point@[j] != F::one_spec(),
    ensures
        is_chain(
            claims,
            Seq::new(run.rounds@.len(), |k: int| run.rounds@[k].coeffs@),
            reduction.output_claim.high_point@,
            reduction.output_claim.mixed_eval,
            challenges,
            run.eval,
        ),
{
    let claim = reduction.output_claim;
    let bw = bit_weights_at(claim.bit_challenge);
    assert(Seq::new(run.rounds@.len(), |k: int| run.rounds@[k].coeffs@) =~= coefficients(
        run.rounds@,
    ));
    law_quadratic_messages_chain(
        instances,
        claim.high_point@,
        round_function(claim.lane_weights@, reduction.round as int, bw),
        round_function_infinity(claim.lane_weights@, bw),
        claim.mixed_eval,
        challenges,
    )
}

/// The rounds over the instances of a run are a chain from the claim on the output states at the
/// bit challenge to the claim that is left, and the run ends with the claim on the input states at
/// the reversed challenges.
pub proof fn law_oblong_run_is_chain<F: BinaryField>(
    run: OblongRun<F>,
    inputs: Seq<Seq<u64>>,
    outputs: Seq<Seq<u64>>,
    round: int,
    on_output: BitIndexedMixedClaim<F>,
    on_input: BitIndexedMixedClaim<F>,
    challenges: Seq<F>,
) -> (claims: Seq<F>)
    requires
        is_oblong_run(
            run,
            inputs,
            outputs,
            round,
            on_output.high_point@,
            on_output.lane_weights@,
            on_output.bit_challenge,
            challenges,
        ),
        is_claim_on(
            on_output,
            batch_scalars::<F>(outputs),
            on_output.bit_challenge,
            on_output.high_point@,
            on_output.lane_weights@,
        ),
        is_claim_on(
            on_input,
            batch_scalars::<F>(inputs),
            on_output.bit_challenge,
            challenges.reverse(),
            on_input.lane_weights@,
        ),
        challenges.len() == on_output.high_point@.len(),
        forall|j: int| 0 <= j < challenges.len() ==> on_output.high_point@[j] != F::one_spec(),
    ensures
        is_chain(
            claims,
            Seq::new(run.suffix.rounds@.len(), |k: int| run.suffix.rounds@[k].coeffs@),
            on_output.high_point@,
            on_output.mixed_eval,
            challenges,
            run.suffix.eval,
        ),
        run.output.reduced_high_point@ == on_input.high_point@,
        run.output.input_evals@ == on_input.lane_evals@,
{
    let bw = bit_weights_at(on_output.bit_challenge);
    assert(Seq::new(run.suffix.rounds@.len(), |k: int| run.suffix.rounds@[k].coeffs@)
        =~= coefficients(run.suffix.rounds@));
    law_suffix_messages_chain(
        inputs,
        round,
        on_output.high_point@,
        on_output.lane_weights@,
        bw,
        on_output.mixed_eval,
        challenges,
    )
}

/// What a `chi+iota` reduction leaves are the claims on the tables at the reversed challenges: the
/// mixed one after chi and iota, and the one of each lane before chi.
pub proof fn law_chi_iota_output_is_claims<F: BinaryField>(
    out: ChiIotaRoundOutput<F>,
    output: LaneTables<F>,
    pre_chi: LaneTables<F>,
    reduction: ChiIotaReduction<F>,
    challenges: Seq<F>,
    after: BitIndexedMixedClaim<F>,
    before: BitIndexedMixedClaim<F>,
)
    requires
        is_chi_iota_output(out, output, pre_chi, reduction, challenges),
        is_claim_on(
            after,
            table_instances(output, pow2(challenges.len())),
            reduction.output_claim.bit_challenge,
            challenges.reverse(),
            reduction.output_claim.lane_weights@,
        ),
        is_claim_on(
            before,
            table_instances(pre_chi, pow2(challenges.len())),
            reduction.output_claim.bit_challenge,
            challenges.reverse(),
            before.lane_weights@,
        ),
    ensures
        out.reduced_high_point@ == after.high_point@,
        out.reduced_high_point@ == before.high_point@,
        out.reduced_eval == after.mixed_eval,
        out.pre_chi_evals@ == before.lane_evals@,
{
}

/// What a fused reduction leaves is the claim on its input at the reversed challenges.
pub proof fn law_fused_output_is_claim<F: BinaryField>(
    out: FusedRoundOutput<F>,
    instances: Seq<Seq<Seq<F>>>,
    reduction: FusedRoundReduction<F>,
    challenges: Seq<F>,
    before: BitIndexedMixedClaim<F>,
)
    requires
        is_fused_output(out, instances, reduction, challenges),
        is_claim_on(
            before,
            instances,
            reduction.output_claim.bit_challenge,
            challenges.reverse(),
            before.lane_weights@,
        ),
    ensures
        out.reduced_high_point@ == before.high_point@,
        out.input_evals@ == before.lane_evals@,
{
}

/// What the first message of a round leaves is the claim on the output states at the bit challenge,
/// with the point and the weights of the boundary.
pub proof fn law_first_round_output_is_claim<F: BinaryField>(
    out: OblongFirstRoundOutput<F>,
    output_words: Seq<State>,
    boundary: OblongRoundBoundaryClaim<F>,
    bit_challenge: F,
    after: BitIndexedMixedClaim<F>,
)
    requires
        is_first_round_output(out, output_words, boundary, bit_challenge),
        is_claim_on(
            after,
            batch_scalars::<F>(Seq::new(output_words.len(), |i: int| output_words[i]@)),
            bit_challenge,
            boundary.high_point@,
            boundary.lane_weights@,
        ),
    ensures
        out.bit_challenge == bit_challenge,
        out.output_claim.bit_challenge == bit_challenge,
        out.output_claim.high_point@ == boundary.high_point@,
        out.output_claim.lane_weights@ == boundary.lane_weights@,
        out.output_claim.lane_evals@ == after.lane_evals@,
        out.output_claim.mixed_eval == after.mixed_eval,
{
    assert(Seq::new(output_words.len(), |i: int| output_words[i]@) =~= batch(output_words));
}

/// The evaluations that the suffix prover ends with are those of the bits before chi: weighted by
/// the bit weights, those of a lane are the claim on the lane before chi.
pub proof fn law_suffix_ends_before_chi<F: BinaryField>(
    run: OblongRun<F>,
    inputs: Seq<Seq<u64>>,
    outputs: Seq<Seq<u64>>,
    round: int,
    point: Seq<F>,
    lane_weights: Seq<F>,
    before: BitIndexedMixedClaim<F>,
    challenges: Seq<F>,
    lane: int,
)
    requires
        is_oblong_run(
            run,
            inputs,
            outputs,
            round,
            point,
            lane_weights,
            before.bit_challenge,
            challenges,
        ),
        is_claim_on(
            before,
            batch_pre_chi_scalars::<F>(inputs),
            before.bit_challenge,
            challenges.reverse(),
            before.lane_weights@,
        ),
        0 <= lane < 25,
    ensures
        run.suffix.evals@.len() == 1600,
        dot(
            run.suffix.evals@.subrange(64 * lane, 64 * lane + 64),
            bit_weights_at(before.bit_challenge),
        ) == before.lane_evals@[lane],
{
    let v = combined(eq_table(challenges.reverse()), batch_pre_chi_scalars::<F>(inputs));
    let own = run.suffix.evals@.subrange(64 * lane, 64 * lane + 64);
    assert(v[lane].len() == 64);
    assert forall|b: int| 0 <= b < 64 implies own[b] == v[lane][b] by {
        let k = 64 * lane + b;
        assert(k / 64 == lane && k % 64 == b);
    }
    assert(own =~= v[lane]);
}

/// Lane tables have `h` instance variables where each of the 25 tables has `64 * 2^h` entries, and
/// then they all have the same length.
pub proof fn law_high_vars_fix_lengths<F>(tables: LaneTables<F>, h: nat)
    ensures
        has_high_vars(tables, h) <==> forall|lane: int|
            0 <= lane < 25 ==> (#[trigger] tables@[lane])@.len() == 64 * pow2(h),
        same_lengths(tables) <==> forall|lane: int, other: int|
            0 <= lane < 25 && 0 <= other < 25 ==> (#[trigger] tables@[lane])@.len() == (
            #[trigger] tables@[other])@.len(),
{
    if has_high_vars(tables, h) {
        assert forall|lane: int| 0 <= lane < 25 implies (#[trigger] tables@[lane])@.len() == 64
            * pow2(h) by {
            assert(tables[lane]@.len() == 64 * pow2(h));
        }
    }
    if same_lengths(tables) {
        assert forall|lane: int, other: int| 0 <= lane < 25 && 0 <= other < 25 implies (
        #[trigger] tables@[lane])@.len() == (#[trigger] tables@[other])@.len() by {
            assert(tables[lane]@.len() == tables[0]@.len());
            assert(tables[other]@.len() == tables[0]@.len());
        }
    }
    assert forall|lane: int| 0 <= lane < 25 implies #[trigger] tables[lane] == tables@[lane] by {}
    assert(tables[0] == tables@[0]);
}

/// What a linear reduction leaves is the claim on its input at the reversed challenges, with the
/// evaluation that the rounds ended in.
pub proof fn law_linear_output_is_claim<F: BinaryField>(
    output: LinearRoundOutput<F>,
    input: LaneTables<F>,
    reduction: LinearRoundReduction<F>,
    challenges: Seq<F>,
    reduced_eval: F,
    before: BitIndexedMixedClaim<F>,
)
    requires
        is_linear_output(output, input, reduction, challenges, reduced_eval),
        is_claim_on(
            before,
            table_instances(input, pow2(challenges.len())),
            reduction.pre_chi_claim.bit_challenge,
            challenges.reverse(),
            before.lane_weights@,
        ),
    ensures
        output.reduced_high_point@ == before.high_point@,
        output.input_evals@ == before.lane_evals@,
        output.reduced_eval == reduced_eval,
{
}

/// A run of the linear prover on a true claim ends in the evaluation that it sends: the claim that
/// is left is the one evaluation of the prover, provided that no coordinate of the point is one.
pub proof fn law_linear_run_ends_in_its_evaluation<F: BinaryField>(
    run: RoundRun<F>,
    input: LaneTables<F>,
    reduction: LinearRoundReduction<F>,
    challenges: Seq<F>,
)
    requires
        is_linear_run(run, input, reduction, challenges),
        challenges.len() == reduction.pre_chi_claim.high_point@.len(),
        forall|j: int|
            0 <= j < challenges.len() ==> reduction.pre_chi_claim.high_point@[j] != F::one_spec(),
        reduction.pre_chi_claim.mixed_eval == evaluation(
            linear_values(
                table_instances(input, pow2(reduction.pre_chi_claim.high_point@.len())),
                reduction.pre_chi_claim.lane_weights@,
                bit_weights_at(reduction.pre_chi_claim.bit_challenge),
            ),
            reduction.pre_chi_claim.high_point@,
        ),
    ensures
        run.evals@.len() == 1,
        run.evals@[0] == run.eval,
{
    let claim = reduction.pre_chi_claim;
    let table = linear_values(
        table_instances(input, pow2(claim.high_point@.len())),
        claim.lane_weights@,
        bit_weights_at(claim.bit_challenge),
    );
    law_linear_rounds_end_in_evaluation(table, claim.high_point@, challenges);
}

/// A run of a fused round ends with the claim on its input at the reversed challenges.
pub proof fn law_fused_run_ends_in_claim<F: BinaryField>(
    run: RoundRun<F>,
    out: FusedRoundOutput<F>,
    instances: Seq<Seq<Seq<F>>>,
    reduction: FusedRoundReduction<F>,
    challenges: Seq<F>,
    before: BitIndexedMixedClaim<F>,
)
    requires
        is_fused_run(run, out, instances, reduction, challenges),
        is_claim_on(
            before,
            instances,
            reduction.output_claim.bit_challenge,
            challenges.reverse(),
            before.lane_weights@,
        ),
    ensures
        out.reduced_high_point@ == before.high_point@,
        out.input_evals@ == before.lane_evals@,
{
    law_fused_output_is_claim(out, instances, reduction, challenges, before);
}

/// The first message of a run is the extension of the residual of its round: where a polynomial with
/// at most 64 coefficients has the residual as its values at the first 64 points, entry `i` is its
/// value at point `64 + i`.
pub proof fn law_oblong_run_starts_with_residual<F: BinaryField>(
    run: OblongRun<F>,
    inputs: Seq<Seq<u64>>,
    outputs: Seq<Seq<u64>>,
    round: int,
    point: Seq<F>,
    lane_weights: Seq<F>,
    bit_challenge: F,
    challenges: Seq<F>,
    c: Seq<F>,
    i: int,
)
    requires
        is_oblong_run(
            run,
            inputs,
            outputs,
            round,
            point,
            lane_weights,
            bit_challenge,
            challenges,
        ),
        c.len() <= 64,
        forall|b: int|
            0 <= b < 64 ==> #[trigger] mixed_residual(
                inputs,
                outputs,
                round,
                point,
                lane_weights,
                b,
            ) == polynomial_at(c, F::subspace_point(b)),
        0 <= i < 64,
    ensures
        run.message@[i] == polynomial_at(c, F::subspace_point(64 + i)),
{
    let residual = Seq::new(
        64,
        |b: int| mixed_residual(inputs, outputs, round, point, lane_weights, b),
    );
    assert forall|b: int| 0 <= b < 64 implies #[trigger] residual[b] == polynomial_at(
        c,
        F::subspace_point(b),
    ) by {
        assert(mixed_residual(inputs, outputs, round, point, lane_weights, b) == polynomial_at(
            c,
            F::subspace_point(b),
        ));
    }
    law_extension_extrapolates(c, residual, i);
}

/// The first message of a round goes with its residual: where a polynomial with at most 64
/// coefficients has the residual as its values at the first 64 points, the message holds its values
/// at the next 64 points.
pub proof fn law_message_goes_with_residual<F: BinaryField>(
    residual: [F; 64],
    message: Seq<F>,
    inputs: Seq<Seq<u64>>,
    outputs: Seq<Seq<u64>>,
    round: int,
    point: Seq<F>,
    lane_weights: Seq<F>,
    c: Seq<F>,
    i: int,
)
    requires
        is_residual(residual, inputs, outputs, round, point, lane_weights),
        is_oblong_message(message, inputs, outputs, round, point, lane_weights),
        c.len() <= 64,
        forall|b: int|
            0 <= b < 64 ==> #[trigger] residual@[b] == polynomial_at(c, F::subspace_point(b)),
        0 <= i < 64,
    ensures
        message.len() == 64,
        message[i] == polynomial_at(c, F::subspace_point(64 + i)),
{
    let own = Seq::new(
        64,
        |b: int| mixed_residual(inputs, outputs, round, point, lane_weights, b),
    );
    assert forall|b: int| 0 <= b < 64 implies #[trigger] own[b] == polynomial_at(
        c,
        F::subspace_point(b),
    ) by {
        assert(residual[b] == mixed_residual(inputs, outputs, round, point, lane_weights, b));
        assert(residual@[b] == residual[b]);
    }
    law_extension_extrapolates(c, own, i);
}

} // verus!
