//! Whole runs of the reductions for given challenges: the messages that the prover sends, the claim
//! that is left and the output of the reduction.

use vstd::arithmetic::power2::{lemma2_to64, lemma_pow2_unfold, pow2};
use vstd::prelude::*;

use super::blocks::{
    batch_scalars, combined, folded_instances, is_lanes, lane_values, mixed_lanes, table_instances,
};
use super::chi_iota::{
    self, is_chi_iota_output, ChiBitIndexedProver, ChiIotaReduction, ChiIotaRoundOutput,
};
use super::claims::{ClaimFault, Error};
use super::fused_round::{
    self, is_fused_output, starts_from, FusedRoundOutput, FusedRoundProver, FusedRoundReduction,
};
use super::laws::{
    all_folded, chi_function, chi_function_infinity, law_all_folded_is_combined,
    linear_final_claim, linear_next_claim, quadratic_final_claim, quadratic_y_1, quadratic_y_inf,
    round_function, round_function_infinity,
};
use super::linear_round::{
    self, are_tables, has_high_vars, is_linear_output, linear_values, linear_y_1, same_lengths,
    LinearMleCheckProver, LinearRoundOutput, LinearRoundReduction,
};
use super::oblong_round::{
    batch_pre_chi_scalars, is_oblong_message, mixed_fused_round_oblong_message_from_words,
    prove_fused_round_first_message, prove_fused_round_with_oblong_message, start_oblong_suffix,
    OblongRoundBoundaryClaim, PackedOblongSuffixProver,
};
use super::rotation::bit_weights_at;
use super::trace::{batch, LaneTables, State};
use crate::field::{BinaryField, Field};
use crate::mlecheck::{
    linear_coeffs, polynomial_at, quadratic_coeffs, RoundCoeffs, RoundCoeffsOrEval,
};
use crate::multilinear::{eq_table, evaluation, folded_high, law_fold_high_evaluates};

verus! {

/// What a run of a reduction gives.
#[derive(Debug, PartialEq, Eq)]
pub struct RoundRun<F> {
    /// The round polynomials, in the order in which they are sent.
    pub rounds: Vec<RoundCoeffs<F>>,
    /// The claim that is left.
    pub eval: F,
    /// The evaluations that the prover ends with.
    pub evals: Vec<F>,
}

/// The coefficients of round polynomials.
pub open spec fn coefficients<F>(rounds: Seq<RoundCoeffs<F>>) -> Seq<Seq<F>> {
    Seq::new(rounds.len(), |k: int| rounds[k].coeffs@)
}

/// The round polynomials of the linear prover.
pub open spec fn linear_messages<F: Field>(
    table: Seq<F>,
    point: Seq<F>,
    claim: F,
    challenges: Seq<F>,
) -> Seq<Seq<F>>
    decreases challenges.len(),
{
    if challenges.len() == 0 {
        Seq::empty()
    } else {
        seq![linear_coeffs(claim, point.last(), linear_y_1(table, point))] + linear_messages(
            folded_high(table, challenges[0]),
            point.drop_last(),
            linear_next_claim(table, point, claim, challenges[0]),
            challenges.skip(1),
        )
    }
}

/// The next round polynomial for a claim on a quadratic function of instances.
pub open spec fn quadratic_message<F: Field>(
    instances: Seq<Seq<Seq<F>>>,
    point: Seq<F>,
    g: spec_fn(Seq<Seq<F>>) -> F,
    g_inf: spec_fn(Seq<Seq<F>>) -> F,
    claim: F,
) -> Seq<F> {
    quadratic_coeffs(
        claim,
        point.last(),
        quadratic_y_1(instances, point, g),
        quadratic_y_inf(instances, point, g_inf),
    )
}

/// The round polynomials for a claim on a quadratic function of instances.
pub open spec fn quadratic_messages<F: Field>(
    instances: Seq<Seq<Seq<F>>>,
    point: Seq<F>,
    g: spec_fn(Seq<Seq<F>>) -> F,
    g_inf: spec_fn(Seq<Seq<F>>) -> F,
    claim: F,
    challenges: Seq<F>,
) -> Seq<Seq<F>>
    decreases challenges.len(),
{
    if challenges.len() == 0 {
        Seq::empty()
    } else {
        let message = quadratic_message(instances, point, g, g_inf, claim);
        seq![message] + quadratic_messages(
            folded_instances(instances, challenges[0]),
            point.drop_last(),
            g,
            g_inf,
            polynomial_at(message, challenges[0]),
            challenges.skip(1),
        )
    }
}

/// Runs the linear prover to the end.
pub fn run_linear<F: Field>(start: LinearMleCheckProver<F>, claim: F, challenges: &[F]) -> (r:
    RoundRun<F>)
    requires
        start.is_valid(),
        start.last_coeffs_or_eval == RoundCoeffsOrEval::Eval(claim),
        challenges@.len() == start.point.coordinates@.len(),
    ensures
        ({
            let (table, point) = (start.multilinear@, start.point.coordinates@);
            &&& coefficients(r.rounds@) == linear_messages(table, point, claim, challenges@)
            &&& r.eval == linear_final_claim(table, point, claim, challenges@)
            &&& r.evals@ == seq![evaluation(table, challenges@.reverse())]
        }),
{
    let ghost (table, point) = (start.multilinear@, start.point.coordinates@);
    let mut prover: LinearMleCheckProver<F> = start;
    let mut rounds: Vec<RoundCoeffs<F>> = Vec::new();
    let mut eval: F = claim;
    let mut k: usize = 0;
    proof {
        assert(challenges@.skip(0) =~= challenges@);
        assert(coefficients(rounds@) + linear_messages(table, point, claim, challenges@)
            =~= linear_messages(table, point, claim, challenges@));
    }
    while k < challenges.len()
        invariant
            k <= challenges@.len(),
            prover.is_valid(),
            prover.last_coeffs_or_eval == RoundCoeffsOrEval::Eval(eval),
            prover.point.coordinates@.len() == challenges@.len() - k,
            linear_final_claim(
                prover.multilinear@,
                prover.point.coordinates@,
                eval,
                challenges@.skip(k as int),
            ) == linear_final_claim(table, point, claim, challenges@),
            coefficients(rounds@) + linear_messages(
                prover.multilinear@,
                prover.point.coordinates@,
                eval,
                challenges@.skip(k as int),
            ) == linear_messages(table, point, claim, challenges@),
            evaluation(prover.multilinear@, challenges@.skip(k as int).reverse()) == evaluation(
                table,
                challenges@.reverse(),
            ),
        decreases challenges@.len() - k,
    {
        let ghost before = prover;
        let ghost sent = coefficients(rounds@);
        let ghost old_eval = eval;
        let ghost rest = challenges@.skip(k as int);
        let challenge: F = challenges[k];
        match prover.execute() {
            Ok(mut sent) => {
                let message = sent.pop();
                match message {
                    Some(message) => {
                        eval = message.evaluate(challenge);
                        rounds.push(message);
                    },
                    None => {
                        assert(false);
                    },
                }
            },
            Err(_) => {
                assert(false);
            },
        }
        let folded = prover.fold(challenge);
        proof {
            let next = challenges@.skip(k + 1);
            assert(rest.skip(1) =~= next);
            assert(rest[0] == challenge);
            let message = linear_coeffs(
                old_eval,
                before.point.coordinates@.last(),
                linear_y_1(before.multilinear@, before.point.coordinates@),
            );
            assert(coefficients(rounds@) =~= sent.push(message));
            assert(coefficients(rounds@) + linear_messages(
                prover.multilinear@,
                prover.point.coordinates@,
                eval,
                next,
            ) =~= sent + linear_messages(
                before.multilinear@,
                before.point.coordinates@,
                old_eval,
                rest,
            ));
            lemma_pow2_unfold(before.point.coordinates@.len());
            assert(rest.reverse() =~= next.reverse().push(challenge));
            law_fold_high_evaluates(before.multilinear@, next.reverse(), challenge);
        }
        k = k + 1;
    }
    proof {
        let rest = challenges@.skip(k as int);
        assert(rest =~= Seq::<F>::empty());
        assert(coefficients(rounds@) + linear_messages(
            prover.multilinear@,
            prover.point.coordinates@,
            eval,
            rest,
        ) =~= coefficients(rounds@));
        lemma2_to64();
        lemma_single_evaluation(prover.multilinear@, rest.reverse());
    }
    let evals: Vec<F> = match prover.finish() {
        Ok(evals) => evals,
        Err(_) => {
            assert(false);
            Vec::new()
        },
    };
    RoundRun { rounds, eval, evals }
}

/// A table with one entry is that value.
proof fn lemma_single_evaluation<F: Field>(table: Seq<F>, point: Seq<F>)
    requires
        table.len() == 1,
        point.len() == 0,
    ensures
        table == seq![evaluation(table, point)],
{
    lemma2_to64();
    crate::multilinear::law_fold_all_evaluates(table, point);
    assert(table =~= seq![evaluation(table, point)]);
}

/// Runs the `chi+iota` prover to the end.
pub fn run_chi_iota<F: Field>(start: ChiBitIndexedProver<F>, claim: F, challenges: &[F]) -> (r:
    RoundRun<F>)
    requires
        start.is_valid(),
        start.last_coeffs_or_eval == RoundCoeffsOrEval::Eval(claim),
        challenges@.len() == start.point.coordinates@.len(),
    ensures
        ({
            let (instances, point) = (start.instances(), start.point.coordinates@);
            let (g, h) = (start.function(), start.function_infinity());
            &&& coefficients(r.rounds@) == quadratic_messages(
                instances,
                point,
                g,
                h,
                claim,
                challenges@,
            )
            &&& r.eval == quadratic_final_claim(instances, point, g, h, claim, challenges@)
            &&& r.evals@ == lane_values(
                combined(eq_table(challenges@.reverse()), instances),
                start.bit_weights@,
            )
        }),
{
    let ghost (instances, point) = (start.instances(), start.point.coordinates@);
    let ghost (g, h) = (start.function(), start.function_infinity());
    let ghost all = quadratic_messages(instances, point, g, h, claim, challenges@);
    let ghost first = start;
    let mut prover: ChiBitIndexedProver<F> = start;
    let mut rounds: Vec<RoundCoeffs<F>> = Vec::new();
    let mut eval: F = claim;
    let mut k: usize = 0;
    proof {
        assert(challenges@.skip(0) =~= challenges@);
        assert(coefficients(rounds@) + all =~= all);
    }
    while k < challenges.len()
        invariant
            k <= challenges@.len(),
            prover.is_valid(),
            prover.same_weights(&first),
            g == first.function(),
            h == first.function_infinity(),
            prover.last_coeffs_or_eval == RoundCoeffsOrEval::Eval(eval),
            prover.point.coordinates@.len() == challenges@.len() - k,
            quadratic_final_claim(
                prover.instances(),
                prover.point.coordinates@,
                g,
                h,
                eval,
                challenges@.skip(k as int),
            ) == quadratic_final_claim(instances, point, g, h, claim, challenges@),
            coefficients(rounds@) + quadratic_messages(
                prover.instances(),
                prover.point.coordinates@,
                g,
                h,
                eval,
                challenges@.skip(k as int),
            ) == all,
            all_folded(prover.instances(), challenges@.skip(k as int)) == all_folded(
                instances,
                challenges@,
            ),
        decreases challenges@.len() - k,
    {
        let ghost before = prover;
        let ghost sent = coefficients(rounds@);
        let ghost old_eval = eval;
        let ghost rest = challenges@.skip(k as int);
        let challenge: F = challenges[k];
        match prover.execute() {
            Ok(mut sent) => {
                let message = sent.pop();
                match message {
                    Some(message) => {
                        eval = message.evaluate(challenge);
                        rounds.push(message);
                    },
                    None => {
                        assert(false);
                    },
                }
            },
            Err(_) => {
                assert(false);
            },
        }
        let folded = prover.fold(challenge);
        proof {
            let next = challenges@.skip(k + 1);
            assert(rest.skip(1) =~= next);
            assert(rest[0] == challenge);
            let message = before.round_coeffs(old_eval);
            assert(coefficients(rounds@) =~= sent.push(message));
            assert(coefficients(rounds@) + quadratic_messages(
                prover.instances(),
                prover.point.coordinates@,
                g,
                h,
                eval,
                next,
            ) =~= sent + quadratic_messages(
                before.instances(),
                before.point.coordinates@,
                g,
                h,
                old_eval,
                rest,
            ));
        }
        k = k + 1;
    }
    proof {
        let rest = challenges@.skip(k as int);
        assert(rest =~= Seq::<F>::empty());
        assert(coefficients(rounds@) + quadratic_messages(
            prover.instances(),
            prover.point.coordinates@,
            g,
            h,
            eval,
            rest,
        ) =~= coefficients(rounds@));
        assert(all_folded(prover.instances(), rest) == prover.instances());
        law_all_folded_is_combined(instances, challenges@);
    }
    let evals: Vec<F> = match prover.finish() {
        Ok(evals) => evals,
        Err(_) => {
            assert(false);
            Vec::new()
        },
    };
    RoundRun { rounds, eval, evals }
}

/// Runs the prover of a fused round to the end.
pub fn run_fused<F: Field>(start: FusedRoundProver<F>, claim: F, challenges: &[F]) -> (r: RoundRun<F>)
    requires
        start.is_valid(),
        start.last_coeffs_or_eval == RoundCoeffsOrEval::Eval(claim),
        challenges@.len() == start.point.coordinates@.len(),
    ensures
        ({
            let (instances, point) = (start.instances(), start.point.coordinates@);
            let (g, h) = (start.function(), start.function_infinity());
            &&& coefficients(r.rounds@) == quadratic_messages(
                instances,
                point,
                g,
                h,
                claim,
                challenges@,
            )
            &&& r.eval == quadratic_final_claim(instances, point, g, h, claim, challenges@)
            &&& r.evals@ == lane_values(
                combined(eq_table(challenges@.reverse()), instances),
                start.bit_weights@,
            )
        }),
{
    let ghost (instances, point) = (start.instances(), start.point.coordinates@);
    let ghost (g, h) = (start.function(), start.function_infinity());
    let ghost all = quadratic_messages(instances, point, g, h, claim, challenges@);
    let ghost first = start;
    let mut prover: FusedRoundProver<F> = start;
    let mut rounds: Vec<RoundCoeffs<F>> = Vec::new();
    let mut eval: F = claim;
    let mut k: usize = 0;
    proof {
        assert(challenges@.skip(0) =~= challenges@);
        assert(coefficients(rounds@) + all =~= all);
    }
    while k < challenges.len()
        invariant
            k <= challenges@.len(),
            prover.is_valid(),
            prover.same_weights(&first),
            g == first.function(),
            h == first.function_infinity(),
            prover.last_coeffs_or_eval == RoundCoeffsOrEval::Eval(eval),
            prover.point.coordinates@.len() == challenges@.len() - k,
            quadratic_final_claim(
                prover.instances(),
                prover.point.coordinates@,
                g,
                h,
                eval,
                challenges@.skip(k as int),
            ) == quadratic_final_claim(instances, point, g, h, claim, challenges@),
            coefficients(rounds@) + quadratic_messages(
                prover.instances(),
                prover.point.coordinates@,
                g,
                h,
                eval,
                challenges@.skip(k as int),
            ) == all,
            all_folded(prover.instances(), challenges@.skip(k as int)) == all_folded(
                instances,
                challenges@,
            ),
        decreases challenges@.len() - k,
    {
        let ghost before = prover;
        let ghost sent = coefficients(rounds@);
        let ghost old_eval = eval;
        let ghost rest = challenges@.skip(k as int);
        let challenge: F = challenges[k];
        match prover.execute() {
            Ok(mut sent) => {
                let message = sent.pop();
                match message {
                    Some(message) => {
                        eval = message.evaluate(challenge);
                        rounds.push(message);
                    },
                    None => {
                        assert(false);
                    },
                }
            },
            Err(_) => {
                assert(false);
            },
        }
        let folded = prover.fold(challenge);
        proof {
            let next = challenges@.skip(k + 1);
            assert(rest.skip(1) =~= next);
            assert(rest[0] == challenge);
            let message = before.round_coeffs(old_eval);
            assert(coefficients(rounds@) =~= sent.push(message));
            assert(coefficients(rounds@) + quadratic_messages(
                prover.instances(),
                prover.point.coordinates@,
                g,
                h,
                eval,
                next,
            ) =~= sent + quadratic_messages(
                before.instances(),
                before.point.coordinates@,
                g,
                h,
                old_eval,
                rest,
            ));
        }
        k = k + 1;
    }
    proof {
        let rest = challenges@.skip(k as int);
        assert(rest =~= Seq::<F>::empty());
        assert(coefficients(rounds@) + quadratic_messages(
            prover.instances(),
            prover.point.coordinates@,
            g,
            h,
            eval,
            rest,
        ) =~= coefficients(rounds@));
        assert(all_folded(prover.instances(), rest) == prover.instances());
        law_all_folded_is_combined(instances, challenges@);
    }
    let evals: Vec<F> = match prover.finish() {
        Ok(evals) => evals,
        Err(_) => {
            assert(false);
            Vec::new()
        },
    };
    RoundRun { rounds, eval, evals }
}

/// Runs the prover of the rounds after an oblong message to the end.
///
/// The first round works on the bits of the input states, the others on values before chi.
pub fn run_oblong<'a, F: BinaryField>(
    start: PackedOblongSuffixProver<'a, F>,
    claim: F,
    challenges: &[F],
) -> (r: RoundRun<F>)
    requires
        start.is_valid(),
        start.state is Words,
        start.last() == RoundCoeffsOrEval::Eval(claim),
        challenges@.len() == start.point().len(),
    ensures
        ({
            let point = start.point();
            let pre_chi = start.pre_chi_instances();
            let (g, h) = (
                chi_function(start.lane_weights@, start.round as int, start.bit_weights@),
                chi_function_infinity(start.lane_weights@, start.bit_weights@),
            );
            let first = start.round_coeffs(claim);
            &&& challenges@.len() == 0 ==> r.rounds@.len() == 0 && r.eval == claim
            &&& challenges@.len() > 0 ==> {
                let folded = folded_instances(pre_chi, challenges@[0]);
                let next = polynomial_at(first, challenges@[0]);
                let rest = challenges@.skip(1);
                &&& coefficients(r.rounds@) == seq![first] + quadratic_messages(
                    folded,
                    point.drop_last(),
                    g,
                    h,
                    next,
                    rest,
                )
                &&& r.eval == quadratic_final_claim(folded, point.drop_last(), g, h, next, rest)
            }
            &&& r.evals@ == flat_state(combined(eq_table(challenges@.reverse()), pre_chi))
        }),
{
    let ghost pre_chi = start.pre_chi_instances();
    let ghost point = start.point();
    let ghost first = start;
    let ghost (g, h) = (
        chi_function(start.lane_weights@, start.round as int, start.bit_weights@),
        chi_function_infinity(start.lane_weights@, start.bit_weights@),
    );
    let mut prover: PackedOblongSuffixProver<'a, F> = start;
    let mut rounds: Vec<RoundCoeffs<F>> = Vec::new();
    let mut eval: F = claim;
    proof {
        assert forall|i: int| 0 <= i < pre_chi.len() implies is_lanes(#[trigger] pre_chi[i]) by {}
        assert(pre_chi.len() == pow2(point.len()));
        assert(challenges@.skip(0) =~= challenges@);
        law_all_folded_is_combined(pre_chi, challenges@);
    }
    if challenges.len() == 0 {
        let evals: Vec<F> = match prover.finish() {
            Ok(evals) => evals,
            Err(_) => {
                assert(false);
                Vec::new()
            },
        };
        assert(evals@ =~= flat_state(pre_chi[0]));
        return RoundRun { rounds, eval, evals };
    }
    let mut k: usize = 0;
    while k < challenges.len()
        invariant
            k <= challenges@.len(),
            challenges@.len() > 0,
            first.is_valid(),
            first.state is Words,
            point == first.point(),
            pre_chi == first.pre_chi_instances(),
            first.last() == RoundCoeffsOrEval::Eval(claim),
            g == chi_function(first.lane_weights@, first.round as int, first.bit_weights@),
            h == chi_function_infinity(first.lane_weights@, first.bit_weights@),
            k == 0 ==> prover == first && eval == claim && rounds@.len() == 0,
            prover.is_valid(),
            prover.same_weights(&first),
            prover.last() == RoundCoeffsOrEval::Eval(eval),
            prover.point().len() == challenges@.len() - k,
            k > 0 ==> prover.state is Packed,
            k > 0 ==> quadratic_final_claim(
                prover.instances(),
                prover.point(),
                g,
                h,
                eval,
                challenges@.skip(k as int),
            ) == quadratic_final_claim(
                folded_instances(pre_chi, challenges@[0]),
                point.drop_last(),
                g,
                h,
                polynomial_at(first.round_coeffs(claim), challenges@[0]),
                challenges@.skip(1),
            ),
            k > 0 ==> coefficients(rounds@) + quadratic_messages(
                prover.instances(),
                prover.point(),
                g,
                h,
                eval,
                challenges@.skip(k as int),
            ) == seq![first.round_coeffs(claim)] + quadratic_messages(
                folded_instances(pre_chi, challenges@[0]),
                point.drop_last(),
                g,
                h,
                polynomial_at(first.round_coeffs(claim), challenges@[0]),
                challenges@.skip(1),
            ),
            all_folded(prover.pre_chi_instances(), challenges@.skip(k as int)) == all_folded(
                pre_chi,
                challenges@.skip(0),
            ),
        decreases challenges@.len() - k,
    {
        let ghost before = prover;
        let ghost sent = coefficients(rounds@);
        let ghost old_eval = eval;
        let ghost rest = challenges@.skip(k as int);
        let challenge: F = challenges[k];
        match prover.execute() {
            Ok(mut sent) => {
                let message = sent.pop();
                match message {
                    Some(message) => {
                        eval = message.evaluate(challenge);
                        rounds.push(message);
                    },
                    None => {
                        assert(false);
                    },
                }
            },
            Err(_) => {
                assert(false);
            },
        }
        let folded = prover.fold(challenge);
        proof {
            let next = challenges@.skip(k + 1);
            assert(rest.skip(1) =~= next);
            assert(rest[0] == challenge);
            let message = before.round_coeffs(old_eval);
            assert(coefficients(rounds@) =~= sent.push(message));
            if k > 0 {
                assert(before.function() == g && before.function_infinity() == h);
                assert(coefficients(rounds@) + quadratic_messages(
                    prover.instances(),
                    prover.point(),
                    g,
                    h,
                    eval,
                    next,
                ) =~= sent + quadratic_messages(
                    before.instances(),
                    before.point(),
                    g,
                    h,
                    old_eval,
                    rest,
                ));
            } else {
                assert(coefficients(rounds@) =~= seq![message]);
            }
        }
        k = k + 1;
    }
    proof {
        let rest = challenges@.skip(k as int);
        assert(rest =~= Seq::<F>::empty());
        assert(challenges@.skip(0) =~= challenges@);
        assert(coefficients(rounds@) + quadratic_messages(
            prover.instances(),
            prover.point(),
            g,
            h,
            eval,
            rest,
        ) =~= coefficients(rounds@));
        assert(all_folded(prover.pre_chi_instances(), rest) == prover.pre_chi_instances());
    }
    let ghost last = prover.pre_chi_instances()[0];
    let evals: Vec<F> = match prover.finish() {
        Ok(evals) => evals,
        Err(_) => {
            assert(false);
            Vec::new()
        },
    };
    assert(evals@ =~= flat_state(last));
    RoundRun { rounds, eval, evals }
}

/// The values of a state, lane by lane.
pub open spec fn flat_state<F>(v: Seq<Seq<F>>) -> Seq<F> {
    Seq::new(1600, |k: int| v[k / 64][k % 64])
}

/// Whether a run is that of the linear prover on the input tables of a reduction.
pub open spec fn is_linear_run<F: BinaryField>(
    run: RoundRun<F>,
    input: LaneTables<F>,
    reduction: LinearRoundReduction<F>,
    challenges: Seq<F>,
) -> bool {
    let claim = reduction.pre_chi_claim;
    let table = linear_values(
        table_instances(input, pow2(claim.high_point@.len())),
        claim.lane_weights@,
        bit_weights_at(claim.bit_challenge),
    );
    &&& coefficients(run.rounds@) == linear_messages(
        table,
        claim.high_point@,
        claim.mixed_eval,
        challenges,
    )
    &&& run.eval == linear_final_claim(table, claim.high_point@, claim.mixed_eval, challenges)
    &&& run.evals@ == seq![evaluation(table, challenges.reverse())]
}

/// Proves one `theta+rho+pi` linear reduction step for given challenges.
pub fn prove_linear_round<F: BinaryField>(
    input: &LaneTables<F>,
    reduction: &LinearRoundReduction<F>,
    challenges: &[F],
) -> (r: Result<(RoundRun<F>, LinearRoundOutput<F>), Error>)
    requires
        are_tables(*input),
        challenges@.len() == reduction.pre_chi_claim.high_point@.len(),
    ensures
        ({
            let h = reduction.pre_chi_claim.high_point@.len();
            match r {
                Ok((run, output)) => {
                    &&& has_high_vars(*input, h)
                    &&& is_linear_run(run, *input, *reduction, challenges@)
                    &&& is_linear_output(output, *input, *reduction, challenges@, run.evals@[0])
                },
                Err(e) => !has_high_vars(*input, h) && e == Error::InvalidClaim(
                    if input[0]@.len() < 64 {
                        ClaimFault::LaneTablesTooSmall
                    } else if !same_lengths(*input) {
                        ClaimFault::InputDimensions
                    } else {
                        ClaimFault::HighPointLength
                    },
                ),
            }
        }),
{
    let prover: LinearMleCheckProver<F> = match linear_round::start_round(input, reduction) {
        Ok(prover) => prover,
        Err(e) => {
            return Err(e);
        },
    };
    proof {
        let h = reduction.pre_chi_claim.high_point@.len();
        if !has_high_vars(*input, h) {
            assert(false);
        }
    }
    let run: RoundRun<F> = run_linear(prover, reduction.pre_chi_claim.mixed_eval, challenges);
    match linear_round::prove_round(input, reduction, challenges, run.evals.as_slice()) {
        Ok(output) => Ok((run, output)),
        Err(e) => {
            assert(false);
            Err(e)
        },
    }
}

/// Proves one `chi+iota` round reduction for given challenges.
pub fn prove_chi_iota_round<F: BinaryField>(
    output: &LaneTables<F>,
    pre_chi: &LaneTables<F>,
    reduction: &ChiIotaReduction<F>,
    challenges: &[F],
) -> (r: Result<(RoundRun<F>, ChiIotaRoundOutput<F>), Error>)
    requires
        challenges@.len() == reduction.output_claim.high_point@.len(),
    ensures
        ({
            let claim = reduction.output_claim;
            let h = claim.high_point@.len();
            let fits = reduction.round < 24 && has_high_vars(*output, h) && has_high_vars(
                *pre_chi,
                h,
            );
            let instances = table_instances(*pre_chi, pow2(h));
            let bw = bit_weights_at(claim.bit_challenge);
            let g = chi_function(claim.lane_weights@, reduction.round as int, bw);
            let g_inf = chi_function_infinity(claim.lane_weights@, bw);
            match r {
                Ok((run, out)) => {
                    &&& fits
                    &&& coefficients(run.rounds@) == quadratic_messages(
                        instances,
                        claim.high_point@,
                        g,
                        g_inf,
                        claim.mixed_eval,
                        challenges@,
                    )
                    &&& run.eval == quadratic_final_claim(
                        instances,
                        claim.high_point@,
                        g,
                        g_inf,
                        claim.mixed_eval,
                        challenges@,
                    )
                    &&& is_chi_iota_output(out, *output, *pre_chi, *reduction, challenges@)
                },
                Err(e) => !fits && e == if reduction.round >= 24 {
                    Error::InvalidRound(reduction.round)
                } else if !has_high_vars(*output, h) {
                    Error::InvalidClaim(ClaimFault::OutputDimensions)
                } else {
                    Error::InvalidClaim(ClaimFault::PreChiDimensions)
                },
            }
        }),
{
    let prover: ChiBitIndexedProver<F> = match chi_iota::start_round(output, pre_chi, reduction) {
        Ok(prover) => prover,
        Err(e) => {
            return Err(e);
        },
    };
    let run: RoundRun<F> = run_chi_iota(prover, reduction.output_claim.mixed_eval, challenges);
    proof {
        assert(run.evals@.len() == 25);
        assert(challenges@.reverse().len() == challenges@.len());
    }
    match chi_iota::prove_round(output, reduction, challenges, run.evals.as_slice()) {
        Ok(out) => Ok((run, out)),
        Err(e) => {
            assert(false);
            Err(e)
        },
    }
}

/// Whether a run and an output are those of a fused round on instances of its input.
pub open spec fn is_fused_run<F: BinaryField>(
    run: RoundRun<F>,
    out: FusedRoundOutput<F>,
    instances: Seq<Seq<Seq<F>>>,
    reduction: FusedRoundReduction<F>,
    challenges: Seq<F>,
) -> bool {
    let claim = reduction.output_claim;
    let bw = bit_weights_at(claim.bit_challenge);
    let g = round_function(claim.lane_weights@, reduction.round as int, bw);
    let g_inf = round_function_infinity(claim.lane_weights@, bw);
    &&& coefficients(run.rounds@) == quadratic_messages(
        instances,
        claim.high_point@,
        g,
        g_inf,
        claim.mixed_eval,
        challenges,
    )
    &&& run.eval == quadratic_final_claim(
        instances,
        claim.high_point@,
        g,
        g_inf,
        claim.mixed_eval,
        challenges,
    )
    &&& is_fused_output(out, instances, reduction, challenges)
}

/// Ends a fused round whose prover has been started.
fn finish_fused_round<F: BinaryField>(
    prover: FusedRoundProver<F>,
    reduction: &FusedRoundReduction<F>,
    challenges: &[F],
    Ghost(instances): Ghost<Seq<Seq<Seq<F>>>>,
) -> (r: (RoundRun<F>, FusedRoundOutput<F>))
    requires
        challenges@.len() == reduction.output_claim.high_point@.len(),
        starts_from(prover, instances, *reduction),
    ensures
        is_fused_run(r.0, r.1, instances, *reduction, challenges@),
{
    let run: RoundRun<F> = run_fused(prover, reduction.output_claim.mixed_eval, challenges);
    assert(run.evals@.len() == 25);
    match fused_round::prove_round(challenges, run.evals.as_slice()) {
        Ok(out) => (run, out),
        Err(_) => {
            assert(false);
            let input_evals: [F; 25] = [F::zero();25];
            (run, FusedRoundOutput { reduced_high_point: Vec::new(), input_evals })
        },
    }
}

/// Proves one fused round reduction for given challenges.
pub fn prove_fused_round<F: BinaryField>(
    input: &LaneTables<F>,
    reduction: &FusedRoundReduction<F>,
    challenges: &[F],
) -> (r: Result<(RoundRun<F>, FusedRoundOutput<F>), Error>)
    requires
        challenges@.len() == reduction.output_claim.high_point@.len(),
    ensures
        ({
            let h = reduction.output_claim.high_point@.len();
            let fits = reduction.round < 24 && has_high_vars(*input, h);
            match r {
                Ok((run, out)) => fits && is_fused_run(
                    run,
                    out,
                    table_instances(*input, pow2(h)),
                    *reduction,
                    challenges@,
                ),
                Err(e) => !fits && e == if reduction.round >= 24 {
                    Error::InvalidRound(reduction.round)
                } else {
                    Error::InvalidClaim(ClaimFault::InputDimensions)
                },
            }
        }),
{
    let prover: FusedRoundProver<F> = match fused_round::start_round(input, reduction) {
        Ok(prover) => prover,
        Err(e) => {
            return Err(e);
        },
    };
    let ghost instances = table_instances(*input, pow2(reduction.output_claim.high_point@.len()));
    Ok(finish_fused_round(prover, reduction, challenges, Ghost(instances)))
}

/// Proves one fused round reduction from word-level input data, for given challenges.
pub fn prove_round_from_words<F: BinaryField>(
    input_words: &[State],
    reduction: &FusedRoundReduction<F>,
    challenges: &[F],
) -> (r: Result<(RoundRun<F>, FusedRoundOutput<F>), Error>)
    requires
        challenges@.len() == reduction.output_claim.high_point@.len(),
    ensures
        ({
            let h = reduction.output_claim.high_point@.len();
            let fits = reduction.round < 24 && input_words@.len() == pow2(h);
            match r {
                Ok((run, out)) => fits && is_fused_run(
                    run,
                    out,
                    batch_scalars::<F>(batch(input_words@)),
                    *reduction,
                    challenges@,
                ),
                Err(e) => !fits && e == if reduction.round >= 24 {
                    Error::InvalidRound(reduction.round)
                } else {
                    Error::InvalidClaim(ClaimFault::WordCount)
                },
            }
        }),
{
    let prover: FusedRoundProver<F> = match fused_round::start_round_from_words(
        input_words,
        reduction,
    ) {
        Ok(prover) => prover,
        Err(e) => {
            return Err(e);
        },
    };
    let ghost instances = batch_scalars::<F>(batch(input_words@));
    Ok(finish_fused_round(prover, reduction, challenges, Ghost(instances)))
}

/// The first round polynomial of the suffix prover, which is computed from the input states.
pub open spec fn suffix_first_message<F: BinaryField>(
    inputs: Seq<Seq<u64>>,
    round: int,
    point: Seq<F>,
    lane_weights: Seq<F>,
    bit_weights: Seq<F>,
    claim: F,
) -> Seq<F> {
    let instances = batch_scalars::<F>(inputs);
    quadratic_coeffs(
        claim,
        point.last(),
        quadratic_y_1(instances, point, round_function(lane_weights, round, bit_weights)),
        quadratic_y_inf(instances, point, round_function_infinity(lane_weights, bit_weights)),
    )
}

/// The round polynomials of the suffix prover.
pub open spec fn suffix_messages<F: BinaryField>(
    inputs: Seq<Seq<u64>>,
    round: int,
    point: Seq<F>,
    lane_weights: Seq<F>,
    bit_weights: Seq<F>,
    claim: F,
    challenges: Seq<F>,
) -> Seq<Seq<F>> {
    if challenges.len() == 0 {
        Seq::empty()
    } else {
        let first = suffix_first_message(inputs, round, point, lane_weights, bit_weights, claim);
        seq![first] + quadratic_messages(
            folded_instances(batch_pre_chi_scalars::<F>(inputs), challenges[0]),
            point.drop_last(),
            chi_function(lane_weights, round, bit_weights),
            chi_function_infinity(lane_weights, bit_weights),
            polynomial_at(first, challenges[0]),
            challenges.skip(1),
        )
    }
}

/// The claim that the rounds of the suffix prover end with.
pub open spec fn suffix_final_claim<F: BinaryField>(
    inputs: Seq<Seq<u64>>,
    round: int,
    point: Seq<F>,
    lane_weights: Seq<F>,
    bit_weights: Seq<F>,
    claim: F,
    challenges: Seq<F>,
) -> F {
    if challenges.len() == 0 {
        claim
    } else {
        let first = suffix_first_message(inputs, round, point, lane_weights, bit_weights, claim);
        quadratic_final_claim(
            folded_instances(batch_pre_chi_scalars::<F>(inputs), challenges[0]),
            point.drop_last(),
            chi_function(lane_weights, round, bit_weights),
            chi_function_infinity(lane_weights, bit_weights),
            polynomial_at(first, challenges[0]),
            challenges.skip(1),
        )
    }
}

/// What a run of a round whose first message is over the bit index gives.
#[derive(Debug, PartialEq, Eq)]
pub struct OblongRun<F> {
    /// The first message.
    pub message: [F; 64],
    /// The rounds over the instances.
    pub suffix: RoundRun<F>,
    /// The output of the reduction.
    pub output: FusedRoundOutput<F>,
}

/// Whether a run is that of the prover on the states of a round.
pub open spec fn is_oblong_run<F: BinaryField>(
    run: OblongRun<F>,
    inputs: Seq<Seq<u64>>,
    outputs: Seq<Seq<u64>>,
    round: int,
    point: Seq<F>,
    lane_weights: Seq<F>,
    bit_challenge: F,
    challenges: Seq<F>,
) -> bool {
    let bw = bit_weights_at(bit_challenge);
    let claim = mixed_lanes(
        combined(eq_table(point), batch_scalars::<F>(outputs)),
        lane_weights,
        bw,
    );
    let e = eq_table(challenges.reverse());
    &&& is_oblong_message(run.message@, inputs, outputs, round, point, lane_weights)
    &&& coefficients(run.suffix.rounds@) == suffix_messages(
        inputs,
        round,
        point,
        lane_weights,
        bw,
        claim,
        challenges,
    )
    &&& run.suffix.eval == suffix_final_claim(
        inputs,
        round,
        point,
        lane_weights,
        bw,
        claim,
        challenges,
    )
    &&& run.suffix.evals@ == flat_state(combined(e, batch_pre_chi_scalars::<F>(inputs)))
    &&& run.output.reduced_high_point@ == challenges.reverse()
    &&& run.output.input_evals@ == lane_values(combined(e, batch_scalars::<F>(inputs)), bw)
}

/// Proves one round whose first message is over the bit index, for a given challenge for the bit
/// index and given challenges for the instances.
pub fn prove_oblong_round<F: BinaryField>(
    input_words: &[State],
    output_words: &[State],
    round: usize,
    boundary_claim: &OblongRoundBoundaryClaim<F>,
    bit_challenge: F,
    challenges: &[F],
) -> (r: Result<OblongRun<F>, Error>)
    requires
        challenges@.len() == boundary_claim.high_point@.len(),
    ensures
        ({
            let n = pow2(boundary_claim.high_point@.len());
            if round >= 24 {
                r == Err::<OblongRun<F>, Error>(Error::InvalidRound(round))
            } else if input_words@.len() != n || output_words@.len() != n {
                r == Err::<OblongRun<F>, Error>(Error::InvalidClaim(ClaimFault::WordCount))
            } else {
                r matches Ok(run) && is_oblong_run(
                    run,
                    batch(input_words@),
                    batch(output_words@),
                    round as int,
                    boundary_claim.high_point@,
                    boundary_claim.lane_weights@,
                    bit_challenge,
                    challenges@,
                )
            }
        }),
{
    let message: [F; 64] = match mixed_fused_round_oblong_message_from_words(
        input_words,
        output_words,
        round,
        boundary_claim.high_point.as_slice(),
        &boundary_claim.lane_weights,
    ) {
        Ok(message) => message,
        Err(e) => {
            return Err(e);
        },
    };
    let first_round = prove_fused_round_first_message(output_words, boundary_claim, bit_challenge);
    let claim: F = first_round.output_claim.mixed_eval;
    match start_oblong_suffix(input_words, &first_round, round) {
        Ok(prover) => {
            let suffix: RoundRun<F> = run_oblong(prover, claim, challenges);
            proof {
                assert(challenges@.len() == 0 ==> coefficients(suffix.rounds@) =~= Seq::empty());
            }
            let output = prove_fused_round_with_oblong_message(
                input_words,
                bit_challenge,
                challenges,
            );
            Ok(OblongRun { message, suffix, output })
        },
        Err(e) => {
            assert(false);
            Err(Error::SumcheckProver(e))
        },
    }
}

} // verus!
