//! The reduction of a claim on the round output to a claim on the round input, through
//! `chi+iota` and `theta+rho+pi` at once.

use vstd::arithmetic::power2::{lemma2_to64, lemma_pow2_unfold, pow2};
use vstd::prelude::*;

use super::blocks::{
    add_blocks, all_lanes_of, apply_linear_recipe_to_blocks, apply_linear_recipe_to_low_vectors,
    batch_scalars, combined, compose_chi_iota_from_low_vectors,
    compose_chi_iota_infinity_from_low_vectors, evaluate_lane_low_vectors,
    evaluate_lane_low_vectors_from_words, fold_block_tables_inplace, fold_low_vectors,
    folded_instances, lane_block_tables, lane_values, lanes_of, table_instances,
    words_to_block_tables, Block,
};
use super::chi_iota::{array_of_25, check_high_vars};
use super::claims::{copy_vector, BitIndexedMixedClaim, ClaimFault, Error};
use super::laws::{
    half_sums, quadratic_y_1, quadratic_y_inf, round_function, round_function_infinity, upper_half,
    values_on,
};
use super::linear_round::{has_high_vars, reversed};
use super::recipe::{linear_recipe_static, LinearRecipeStatic};
use super::rotation::{bit_lagrange_weights, bit_weights_at};
use super::trace::{batch, LaneTables, State};
use crate::field::{BinaryField, Field};
use crate::mlecheck::{
    interpolate_round_coeffs, polynomial_at, quadratic_coeffs, EvalPoint, RoundCoeffs,
    RoundCoeffsOrEval, SumcheckError,
};
use crate::multilinear::{eq_table, lemma_sum_take, pointwise_times, sum};
use crate::powers::is_power;

verus! {

/// Input to the fused `chi+iota+theta+rho+pi` round reduction.
#[derive(Debug, Clone, PartialEq, Eq)]
pub struct FusedRoundReduction<F> {
    /// Bit-indexed mixed claim on the round output lanes.
    pub output_claim: BitIndexedMixedClaim<F>,
    /// Keccak round index.
    pub round: usize,
}

/// Output of the fused round reduction.
#[derive(Debug, Clone, PartialEq, Eq)]
pub struct FusedRoundOutput<F> {
    /// Reduced point for the remaining high instance variables.
    pub reduced_high_point: Vec<F>,
    /// Evaluations of the 25 folded input lanes at `reduced_high_point`.
    pub input_evals: [F; 25],
}

/// Checks that the round, the number of states and the high point of a reduction fit together.
pub fn validate_reduction_from_words<F: BinaryField>(
    input_words: &[State],
    reduction: &FusedRoundReduction<F>,
) -> (r: Result<(), Error>)
    ensures
        r == if reduction.round >= 24 {
            Err::<(), Error>(Error::InvalidRound(reduction.round))
        } else if input_words@.len() != pow2(reduction.output_claim.high_point@.len()) {
            Err(Error::InvalidClaim(ClaimFault::WordCount))
        } else {
            Ok(())
        },
{
    if reduction.round >= 24 {
        return Err(Error::InvalidRound(reduction.round));
    }
    if !is_power(input_words.len(), reduction.output_claim.high_point.len()) {
        return Err(Error::InvalidClaim(ClaimFault::WordCount));
    }
    Ok(())
}

/// Checks that the round, the input tables and the high point of a reduction fit together.
pub fn validate_reduction<F: BinaryField>(
    input: &LaneTables<F>,
    reduction: &FusedRoundReduction<F>,
) -> (r: Result<(), Error>)
    ensures
        r == if reduction.round >= 24 {
            Err::<(), Error>(Error::InvalidRound(reduction.round))
        } else if !has_high_vars(*input, reduction.output_claim.high_point@.len()) {
            Err(Error::InvalidClaim(ClaimFault::InputDimensions))
        } else {
            Ok(())
        },
{
    if reduction.round >= 24 {
        return Err(Error::InvalidRound(reduction.round));
    }
    if !check_high_vars(input, reduction.output_claim.high_point.len()) {
        return Err(Error::InvalidClaim(ClaimFault::InputDimensions));
    }
    Ok(())
}

/// Returns the value at one and the leading coefficient of the round polynomial of input blocks.
pub fn fused_round_values<F: Field>(
    recipe: &LinearRecipeStatic,
    blocks: &[Block<F>],
    point: &EvalPoint<F>,
    lane_weights: &[F; 25],
    round: usize,
    bit_weights: &[F; 64],
) -> (r: (F, F))
    requires
        recipe.is_valid(),
        round < 24,
        point.coordinates@.len() > 0,
        blocks@.len() == pow2(point.coordinates@.len()),
    ensures
        r.0 == quadratic_y_1(
            all_lanes_of(blocks@),
            point.coordinates@,
            round_function(lane_weights@, round as int, bit_weights@),
        ),
        r.1 == quadratic_y_inf(
            all_lanes_of(blocks@),
            point.coordinates@,
            round_function_infinity(lane_weights@, bit_weights@),
        ),
{
    let ghost instances = all_lanes_of(blocks@);
    let ghost g = round_function(lane_weights@, round as int, bit_weights@);
    let ghost g_inf = round_function_infinity(lane_weights@, bit_weights@);
    let ghost v_1 = values_on(upper_half(instances), g);
    let ghost v_inf = values_on(half_sums(instances), g_inf);
    let split: usize = blocks.len() / 2;
    let eq_expansion = point.eq_expansion();
    proof {
        lemma_pow2_unfold(point.coordinates@.len());
    }
    let ghost terms_1 = pointwise_times(eq_expansion@, v_1);
    let ghost terms_inf = pointwise_times(eq_expansion@, v_inf);
    let mut y_1: F = F::zero();
    let mut y_inf: F = F::zero();
    let mut i: usize = 0;
    while i < split
        invariant
            i <= split,
            recipe.is_valid(),
            round < 24,
            blocks@.len() == 2 * split,
            blocks@.len() <= usize::MAX,
            eq_expansion@.len() == split,
            instances == all_lanes_of(blocks@),
            g == round_function(lane_weights@, round as int, bit_weights@),
            g_inf == round_function_infinity(lane_weights@, bit_weights@),
            v_1 == values_on(upper_half(instances), g),
            v_inf == values_on(half_sums(instances), g_inf),
            terms_1 == pointwise_times(eq_expansion@, v_1),
            terms_inf == pointwise_times(eq_expansion@, v_inf),
            y_1 == sum(terms_1.take(i as int)),
            y_inf == sum(terms_inf.take(i as int)),
        decreases split - i,
    {
        proof {
            lemma_sum_take(terms_1, i as int);
            lemma_sum_take(terms_inf, i as int);
        }
        let pre_chi_1 = apply_linear_recipe_to_blocks(recipe, &blocks[split + i]);
        let input_inf = add_blocks(&blocks[i], &blocks[split + i]);
        let pre_chi_inf = apply_linear_recipe_to_blocks(recipe, &input_inf);
        let contrib_1: F = compose_chi_iota_from_low_vectors(
            &pre_chi_1,
            lane_weights,
            round,
            bit_weights,
        );
        let contrib_inf: F = compose_chi_iota_infinity_from_low_vectors(
            &pre_chi_inf,
            lane_weights,
            bit_weights,
        );
        y_1 = y_1.add(eq_expansion[i].mul(contrib_1));
        y_inf = y_inf.add(eq_expansion[i].mul(contrib_inf));
        i = i + 1;
    }
    assert(terms_1.take(split as int) =~= terms_1);
    assert(terms_inf.take(split as int) =~= terms_inf);
    (y_1, y_inf)
}

/// The prover of the fused reduction: one block of values for each instance, the recipe of the
/// linear steps, the weights, the point, and either the claimed value or a pending round
/// polynomial.
pub struct FusedRoundProver<F> {
    pub input_blocks: Vec<Block<F>>,
    pub bit_weights: [F; 64],
    pub lane_weights: [F; 25],
    pub last_coeffs_or_eval: RoundCoeffsOrEval<F>,
    pub round: usize,
    pub point: EvalPoint<F>,
    pub recipe: LinearRecipeStatic,
}

impl<F: Field> FusedRoundProver<F> {
    /// Whether there is a block for each vertex of the open variables, and a pending round
    /// polynomial belongs to a variable.
    pub open spec fn is_valid(&self) -> bool {
        &&& self.round < 24
        &&& self.recipe.is_valid()
        &&& self.input_blocks@.len() == pow2(self.point.coordinates@.len())
        &&& self.last_coeffs_or_eval is Coeffs ==> self.point.coordinates@.len() > 0
    }

    /// The values of the instances.
    pub open spec fn instances(&self) -> Seq<Seq<Seq<F>>> {
        all_lanes_of(self.input_blocks@)
    }

    /// The function of a state that the claim is about.
    pub open spec fn function(&self) -> spec_fn(Seq<Seq<F>>) -> F {
        round_function(self.lane_weights@, self.round as int, self.bit_weights@)
    }

    /// The quadratic part of that function.
    pub open spec fn function_infinity(&self) -> spec_fn(Seq<Seq<F>>) -> F {
        round_function_infinity(self.lane_weights@, self.bit_weights@)
    }

    /// The coefficients of the next round polynomial for a claim.
    pub open spec fn round_coeffs(&self, claim: F) -> Seq<F> {
        let point = self.point.coordinates@;
        quadratic_coeffs(
            claim,
            point.last(),
            quadratic_y_1(self.instances(), point, self.function()),
            quadratic_y_inf(self.instances(), point, self.function_infinity()),
        )
    }

    /// Whether all but the blocks, the point and the claim is the same.
    pub open spec fn same_weights(&self, other: &Self) -> bool {
        &&& self.bit_weights == other.bit_weights
        &&& self.lane_weights == other.lane_weights
        &&& self.round == other.round
        &&& self.recipe == other.recipe
    }

    /// Starts the reduction of a claimed value.
    pub fn new(
        input_blocks: Vec<Block<F>>,
        bit_weights: [F; 64],
        lane_weights: [F; 25],
        round: usize,
        eval_point: Vec<F>,
        mixed_eval: F,
    ) -> (r: Result<Self, SumcheckError>)
        requires
            round < 24,
        ensures
            input_blocks@.len() != pow2(eval_point@.len()) ==> r == Err::<Self, SumcheckError>(
                SumcheckError::MultilinearSizeMismatch,
            ),
            input_blocks@.len() == pow2(eval_point@.len()) ==> (r matches Ok(prover)
                && prover.is_valid() && prover.input_blocks == input_blocks
                && prover.bit_weights == bit_weights && prover.lane_weights == lane_weights
                && prover.round == round && prover.point.coordinates == eval_point
                && prover.last_coeffs_or_eval == RoundCoeffsOrEval::Eval(mixed_eval)),
    {
        if !is_power(input_blocks.len(), eval_point.len()) {
            return Err(SumcheckError::MultilinearSizeMismatch);
        }
        Ok(
            FusedRoundProver {
                input_blocks,
                bit_weights,
                lane_weights,
                last_coeffs_or_eval: RoundCoeffsOrEval::Eval(mixed_eval),
                round,
                point: EvalPoint { coordinates: eval_point },
                recipe: linear_recipe_static(),
            },
        )
    }

    /// Returns the number of variables that are still open.
    pub fn n_vars(&self) -> (r: usize)
        ensures
            r == self.point.coordinates@.len(),
    {
        self.point.n_vars_remaining()
    }

    /// Returns the number of claims that the reduction is about.
    pub fn n_claims(&self) -> (r: usize)
        ensures
            r == 1,
    {
        1
    }

    /// Returns the coordinates that are still open.
    pub fn eval_point(&self) -> (r: &[F])
        ensures
            r@ == self.point.coordinates@,
    {
        self.point.coordinates.as_slice()
    }

    /// Computes the next round polynomial.
    pub fn execute(&mut self) -> (r: Result<Vec<RoundCoeffs<F>>, SumcheckError>)
        requires
            old(self).is_valid(),
            old(self).last_coeffs_or_eval is Eval ==> old(self).point.coordinates@.len() > 0,
        ensures
            final(self).is_valid(),
            final(self).input_blocks == old(self).input_blocks,
            final(self).point == old(self).point,
            final(self).same_weights(old(self)),
            match old(self).last_coeffs_or_eval {
                RoundCoeffsOrEval::Coeffs(_) => r == Err::<Vec<RoundCoeffs<F>>, SumcheckError>(
                    SumcheckError::ExpectedFold,
                ) && final(self).last_coeffs_or_eval == old(self).last_coeffs_or_eval,
                RoundCoeffsOrEval::Eval(claim) => {
                    &&& r matches Ok(rounds) && rounds@.len() == 1 && rounds@[0].coeffs@ == old(
                        self,
                    ).round_coeffs(claim)
                    &&& final(self).last_coeffs_or_eval matches RoundCoeffsOrEval::Coeffs(pending)
                        && pending.coeffs@ == old(self).round_coeffs(claim)
                },
            },
    {
        let last_eval: F = match &self.last_coeffs_or_eval {
            RoundCoeffsOrEval::Eval(eval) => *eval,
            RoundCoeffsOrEval::Coeffs(_) => {
                return Err(SumcheckError::ExpectedFold);
            },
        };
        let (y_1, y_inf) = fused_round_values(
            &self.recipe,
            self.input_blocks.as_slice(),
            &self.point,
            &self.lane_weights,
            self.round,
            &self.bit_weights,
        );
        let alpha: F = self.point.next_coordinate();
        let round_coeffs = interpolate_round_coeffs(last_eval, alpha, y_1, y_inf);
        self.last_coeffs_or_eval = RoundCoeffsOrEval::Coeffs(round_coeffs.copied());
        let mut out: Vec<RoundCoeffs<F>> = Vec::with_capacity(1);
        out.push(round_coeffs);
        Ok(out)
    }

    /// Fixes the highest open variable to the challenge.
    pub fn fold(&mut self, challenge: F) -> (r: Result<(), SumcheckError>)
        requires
            old(self).is_valid(),
        ensures
            final(self).is_valid(),
            final(self).same_weights(old(self)),
            match old(self).last_coeffs_or_eval {
                RoundCoeffsOrEval::Eval(_) => r == Err::<(), SumcheckError>(
                    SumcheckError::ExpectedExecute,
                ) && *final(self) == *old(self),
                RoundCoeffsOrEval::Coeffs(coeffs) => {
                    &&& r == Ok::<(), SumcheckError>(())
                    &&& final(self).instances() == folded_instances(
                        old(self).instances(),
                        challenge,
                    )
                    &&& final(self).point.coordinates@ == old(self).point.coordinates@.drop_last()
                    &&& final(self).last_coeffs_or_eval == RoundCoeffsOrEval::Eval(
                        polynomial_at(coeffs.coeffs@, challenge),
                    )
                },
            },
    {
        let eval: F = match &self.last_coeffs_or_eval {
            RoundCoeffsOrEval::Coeffs(coeffs) => coeffs.evaluate(challenge),
            RoundCoeffsOrEval::Eval(_) => {
                return Err(SumcheckError::ExpectedExecute);
            },
        };
        proof {
            lemma_pow2_unfold(self.point.coordinates@.len());
        }
        fold_block_tables_inplace(&mut self.input_blocks, challenge);
        assert(self.instances().len() == self.input_blocks@.len());
        self.point.fold();
        self.last_coeffs_or_eval = RoundCoeffsOrEval::Eval(eval);
        Ok(())
    }

    /// Returns the bit-weighted lane values once all variables are fixed.
    pub fn finish(self) -> (r: Result<Vec<F>, SumcheckError>)
        requires
            self.is_valid(),
        ensures
            self.point.coordinates@.len() > 0 ==> r == Err::<Vec<F>, SumcheckError>(
                match self.last_coeffs_or_eval {
                    RoundCoeffsOrEval::Coeffs(_) => SumcheckError::ExpectedFold,
                    RoundCoeffsOrEval::Eval(_) => SumcheckError::ExpectedExecute,
                },
            ),
            self.point.coordinates@.len() == 0 ==> (r matches Ok(evals) && evals@ == lane_values(
                self.instances()[0],
                self.bit_weights@,
            )),
    {
        if self.n_vars() > 0 {
            return Err(
                match self.last_coeffs_or_eval {
                    RoundCoeffsOrEval::Coeffs(_) => SumcheckError::ExpectedFold,
                    RoundCoeffsOrEval::Eval(_) => SumcheckError::ExpectedExecute,
                },
            );
        }
        proof {
            lemma2_to64();
        }
        let evals = fold_low_vectors(&self.input_blocks[0], &self.bit_weights);
        Ok(copy_vector(evals.as_slice()))
    }
}

/// Whether `prover` starts from the given instances and the claim of a reduction.
pub open spec fn starts_from<F: BinaryField>(
    prover: FusedRoundProver<F>,
    instances: Seq<Seq<Seq<F>>>,
    reduction: FusedRoundReduction<F>,
) -> bool {
    &&& prover.is_valid()
    &&& prover.instances() == instances
    &&& prover.bit_weights@ == bit_weights_at(reduction.output_claim.bit_challenge)
    &&& prover.lane_weights == reduction.output_claim.lane_weights
    &&& prover.round == reduction.round
    &&& prover.point.coordinates@ == reduction.output_claim.high_point@
    &&& prover.last_coeffs_or_eval == RoundCoeffsOrEval::Eval(reduction.output_claim.mixed_eval)
}

fn start_from_blocks<F: BinaryField>(
    blocks: Vec<Block<F>>,
    reduction: &FusedRoundReduction<F>,
) -> (r: Result<FusedRoundProver<F>, Error>)
    requires
        reduction.round < 24,
        blocks@.len() == pow2(reduction.output_claim.high_point@.len()),
    ensures
        r matches Ok(prover) && starts_from(prover, all_lanes_of(blocks@), *reduction),
{
    let bit_weights = bit_lagrange_weights(reduction.output_claim.bit_challenge);
    match FusedRoundProver::new(
        blocks,
        bit_weights,
        reduction.output_claim.lane_weights,
        reduction.round,
        copy_vector(reduction.output_claim.high_point.as_slice()),
        reduction.output_claim.mixed_eval,
    ) {
        Ok(prover) => Ok(prover),
        Err(error) => Err(Error::SumcheckProver(error)),
    }
}

/// Starts the prover side of one fused `chi+iota+theta+rho+pi` round reduction.
pub fn start_round<F: BinaryField>(
    input: &LaneTables<F>,
    reduction: &FusedRoundReduction<F>,
) -> (r: Result<FusedRoundProver<F>, Error>)
    ensures
        reduction.round >= 24 ==> r == Err::<FusedRoundProver<F>, Error>(
            Error::InvalidRound(reduction.round),
        ),
        reduction.round < 24 && !has_high_vars(*input, reduction.output_claim.high_point@.len())
            ==> r == Err::<FusedRoundProver<F>, Error>(
            Error::InvalidClaim(ClaimFault::InputDimensions),
        ),
        reduction.round < 24 && has_high_vars(*input, reduction.output_claim.high_point@.len())
            ==> (r matches Ok(prover) && starts_from(
            prover,
            table_instances(*input, pow2(reduction.output_claim.high_point@.len())),
            *reduction,
        )),
{
    match validate_reduction(input, reduction) {
        Ok(()) => {},
        Err(error) => {
            return Err(error);
        },
    }
    assert(input[0]@.len() == 64 * pow2(reduction.output_claim.high_point@.len()));
    let blocks = lane_block_tables(input);
    assert(blocks@.len() == all_lanes_of(blocks@).len());
    start_from_blocks(blocks, reduction)
}

/// Starts the prover side of one fused round reduction from word-level input data.
///
/// Converts the `u64` words to block tables on the fly, avoiding the need
/// for pre-expanded `LaneTables`.
pub fn start_round_from_words<F: BinaryField>(
    input_words: &[State],
    reduction: &FusedRoundReduction<F>,
) -> (r: Result<FusedRoundProver<F>, Error>)
    ensures
        reduction.round >= 24 ==> r == Err::<FusedRoundProver<F>, Error>(
            Error::InvalidRound(reduction.round),
        ),
        reduction.round < 24 && input_words@.len() != pow2(
            reduction.output_claim.high_point@.len(),
        ) ==> r == Err::<FusedRoundProver<F>, Error>(Error::InvalidClaim(ClaimFault::WordCount)),
        reduction.round < 24 && input_words@.len() == pow2(
            reduction.output_claim.high_point@.len(),
        ) ==> (r matches Ok(prover) && starts_from(
            prover,
            batch_scalars::<F>(batch(input_words@)),
            *reduction,
        )),
{
    match validate_reduction_from_words(input_words, reduction) {
        Ok(()) => {},
        Err(error) => {
            return Err(error);
        },
    }
    let blocks = words_to_block_tables(input_words);
    assert(blocks@.len() == all_lanes_of(blocks@).len());
    start_from_blocks(blocks, reduction)
}

/// Ends the prover side of one fused round reduction, from the challenges of its rounds and the
/// evaluations that its prover ended with.
pub fn prove_round<F: BinaryField>(challenges: &[F], multilinear_evals: &[F]) -> (r: Result<
    FusedRoundOutput<F>,
    Error,
>)
    ensures
        multilinear_evals@.len() != 25 ==> r == Err::<FusedRoundOutput<F>, Error>(
            Error::InvalidClaim(ClaimFault::EvaluationCount),
        ),
        multilinear_evals@.len() == 25 ==> (r matches Ok(out) && out.reduced_high_point@
            == challenges@.reverse() && out.input_evals@ == multilinear_evals@),
{
    if multilinear_evals.len() != 25 {
        return Err(Error::InvalidClaim(ClaimFault::EvaluationCount));
    }
    Ok(
        FusedRoundOutput {
            reduced_high_point: reversed(challenges),
            input_evals: array_of_25(multilinear_evals),
        },
    )
}

/// The weighted value after a whole round that the verifier computes at the challenges.
pub open spec fn fused_value_at<F: BinaryField>(
    instances: Seq<Seq<Seq<F>>>,
    reduction: FusedRoundReduction<F>,
    challenges: Seq<F>,
) -> F {
    round_function(
        reduction.output_claim.lane_weights@,
        reduction.round as int,
        bit_weights_at(reduction.output_claim.bit_challenge),
    )(combined(eq_table(challenges.reverse()), instances))
}

/// Whether `out` is what the instances give at the challenges of a reduction.
pub open spec fn is_fused_output<F: BinaryField>(
    out: FusedRoundOutput<F>,
    instances: Seq<Seq<Seq<F>>>,
    reduction: FusedRoundReduction<F>,
    challenges: Seq<F>,
) -> bool {
    &&& out.reduced_high_point@ == challenges.reverse()
    &&& out.input_evals@ == lane_values(
        combined(eq_table(challenges.reverse()), instances),
        bit_weights_at(reduction.output_claim.bit_challenge),
    )
}

fn verify_low_vectors<F: BinaryField>(
    input_low_vectors: &Block<F>,
    reduction: &FusedRoundReduction<F>,
    challenges: &[F],
    eval: F,
    Ghost(instances): Ghost<Seq<Seq<Seq<F>>>>,
) -> (r: Result<FusedRoundOutput<F>, Error>)
    requires
        reduction.round < 24,
        lanes_of(*input_low_vectors) == combined(eq_table(challenges@.reverse()), instances),
    ensures
        fused_value_at(instances, *reduction, challenges@) != eval ==> r == Err::<
            FusedRoundOutput<F>,
            Error,
        >(Error::InvalidAssert),
        fused_value_at(instances, *reduction, challenges@) == eval ==> (r matches Ok(out)
            && is_fused_output(out, instances, *reduction, challenges@)),
{
    let bit_weights = bit_lagrange_weights(reduction.output_claim.bit_challenge);
    let input_evals = fold_low_vectors(input_low_vectors, &bit_weights);
    let recipe = linear_recipe_static();
    let pre_chi_low_vectors = apply_linear_recipe_to_low_vectors(&recipe, input_low_vectors);
    let fused_eval: F = compose_chi_iota_from_low_vectors(
        &pre_chi_low_vectors,
        &reduction.output_claim.lane_weights,
        reduction.round,
        &bit_weights,
    );
    if !fused_eval.is_equal(eval) {
        return Err(Error::InvalidAssert);
    }
    Ok(FusedRoundOutput { reduced_high_point: reversed(challenges), input_evals })
}

/// Verify one fused `chi+iota+theta+rho+pi` round reduction, from the challenges of its rounds and
/// the claim that they ended with.
pub fn verify_round<F: BinaryField>(
    input: &LaneTables<F>,
    reduction: &FusedRoundReduction<F>,
    challenges: &[F],
    eval: F,
) -> (r: Result<FusedRoundOutput<F>, Error>)
    requires
        challenges@.len() == reduction.output_claim.high_point@.len(),
    ensures
        ({
            let h = reduction.output_claim.high_point@.len();
            let instances = table_instances(*input, pow2(h));
            if reduction.round >= 24 {
                r == Err::<FusedRoundOutput<F>, Error>(Error::InvalidRound(reduction.round))
            } else if !has_high_vars(*input, h) {
                r == Err::<FusedRoundOutput<F>, Error>(
                    Error::InvalidClaim(ClaimFault::InputDimensions),
                )
            } else if fused_value_at(instances, *reduction, challenges@) != eval {
                r == Err::<FusedRoundOutput<F>, Error>(Error::InvalidAssert)
            } else {
                r matches Ok(out) && is_fused_output(out, instances, *reduction, challenges@)
            }
        }),
{
    match validate_reduction(input, reduction) {
        Ok(()) => {},
        Err(error) => {
            return Err(error);
        },
    }
    let reduced_high_point = reversed(challenges);
    let input_low_vectors = evaluate_lane_low_vectors(input, reduced_high_point.as_slice());
    verify_low_vectors(
        &input_low_vectors,
        reduction,
        challenges,
        eval,
        Ghost(table_instances(*input, pow2(challenges@.len()))),
    )
}

/// Verify one fused round from word-level input data.
///
/// Computes multilinear evaluations directly from `u64` words without
/// expanding to `LaneTables`.
pub fn verify_round_from_words<F: BinaryField>(
    input_words: &[State],
    reduction: &FusedRoundReduction<F>,
    challenges: &[F],
    eval: F,
) -> (r: Result<FusedRoundOutput<F>, Error>)
    requires
        challenges@.len() == reduction.output_claim.high_point@.len(),
    ensures
        ({
            let instances = batch_scalars::<F>(batch(input_words@));
            if reduction.round >= 24 {
                r == Err::<FusedRoundOutput<F>, Error>(Error::InvalidRound(reduction.round))
            } else if input_words@.len() != pow2(reduction.output_claim.high_point@.len()) {
                r == Err::<FusedRoundOutput<F>, Error>(
                    Error::InvalidClaim(ClaimFault::WordCount),
                )
            } else if fused_value_at(instances, *reduction, challenges@) != eval {
                r == Err::<FusedRoundOutput<F>, Error>(Error::InvalidAssert)
            } else {
                r matches Ok(out) && is_fused_output(out, instances, *reduction, challenges@)
            }
        }),
{
    match validate_reduction_from_words(input_words, reduction) {
        Ok(()) => {},
        Err(error) => {
            return Err(error);
        },
    }
    let reduced_high_point = reversed(challenges);
    let input_low_vectors = evaluate_lane_low_vectors_from_words(
        input_words,
        reduced_high_point.as_slice(),
    );
    verify_low_vectors(
        &input_low_vectors,
        reduction,
        challenges,
        eval,
        Ghost(batch_scalars::<F>(batch(input_words@))),
    )
}

} // verus!
