//! The reduction of a claim on the round output to a claim before chi, through `chi+iota`.

use vstd::arithmetic::power2::{lemma2_to64, lemma_pow2_unfold, pow2};
use vstd::prelude::*;

use super::blocks::{
    add_blocks, all_lanes_of, combined, compose_chi_iota_from_low_vectors,
    compose_chi_iota_infinity_from_low_vectors, composed, composed_infinity,
    evaluate_lane_low_vectors, fold_block_tables_inplace, fold_low_vectors, folded_instances,
    lane_block_tables, lane_values, lanes_of, lanes_plus, mixed_lanes,
    mixed_output_from_low_vectors, table_instances, Block,
};
use super::claims::{
    bit_indexed_lane_claim, copy_vector, is_claim_on, BitIndexedMixedClaim, ClaimFault, Error,
};
use super::laws::{
    chi_function, chi_function_infinity, half_sums, quadratic_y_1, quadratic_y_inf, upper_half,
    values_on,
};
use super::linear_round::{has_high_vars, reversed};
use super::rotation::{bit_lagrange_weights, bit_weights_at};
use super::trace::LaneTables;
use crate::field::{BinaryField, Field};
use crate::mlecheck::{
    interpolate_round_coeffs, polynomial_at, quadratic_coeffs, EvalPoint, RoundCoeffs,
    RoundCoeffsOrEval, SumcheckError,
};
use crate::multilinear::{eq_table, lemma_sum_take, pointwise_times, sum};
use crate::powers::is_power;

verus! {

/// One-round `chi+iota` reduction input.
#[derive(Debug, Clone, PartialEq, Eq)]
pub struct ChiIotaReduction<F> {
    /// Bit-indexed mixed claim on the round output lanes.
    pub output_claim: BitIndexedMixedClaim<F>,
    /// Keccak round index.
    pub round: usize,
}

/// Output of a one-round `chi+iota` reduction.
#[derive(Debug, Clone, PartialEq, Eq)]
pub struct ChiIotaRoundOutput<F> {
    /// Reduced point for the remaining high instance variables.
    pub reduced_high_point: Vec<F>,
    /// Claimed evaluations of the 25 folded pre-chi lane multilinears at `reduced_high_point`.
    pub pre_chi_evals: [F; 25],
    /// Mixed output evaluation at `reduced_high_point` under the current output weights.
    pub reduced_eval: F,
}

/// Decides whether all lane tables have `h` high variables beside the six of the bit index.
pub fn check_high_vars<F>(tables: &LaneTables<F>, h: usize) -> (r: bool)
    ensures
        r == has_high_vars(*tables, h as nat),
{
    let mut lane: usize = 0;
    while lane < 25
        invariant
            lane <= 25,
            forall|l: int|
                0 <= l < lane ==> (#[trigger] tables[l])@.len() == 64 * pow2(h as nat),
        decreases 25 - lane,
    {
        let len: usize = tables[lane].len();
        if len % 64 != 0 || !is_power(len / 64, h) {
            assert(tables[lane as int]@.len() != 64 * pow2(h as nat));
            return false;
        }
        lane = lane + 1;
    }
    true
}

/// Checks that the round, the tables and the high point of a reduction fit together.
pub fn validate_reduction<F: BinaryField>(
    output: &LaneTables<F>,
    pre_chi: &LaneTables<F>,
    reduction: &ChiIotaReduction<F>,
) -> (r: Result<(), Error>)
    ensures
        r == if reduction.round >= 24 {
            Err::<(), Error>(Error::InvalidRound(reduction.round))
        } else if !has_high_vars(*output, reduction.output_claim.high_point@.len()) {
            Err(Error::InvalidClaim(ClaimFault::OutputDimensions))
        } else if !has_high_vars(*pre_chi, reduction.output_claim.high_point@.len()) {
            Err(Error::InvalidClaim(ClaimFault::PreChiDimensions))
        } else {
            Ok(())
        },
{
    if reduction.round >= 24 {
        return Err(Error::InvalidRound(reduction.round));
    }
    let h: usize = reduction.output_claim.high_point.len();
    if !check_high_vars(output, h) {
        return Err(Error::InvalidClaim(ClaimFault::OutputDimensions));
    }
    if !check_high_vars(pre_chi, h) {
        return Err(Error::InvalidClaim(ClaimFault::PreChiDimensions));
    }
    Ok(())
}

/// The claim on instances that the challenges and weights of another claim lead to.
pub open spec fn is_own_claim<F: BinaryField>(
    claim: BitIndexedMixedClaim<F>,
    instances: Seq<Seq<Seq<F>>>,
) -> bool {
    is_claim_on(claim, instances, claim.bit_challenge, claim.high_point@, claim.lane_weights@)
}

/// Checks that the output claim of a reduction is that of the output tables.
pub fn validate_output_claim_against_tables<F: BinaryField>(
    output: &LaneTables<F>,
    reduction: &ChiIotaReduction<F>,
) -> (r: Result<(), Error>)
    requires
        has_high_vars(*output, reduction.output_claim.high_point@.len()),
    ensures
        r == if is_own_claim(
            reduction.output_claim,
            table_instances(*output, pow2(reduction.output_claim.high_point@.len())),
        ) {
            Ok::<(), Error>(())
        } else {
            Err(Error::InvalidClaim(ClaimFault::OutputClaim))
        },
{
    let expected = bit_indexed_lane_claim(
        output,
        reduction.output_claim.bit_challenge,
        reduction.output_claim.high_point.as_slice(),
        reduction.output_claim.lane_weights,
    );
    if !reduction.output_claim.is_equal(&expected) {
        return Err(Error::InvalidClaim(ClaimFault::OutputClaim));
    }
    Ok(())
}

/// Returns the weighted value after chi and iota of the upper of two states, and the weighted
/// quadratic part of their sum.
pub fn compose_chi_iota_pair_from_blocks<F: Field>(
    pre_chi_lo_blocks: &Block<F>,
    pre_chi_hi_blocks: &Block<F>,
    lane_weights: &[F; 25],
    round: usize,
    bit_weights: &[F; 64],
) -> (r: (F, F))
    requires
        round < 24,
    ensures
        r.0 == composed(
            lanes_of(*pre_chi_hi_blocks),
            lane_weights@,
            round as int,
            bit_weights@,
        ),
        r.1 == composed_infinity(
            lanes_plus(lanes_of(*pre_chi_lo_blocks), lanes_of(*pre_chi_hi_blocks)),
            lane_weights@,
            bit_weights@,
        ),
{
    let at_one: F = compose_chi_iota_from_low_vectors(
        pre_chi_hi_blocks,
        lane_weights,
        round,
        bit_weights,
    );
    let sums = add_blocks(pre_chi_lo_blocks, pre_chi_hi_blocks);
    let at_infinity: F = compose_chi_iota_infinity_from_low_vectors(
        &sums,
        lane_weights,
        bit_weights,
    );
    (at_one, at_infinity)
}

/// Returns the value at one and the leading coefficient of the round polynomial of blocks before
/// chi.
pub fn chi_round_values<F: Field>(
    blocks: &[Block<F>],
    point: &EvalPoint<F>,
    lane_weights: &[F; 25],
    round: usize,
    bit_weights: &[F; 64],
) -> (r: (F, F))
    requires
        round < 24,
        point.coordinates@.len() > 0,
        blocks@.len() == pow2(point.coordinates@.len()),
    ensures
        r.0 == quadratic_y_1(
            all_lanes_of(blocks@),
            point.coordinates@,
            chi_function(lane_weights@, round as int, bit_weights@),
        ),
        r.1 == quadratic_y_inf(
            all_lanes_of(blocks@),
            point.coordinates@,
            chi_function_infinity(lane_weights@, bit_weights@),
        ),
{
    let ghost instances = all_lanes_of(blocks@);
    let ghost g = chi_function(lane_weights@, round as int, bit_weights@);
    let ghost g_inf = chi_function_infinity(lane_weights@, bit_weights@);
    let ghost v_1 = values_on(upper_half(instances), g);
    let ghost v_inf = values_on(half_sums(instances), g_inf);
    let split: usize = blocks.len() / 2;
    let eq_expansion = point.eq_expansion();
    proof {
        lemma_pow2_unfold(point.coordinates@.len());
    }
    let ghost terms_1 = pointwise_times(eq_expansion@, v_1);
    let ghost terms_inf = pointwise_times(eq_expansion@, v_inf);
    let mut y_1: F = F::zero();
    let mut y_inf: F = F::zero();
    let mut i: usize = 0;
    while i < split
        invariant
            i <= split,
            round < 24,
            blocks@.len() == 2 * split,
            blocks@.len() <= usize::MAX,
            eq_expansion@.len() == split,
            instances == all_lanes_of(blocks@),
            g == chi_function(lane_weights@, round as int, bit_weights@),
            g_inf == chi_function_infinity(lane_weights@, bit_weights@),
            v_1 == values_on(upper_half(instances), g),
            v_inf == values_on(half_sums(instances), g_inf),
            terms_1 == pointwise_times(eq_expansion@, v_1),
            terms_inf == pointwise_times(eq_expansion@, v_inf),
            y_1 == sum(terms_1.take(i as int)),
            y_inf == sum(terms_inf.take(i as int)),
        decreases split - i,
    {
        proof {
            lemma_sum_take(terms_1, i as int);
            lemma_sum_take(terms_inf, i as int);
        }
        let (contrib_1, contrib_inf) = compose_chi_iota_pair_from_blocks(
            &blocks[i],
            &blocks[split + i],
            lane_weights,
            round,
            bit_weights,
        );
        y_1 = y_1.add(eq_expansion[i].mul(contrib_1));
        y_inf = y_inf.add(eq_expansion[i].mul(contrib_inf));
        i = i + 1;
    }
    assert(terms_1.take(split as int) =~= terms_1);
    assert(terms_inf.take(split as int) =~= terms_inf);
    (y_1, y_inf)
}

/// The prover of the `chi+iota` reduction: one block of values for each instance, the weights, the
/// point, and either the claimed value or a pending round polynomial.
pub struct ChiBitIndexedProver<F> {
    pub pre_chi_blocks: Vec<Block<F>>,
    pub bit_weights: [F; 64],
    pub lane_weights: [F; 25],
    pub last_coeffs_or_eval: RoundCoeffsOrEval<F>,
    pub round: usize,
    pub point: EvalPoint<F>,
}

impl<F: Field> ChiBitIndexedProver<F> {
    /// Whether there is a block for each vertex of the open variables, and a pending round
    /// polynomial belongs to a variable.
    pub open spec fn is_valid(&self) -> bool {
        &&& self.round < 24
        &&& self.pre_chi_blocks@.len() == pow2(self.point.coordinates@.len())
        &&& self.last_coeffs_or_eval is Coeffs ==> self.point.coordinates@.len() > 0
    }

    /// The values of the instances.
    pub open spec fn instances(&self) -> Seq<Seq<Seq<F>>> {
        all_lanes_of(self.pre_chi_blocks@)
    }

    /// The function of a state that the claim is about.
    pub open spec fn function(&self) -> spec_fn(Seq<Seq<F>>) -> F {
        chi_function(self.lane_weights@, self.round as int, self.bit_weights@)
    }

    /// The quadratic part of that function.
    pub open spec fn function_infinity(&self) -> spec_fn(Seq<Seq<F>>) -> F {
        chi_function_infinity(self.lane_weights@, self.bit_weights@)
    }

    /// The coefficients of the next round polynomial for a claim.
    pub open spec fn round_coeffs(&self, claim: F) -> Seq<F> {
        let point = self.point.coordinates@;
        quadratic_coeffs(
            claim,
            point.last(),
            quadratic_y_1(self.instances(), point, self.function()),
            quadratic_y_inf(self.instances(), point, self.function_infinity()),
        )
    }

    /// Whether all but the blocks, the point and the claim is the same.
    pub open spec fn same_weights(&self, other: &Self) -> bool {
        &&& self.bit_weights == other.bit_weights
        &&& self.lane_weights == other.lane_weights
        &&& self.round == other.round
    }

    /// Starts the reduction of a claimed value.
    pub fn new(
        pre_chi_blocks: Vec<Block<F>>,
        bit_weights: [F; 64],
        lane_weights: [F; 25],
        round: usize,
        eval_point: Vec<F>,
        mixed_eval: F,
    ) -> (r: Result<Self, SumcheckError>)
        requires
            round < 24,
        ensures
            pre_chi_blocks@.len() != pow2(eval_point@.len()) ==> r == Err::<Self, SumcheckError>(
                SumcheckError::MultilinearSizeMismatch,
            ),
            pre_chi_blocks@.len() == pow2(eval_point@.len()) ==> (r matches Ok(prover)
                && prover.is_valid() && prover.pre_chi_blocks == pre_chi_blocks
                && prover.bit_weights == bit_weights && prover.lane_weights == lane_weights
                && prover.round == round && prover.point.coordinates == eval_point
                && prover.last_coeffs_or_eval == RoundCoeffsOrEval::Eval(mixed_eval)),
    {
        if !is_power(pre_chi_blocks.len(), eval_point.len()) {
            return Err(SumcheckError::MultilinearSizeMismatch);
        }
        Ok(
            ChiBitIndexedProver {
                pre_chi_blocks,
                bit_weights,
                lane_weights,
                last_coeffs_or_eval: RoundCoeffsOrEval::Eval(mixed_eval),
                round,
                point: EvalPoint { coordinates: eval_point },
            },
        )
    }

    /// Returns the number of variables that are still open.
    pub fn n_vars(&self) -> (r: usize)
        ensures
            r == self.point.coordinates@.len(),
    {
        self.point.n_vars_remaining()
    }

    /// Returns the number of claims that the reduction is about.
    pub fn n_claims(&self) -> (r: usize)
        ensures
            r == 1,
    {
        1
    }

    /// Returns the coordinates that are still open.
    pub fn eval_point(&self) -> (r: &[F])
        ensures
            r@ == self.point.coordinates@,
    {
        self.point.coordinates.as_slice()
    }

    /// Computes the next round polynomial.
    pub fn execute(&mut self) -> (r: Result<Vec<RoundCoeffs<F>>, SumcheckError>)
        requires
            old(self).is_valid(),
            old(self).last_coeffs_or_eval is Eval ==> old(self).point.coordinates@.len() > 0,
        ensures
            final(self).is_valid(),
            final(self).pre_chi_blocks == old(self).pre_chi_blocks,
            final(self).point == old(self).point,
            final(self).same_weights(old(self)),
            match old(self).last_coeffs_or_eval {
                RoundCoeffsOrEval::Coeffs(_) => r == Err::<Vec<RoundCoeffs<F>>, SumcheckError>(
                    SumcheckError::ExpectedFold,
                ) && final(self).last_coeffs_or_eval == old(self).last_coeffs_or_eval,
                RoundCoeffsOrEval::Eval(claim) => {
                    &&& r matches Ok(rounds) && rounds@.len() == 1 && rounds@[0].coeffs@ == old(
                        self,
                    ).round_coeffs(claim)
                    &&& final(self).last_coeffs_or_eval matches RoundCoeffsOrEval::Coeffs(pending)
                        && pending.coeffs@ == old(self).round_coeffs(claim)
                },
            },
    {
        let last_eval: F = match &self.last_coeffs_or_eval {
            RoundCoeffsOrEval::Eval(eval) => *eval,
            RoundCoeffsOrEval::Coeffs(_) => {
                return Err(SumcheckError::ExpectedFold);
            },
        };
        let (y_1, y_inf) = chi_round_values(
            self.pre_chi_blocks.as_slice(),
            &self.point,
            &self.lane_weights,
            self.round,
            &self.bit_weights,
        );
        let alpha: F = self.point.next_coordinate();
        let round_coeffs = interpolate_round_coeffs(last_eval, alpha, y_1, y_inf);
        self.last_coeffs_or_eval = RoundCoeffsOrEval::Coeffs(round_coeffs.copied());
        let mut out: Vec<RoundCoeffs<F>> = Vec::with_capacity(1);
        out.push(round_coeffs);
        Ok(out)
    }

    /// Fixes the highest open variable to the challenge.
    pub fn fold(&mut self, challenge: F) -> (r: Result<(), SumcheckError>)
        requires
            old(self).is_valid(),
        ensures
            final(self).is_valid(),
            final(self).same_weights(old(self)),
            match old(self).last_coeffs_or_eval {
                RoundCoeffsOrEval::Eval(_) => r == Err::<(), SumcheckError>(
                    SumcheckError::ExpectedExecute,
                ) && *final(self) == *old(self),
                RoundCoeffsOrEval::Coeffs(coeffs) => {
                    &&& r == Ok::<(), SumcheckError>(())
                    &&& final(self).instances() == folded_instances(
                        old(self).instances(),
                        challenge,
                    )
                    &&& final(self).point.coordinates@ == old(self).point.coordinates@.drop_last()
                    &&& final(self).last_coeffs_or_eval == RoundCoeffsOrEval::Eval(
                        polynomial_at(coeffs.coeffs@, challenge),
                    )
                },
            },
    {
        let eval: F = match &self.last_coeffs_or_eval {
            RoundCoeffsOrEval::Coeffs(coeffs) => coeffs.evaluate(challenge),
            RoundCoeffsOrEval::Eval(_) => {
                return Err(SumcheckError::ExpectedExecute);
            },
        };
        proof {
            lemma_pow2_unfold(self.point.coordinates@.len());
        }
        fold_block_tables_inplace(&mut self.pre_chi_blocks, challenge);
        assert(self.instances().len() == self.pre_chi_blocks@.len());
        self.point.fold();
        self.last_coeffs_or_eval = RoundCoeffsOrEval::Eval(eval);
        Ok(())
    }

    /// Returns the bit-weighted lane values once all variables are fixed.
    pub fn finish(self) -> (r: Result<Vec<F>, SumcheckError>)
        requires
            self.is_valid(),
        ensures
            self.point.coordinates@.len() > 0 ==> r == Err::<Vec<F>, SumcheckError>(
                match self.last_coeffs_or_eval {
                    RoundCoeffsOrEval::Coeffs(_) => SumcheckError::ExpectedFold,
                    RoundCoeffsOrEval::Eval(_) => SumcheckError::ExpectedExecute,
                },
            ),
            self.point.coordinates@.len() == 0 ==> (r matches Ok(evals) && evals@ == lane_values(
                self.instances()[0],
                self.bit_weights@,
            )),
    {
        if self.n_vars() > 0 {
            return Err(
                match self.last_coeffs_or_eval {
                    RoundCoeffsOrEval::Coeffs(_) => SumcheckError::ExpectedFold,
                    RoundCoeffsOrEval::Eval(_) => SumcheckError::ExpectedExecute,
                },
            );
        }
        proof {
            lemma2_to64();
        }
        let evals = fold_low_vectors(&self.pre_chi_blocks[0], &self.bit_weights);
        Ok(copy_vector(evals.as_slice()))
    }
}

/// Starts the prover side of one `chi+iota` round reduction.
pub fn start_round<F: BinaryField>(
    output: &LaneTables<F>,
    pre_chi: &LaneTables<F>,
    reduction: &ChiIotaReduction<F>,
) -> (r: Result<ChiBitIndexedProver<F>, Error>)
    ensures
        reduction.round >= 24 ==> r == Err::<ChiBitIndexedProver<F>, Error>(
            Error::InvalidRound(reduction.round),
        ),
        reduction.round < 24 && !has_high_vars(*output, reduction.output_claim.high_point@.len())
            ==> r == Err::<ChiBitIndexedProver<F>, Error>(
            Error::InvalidClaim(ClaimFault::OutputDimensions),
        ),
        reduction.round < 24 && has_high_vars(*output, reduction.output_claim.high_point@.len())
            && !has_high_vars(*pre_chi, reduction.output_claim.high_point@.len()) ==> r == Err::<
            ChiBitIndexedProver<F>,
            Error,
        >(Error::InvalidClaim(ClaimFault::PreChiDimensions)),
        reduction.round < 24 && has_high_vars(*output, reduction.output_claim.high_point@.len())
            && has_high_vars(*pre_chi, reduction.output_claim.high_point@.len()) ==> (r matches Ok(
            prover,
        ) && prover.is_valid() && prover.instances() == table_instances(
            *pre_chi,
            pow2(reduction.output_claim.high_point@.len()),
        ) && prover.bit_weights@ == bit_weights_at(reduction.output_claim.bit_challenge)
            && prover.lane_weights == reduction.output_claim.lane_weights && prover.round
            == reduction.round && prover.point.coordinates@ == reduction.output_claim.high_point@
            && prover.last_coeffs_or_eval == RoundCoeffsOrEval::Eval(
            reduction.output_claim.mixed_eval,
        )),
{
    match validate_reduction(output, pre_chi, reduction) {
        Ok(()) => {},
        Err(error) => {
            return Err(error);
        },
    }
    let bit_weights = bit_lagrange_weights(reduction.output_claim.bit_challenge);
    assert(pre_chi[0]@.len() == 64 * pow2(reduction.output_claim.high_point@.len()));
    let blocks = lane_block_tables(pre_chi);
    assert(blocks@.len() == all_lanes_of(blocks@).len());
    match ChiBitIndexedProver::new(
        blocks,
        bit_weights,
        reduction.output_claim.lane_weights,
        reduction.round,
        copy_vector(reduction.output_claim.high_point.as_slice()),
        reduction.output_claim.mixed_eval,
    ) {
        Ok(prover) => Ok(prover),
        Err(error) => Err(Error::SumcheckProver(error)),
    }
}

/// Returns a vector of 25 elements as an array.
pub fn array_of_25<F: Field>(values: &[F]) -> (r: [F; 25])
    requires
        values@.len() == 25,
    ensures
        r@ == values@,
{
    let mut out: [F; 25] = [F::zero();25];
    let mut i: usize = 0;
    while i < 25
        invariant
            i <= 25,
            values@.len() == 25,
            forall|j: int| 0 <= j < i ==> out[j] == values@[j],
        decreases 25 - i,
    {
        out[i] = values[i];
        i = i + 1;
    }
    assert(out@ =~= values@);
    out
}

/// The instances of lane tables, combined by the reversed challenges of a reduction.
pub open spec fn folded_tables<F: Field>(tables: LaneTables<F>, challenges: Seq<F>) -> Seq<
    Seq<F>,
> {
    let point = challenges.reverse();
    combined(eq_table(point), table_instances(tables, pow2(point.len())))
}

/// Run the prover side of one `chi+iota` round reduction, from the challenges of its rounds and
/// the evaluations that its prover ended with.
pub fn prove_round<F: BinaryField>(
    output: &LaneTables<F>,
    reduction: &ChiIotaReduction<F>,
    challenges: &[F],
    multilinear_evals: &[F],
) -> (r: Result<ChiIotaRoundOutput<F>, Error>)
    requires
        has_high_vars(*output, reduction.output_claim.high_point@.len()),
        challenges@.len() == reduction.output_claim.high_point@.len(),
    ensures
        multilinear_evals@.len() != 25 ==> r == Err::<ChiIotaRoundOutput<F>, Error>(
            Error::InvalidClaim(ClaimFault::EvaluationCount),
        ),
        multilinear_evals@.len() == 25 ==> (r matches Ok(out) && out.reduced_high_point@
            == challenges@.reverse() && out.pre_chi_evals@ == multilinear_evals@
            && out.reduced_eval == mixed_lanes(
            folded_tables(*output, challenges@),
            reduction.output_claim.lane_weights@,
            bit_weights_at(reduction.output_claim.bit_challenge),
        )),
{
    if multilinear_evals.len() != 25 {
        return Err(Error::InvalidClaim(ClaimFault::EvaluationCount));
    }
    let pre_chi_evals = array_of_25(multilinear_evals);
    let bit_weights = bit_lagrange_weights(reduction.output_claim.bit_challenge);
    let reduced_high_point = reversed(challenges);
    let output_low_vectors = evaluate_lane_low_vectors(output, reduced_high_point.as_slice());
    let reduced_eval: F = mixed_output_from_low_vectors(
        &output_low_vectors,
        &reduction.output_claim.lane_weights,
        &bit_weights,
    );
    Ok(ChiIotaRoundOutput { reduced_high_point, pre_chi_evals, reduced_eval })
}

/// The weighted value after chi and iota that the verifier computes at the challenges.
pub open spec fn composed_at<F: BinaryField>(
    pre_chi: LaneTables<F>,
    reduction: ChiIotaReduction<F>,
    challenges: Seq<F>,
) -> F {
    composed(
        folded_tables(pre_chi, challenges),
        reduction.output_claim.lane_weights@,
        reduction.round as int,
        bit_weights_at(reduction.output_claim.bit_challenge),
    )
}

/// Whether `out` is what the tables give at the challenges of a reduction.
pub open spec fn is_chi_iota_output<F: BinaryField>(
    out: ChiIotaRoundOutput<F>,
    output: LaneTables<F>,
    pre_chi: LaneTables<F>,
    reduction: ChiIotaReduction<F>,
    challenges: Seq<F>,
) -> bool {
    let bit_weights = bit_weights_at(reduction.output_claim.bit_challenge);
    &&& out.reduced_high_point@ == challenges.reverse()
    &&& out.pre_chi_evals@ == lane_values(folded_tables(pre_chi, challenges), bit_weights)
    &&& out.reduced_eval == mixed_lanes(
        folded_tables(output, challenges),
        reduction.output_claim.lane_weights@,
        bit_weights,
    )
}

/// Run the verifier side of one `chi+iota` round reduction, from the challenges of its rounds and
/// the claim that they ended with.
pub fn verify_round<F: BinaryField>(
    output: &LaneTables<F>,
    pre_chi: &LaneTables<F>,
    reduction: &ChiIotaReduction<F>,
    challenges: &[F],
    eval: F,
) -> (r: Result<ChiIotaRoundOutput<F>, Error>)
    requires
        reduction.round < 24,
        challenges@.len() == reduction.output_claim.high_point@.len(),
    ensures
        ({
            let h = reduction.output_claim.high_point@.len();
            let claimed = is_own_claim(
                reduction.output_claim,
                table_instances(*output, pow2(h)),
            );
            if !has_high_vars(*output, h) {
                r == Err::<ChiIotaRoundOutput<F>, Error>(
                    Error::InvalidClaim(ClaimFault::OutputDimensions),
                )
            } else if !has_high_vars(*pre_chi, h) {
                r == Err::<ChiIotaRoundOutput<F>, Error>(
                    Error::InvalidClaim(ClaimFault::PreChiDimensions),
                )
            } else if !claimed {
                r == Err::<ChiIotaRoundOutput<F>, Error>(
                    Error::InvalidClaim(ClaimFault::OutputClaim),
                )
            } else if composed_at(*pre_chi, *reduction, challenges@) != eval {
                r == Err::<ChiIotaRoundOutput<F>, Error>(Error::InvalidAssert)
            } else {
                r matches Ok(out) && is_chi_iota_output(
                    out,
                    *output,
                    *pre_chi,
                    *reduction,
                    challenges@,
                )
            }
        }),
{
    match validate_reduction(output, pre_chi, reduction) {
        Ok(()) => {},
        Err(error) => {
            return Err(error);
        },
    }
    match validate_output_claim_against_tables(output, reduction) {
        Ok(()) => {},
        Err(error) => {
            return Err(error);
        },
    }
    verify_round_assuming_valid_output_claim(output, pre_chi, reduction, challenges, eval)
}

/// The verifier side of a reduction whose output claim has been checked.
pub fn verify_round_assuming_valid_output_claim<F: BinaryField>(
    output: &LaneTables<F>,
    pre_chi: &LaneTables<F>,
    reduction: &ChiIotaReduction<F>,
    challenges: &[F],
    eval: F,
) -> (r: Result<ChiIotaRoundOutput<F>, Error>)
    requires
        reduction.round < 24,
        has_high_vars(*output, reduction.output_claim.high_point@.len()),
        has_high_vars(*pre_chi, reduction.output_claim.high_point@.len()),
        challenges@.len() == reduction.output_claim.high_point@.len(),
    ensures
        composed_at(*pre_chi, *reduction, challenges@) != eval ==> r == Err::<
            ChiIotaRoundOutput<F>,
            Error,
        >(Error::InvalidAssert),
        composed_at(*pre_chi, *reduction, challenges@) == eval ==> (r matches Ok(out)
            && is_chi_iota_output(out, *output, *pre_chi, *reduction, challenges@)),
{
    let reduced_high_point = reversed(challenges);
    let bit_weights = bit_lagrange_weights(reduction.output_claim.bit_challenge);
    let output_low_vectors = evaluate_lane_low_vectors(output, reduced_high_point.as_slice());
    let pre_chi_low_vectors = evaluate_lane_low_vectors(pre_chi, reduced_high_point.as_slice());
    let pre_chi_evals = fold_low_vectors(&pre_chi_low_vectors, &bit_weights);
    let output_eval: F = mixed_output_from_low_vectors(
        &output_low_vectors,
        &reduction.output_claim.lane_weights,
        &bit_weights,
    );
    let chi_iota_eval: F = compose_chi_iota_from_low_vectors(
        &pre_chi_low_vectors,
        &reduction.output_claim.lane_weights,
        reduction.round,
        &bit_weights,
    );
    if !chi_iota_eval.is_equal(eval) {
        return Err(Error::InvalidAssert);
    }
    Ok(ChiIotaRoundOutput { reduced_high_point, pre_chi_evals, reduced_eval: output_eval })
}

} // verus!
