//! Claims on the 25 lanes of a batch of Keccak states.

use vstd::arithmetic::power2::pow2;
use vstd::prelude::*;

use super::blocks::{
    batch_scalars, combined, evaluate_lane_low_vectors, evaluate_lane_low_vectors_from_words,
    fold_low_vectors, lane_values, table_instances,
};
use super::rotation::{bit_lagrange_weights, bit_weights_at};
use super::trace::{batch, LaneTables, State};
use crate::field::{BinaryField, Field};
use crate::mlecheck::SumcheckError;
use crate::multilinear::{dot, eq_table, evaluate, evaluation, inner_product};

verus! {

/// Why a claim does not fit the tables it speaks of.
#[derive(Debug, Clone, Copy, PartialEq, Eq, Structural)]
pub enum ClaimFault {
    /// The trace does not consist of exactly 24 rounds.
    TraceLength,
    /// The trace tables do not share one dimension.
    TraceDimensions,
    /// The lane tables have less than 6 variables.
    LaneTablesTooSmall,
    /// The input lane tables do not have the same dimension.
    InputDimensions,
    /// The high point does not have as many coordinates as the input lanes have high variables.
    HighPointLength,
    /// The output lane dimensions do not match the high point.
    OutputDimensions,
    /// The pre-chi lane dimensions do not match the high point.
    PreChiDimensions,
    /// The number of input words is not two to the length of the high point.
    WordCount,
    /// The output claim is not that of the output tables.
    OutputClaim,
    /// The proof does not hold the expected number of evaluations.
    EvaluationCount,
}

/// What a reduction can fail with.
#[derive(Debug, Clone, Copy, PartialEq, Eq, Structural)]
pub enum Error {
    /// The sumcheck prover was used out of turn or with tables of the wrong size.
    SumcheckProver(SumcheckError),
    /// A value that has to be zero is not.
    InvalidAssert,
    /// The claim does not fit the tables.
    InvalidClaim(ClaimFault),
    /// There is no round with this index.
    InvalidRound(usize),
}

/// A random linear combination claim over the 25 Keccak lanes at a single point.
#[derive(Debug, Clone, PartialEq, Eq)]
pub struct MixedClaim<F> {
    /// Evaluation point in low-to-high variable order.
    pub point: Vec<F>,
    /// Random verifier weights, one per lane.
    pub lane_weights: [F; 25],
    /// Claimed evaluations of the 25 lane multilinears at `point`.
    pub lane_evals: [F; 25],
    /// Mixed claim `sum_i lane_weights[i] * lane_evals[i]`.
    pub mixed_eval: F,
}

/// Endpoint claims exposed by the standalone KeccakCheck driver.
#[derive(Debug, Clone, PartialEq, Eq)]
pub struct EndpointClaims<F> {
    /// Claim on the output of the permutations.
    pub output_claim: BitIndexedMixedClaim<F>,
    /// Claim on the input of the permutations.
    pub input_claim: BitIndexedMixedClaim<F>,
}

/// A random linear combination claim over the 25 Keccak lanes, at a challenge for the bit index
/// and a point for the instances.
#[derive(Debug, Clone, PartialEq, Eq)]
pub struct BitIndexedMixedClaim<F> {
    /// Univariate challenge for the bit index.
    pub bit_challenge: F,
    /// Evaluation point of the instance variables, in low-to-high order.
    pub high_point: Vec<F>,
    /// Random verifier weights, one per lane.
    pub lane_weights: [F; 25],
    /// Claimed evaluations of the 25 lanes.
    pub lane_evals: [F; 25],
    /// Mixed claim `sum_i lane_weights[i] * lane_evals[i]`.
    pub mixed_eval: F,
}

impl<F: Field> MixedClaim<F> {
    /// Whether the mixed evaluation is the weighted sum of the lane evaluations.
    pub open spec fn is_consistent(&self) -> bool {
        self.mixed_eval == dot(self.lane_weights@, self.lane_evals@)
    }
}

impl<F: Field> BitIndexedMixedClaim<F> {
    /// Whether the mixed evaluation is the weighted sum of the lane evaluations.
    pub open spec fn is_consistent(&self) -> bool {
        self.mixed_eval == dot(self.lane_weights@, self.lane_evals@)
    }

    /// Returns a copy of the claim.
    pub fn copied(&self) -> (r: Self)
        ensures
            r.same_as(self),
    {
        BitIndexedMixedClaim {
            bit_challenge: self.bit_challenge,
            high_point: copy_vector(self.high_point.as_slice()),
            lane_weights: self.lane_weights,
            lane_evals: self.lane_evals,
            mixed_eval: self.mixed_eval,
        }
    }

    /// Whether two claims say the same.
    pub open spec fn same_as(&self, other: &Self) -> bool {
        &&& self.bit_challenge == other.bit_challenge
        &&& self.high_point@ == other.high_point@
        &&& self.lane_weights@ == other.lane_weights@
        &&& self.lane_evals@ == other.lane_evals@
        &&& self.mixed_eval == other.mixed_eval
    }

    /// Decides whether two claims are equal.
    pub fn is_equal(&self, other: &Self) -> (r: bool)
        ensures
            r == self.same_as(other),
    {
        self.bit_challenge.is_equal(other.bit_challenge) && equal_vectors(
            self.high_point.as_slice(),
            other.high_point.as_slice(),
        ) && equal_vectors(self.lane_weights.as_slice(), other.lane_weights.as_slice())
            && equal_vectors(self.lane_evals.as_slice(), other.lane_evals.as_slice())
            && self.mixed_eval.is_equal(other.mixed_eval)
    }
}

/// Decides whether two vectors are equal.
pub fn equal_vectors<F: Field>(a: &[F], b: &[F]) -> (r: bool)
    ensures
        r == (a@ == b@),
{
    if a.len() != b.len() {
        return false;
    }
    let mut i: usize = 0;
    while i < a.len()
        invariant
            i <= a@.len(),
            a@.len() == b@.len(),
            forall|j: int| 0 <= j < i ==> a@[j] == b@[j],
        decreases a@.len() - i,
    {
        if !a[i].is_equal(b[i]) {
            return false;
        }
        i = i + 1;
    }
    assert(a@ =~= b@);
    true
}

/// Returns a copy of a vector.
pub fn copy_vector<F: Copy>(a: &[F]) -> (r: Vec<F>)
    ensures
        r@ == a@,
{
    let mut out: Vec<F> = Vec::with_capacity(a.len());
    let mut i: usize = 0;
    while i < a.len()
        invariant
            i <= a@.len(),
            out@ == a@.take(i as int),
        decreases a@.len() - i,
    {
        out.push(a[i]);
        i = i + 1;
    }
    assert(a@.take(i as int) =~= a@);
    out
}

/// Build a mixed lane-evaluation claim by directly evaluating explicit lane tables.
pub fn mixed_lane_claim<F: Field>(
    lane_tables: &LaneTables<F>,
    point: &[F],
    lane_weights: [F; 25],
) -> (r: MixedClaim<F>)
    requires
        forall|lane: int|
            0 <= lane < 25 ==> (#[trigger] lane_tables[lane])@.len() == pow2(point@.len()),
    ensures
        r.point@ == point@,
        r.lane_weights == lane_weights,
        forall|lane: int|
            0 <= lane < 25 ==> r.lane_evals[lane] == evaluation(
                (#[trigger] lane_tables[lane])@,
                point@,
            ),
        r.is_consistent(),
{
    let mut lane_evals: [F; 25] = [F::zero();25];
    let mut lane: usize = 0;
    while lane < 25
        invariant
            lane <= 25,
            forall|l: int|
                0 <= l < 25 ==> (#[trigger] lane_tables[l])@.len() == pow2(point@.len()),
            forall|l: int|
                0 <= l < lane ==> lane_evals[l] == evaluation(
                    (#[trigger] lane_tables[l])@,
                    point@,
                ),
        decreases 25 - lane,
    {
        lane_evals[lane] = evaluate(lane_tables[lane].as_slice(), point);
        lane = lane + 1;
    }
    mixed_claim_from_evals(copy_vector(point), lane_weights, lane_evals)
}

/// Build a mixed claim from an existing vector of lane evaluations.
pub fn mixed_claim_from_evals<F: Field>(
    point: Vec<F>,
    lane_weights: [F; 25],
    lane_evals: [F; 25],
) -> (r: MixedClaim<F>)
    ensures
        r.point == point,
        r.lane_weights == lane_weights,
        r.lane_evals == lane_evals,
        r.is_consistent(),
{
    let mixed_eval: F = inner_product(lane_weights.as_slice(), lane_evals.as_slice());
    MixedClaim { point, lane_weights, lane_evals, mixed_eval }
}

/// Build a bit-indexed claim from an existing vector of lane evaluations.
pub fn bit_indexed_claim_from_evals<F: Field>(
    bit_challenge: F,
    high_point: Vec<F>,
    lane_weights: [F; 25],
    lane_evals: [F; 25],
) -> (r: BitIndexedMixedClaim<F>)
    ensures
        r.bit_challenge == bit_challenge,
        r.high_point == high_point,
        r.lane_weights == lane_weights,
        r.lane_evals == lane_evals,
        r.is_consistent(),
{
    let mixed_eval: F = inner_product(lane_weights.as_slice(), lane_evals.as_slice());
    BitIndexedMixedClaim { bit_challenge, high_point, lane_weights, lane_evals, mixed_eval }
}

/// Whether `claim` is the claim on the given instances at the given challenges.
pub open spec fn is_claim_on<F: BinaryField>(
    claim: BitIndexedMixedClaim<F>,
    instances: Seq<Seq<Seq<F>>>,
    bit_challenge: F,
    high_point: Seq<F>,
    lane_weights: Seq<F>,
) -> bool {
    &&& claim.bit_challenge == bit_challenge
    &&& claim.high_point@ == high_point
    &&& claim.lane_weights@ == lane_weights
    &&& claim.lane_evals@ == lane_values(
        combined(eq_table(high_point), instances),
        bit_weights_at(bit_challenge),
    )
    &&& claim.is_consistent()
}

/// Build a bit-indexed claim by directly evaluating explicit lane tables.
pub fn bit_indexed_lane_claim<F: BinaryField>(
    lane_tables: &LaneTables<F>,
    bit_challenge: F,
    high_point: &[F],
    lane_weights: [F; 25],
) -> (r: BitIndexedMixedClaim<F>)
    requires
        forall|lane: int|
            0 <= lane < 25 ==> (#[trigger] lane_tables[lane])@.len() == 64 * pow2(
                high_point@.len(),
            ),
    ensures
        is_claim_on(
            r,
            table_instances(*lane_tables, pow2(high_point@.len())),
            bit_challenge,
            high_point@,
            lane_weights@,
        ),
{
    let bit_weights = bit_lagrange_weights(bit_challenge);
    let low_vectors = evaluate_lane_low_vectors(lane_tables, high_point);
    let lane_evals = fold_low_vectors(&low_vectors, &bit_weights);
    bit_indexed_claim_from_evals(bit_challenge, copy_vector(high_point), lane_weights, lane_evals)
}

/// Build a bit-indexed claim by directly evaluating a batch of states.
pub fn bit_indexed_lane_claim_from_words<F: BinaryField>(
    words: &[State],
    bit_challenge: F,
    high_point: &[F],
    lane_weights: [F; 25],
) -> (r: BitIndexedMixedClaim<F>)
    requires
        words@.len() == pow2(high_point@.len()),
    ensures
        is_claim_on(
            r,
            batch_scalars::<F>(batch(words@)),
            bit_challenge,
            high_point@,
            lane_weights@,
        ),
{
    let bit_weights = bit_lagrange_weights(bit_challenge);
    let low_vectors = evaluate_lane_low_vectors_from_words(words, high_point);
    let lane_evals = fold_low_vectors(&low_vectors, &bit_weights);
    bit_indexed_claim_from_evals(bit_challenge, copy_vector(high_point), lane_weights, lane_evals)
}

/// The mixed evaluation of a claim is fixed by its weights and evaluations: where two claims have the
/// same in all 25 lanes, they have the same mixed evaluation, and a claim with another one is not
/// consistent.
pub proof fn law_mixed_evaluation_is_determined<F: Field>(
    a: MixedClaim<F>,
    b: BitIndexedMixedClaim<F>,
)
    requires
        a.lane_weights@ == b.lane_weights@,
        a.lane_evals@ == b.lane_evals@,
        a.is_consistent(),
    ensures
        b.is_consistent() <==> a.mixed_eval == b.mixed_eval,
        a.mixed_eval == dot(
            Seq::new(25, |lane: int| a.lane_weights@[lane]),
            Seq::new(25, |lane: int| a.lane_evals@[lane]),
        ),
{
    assert(Seq::new(25, |lane: int| a.lane_weights@[lane]) =~= a.lane_weights@);
    assert(Seq::new(25, |lane: int| a.lane_evals@[lane]) =~= a.lane_evals@);
}

} // verus!
