//! The chain of reductions through all 24 rounds, from the output of the permutations back to
//! their input.
//!
//! The chain alternates reductions, which run a multilinear check over a channel, and weights that
//! are drawn from the channel. What is kept here are the decisions between these steps: which
//! reduction comes next, and on which claim.

use vstd::arithmetic::power2::{lemma2_to64, lemma_pow2_adds, lemma_pow2_pos, pow2};
use vstd::prelude::*;

use super::blocks::{combined, composed, table_instances};
use super::chi_iota;
use super::chi_iota::{folded_tables, is_chi_iota_output, ChiIotaReduction, ChiIotaRoundOutput};
use super::claims::{
    bit_indexed_claim_from_evals, bit_indexed_lane_claim, is_claim_on, BitIndexedMixedClaim,
    ClaimFault, EndpointClaims, Error,
};
use super::linear_round;
use super::linear_round::{
    are_tables, has_high_vars, is_linear_output, linear_value, LinearRoundOutput,
    LinearRoundReduction,
};
use super::rotation::bit_weights_at;
use super::trace::{FullTrace, LaneTables};
use crate::field::{BinaryField, Field};
use crate::multilinear::eq_table;
use crate::powers::is_power_of_two;

verus! {

/// Whether all tables of the first `n` rounds have the length of the first table.
pub open spec fn rounds_have_length<F>(trace: FullTrace<F>, n: int, len: nat) -> bool {
    forall|t: int|
        0 <= t < n ==> has_length((#[trigger] trace.rounds@[t]).input, len) && has_length(
            trace.rounds@[t].pre_chi,
            len,
        )
}

/// Whether all lane tables have the given length.
pub open spec fn has_length<F>(tables: LaneTables<F>, len: nat) -> bool {
    forall|lane: int| 0 <= lane < 25 ==> (#[trigger] tables[lane])@.len() == len
}

/// Whether all tables of a trace have the length of the first one.
pub open spec fn has_one_dimension<F>(trace: FullTrace<F>) -> bool {
    let len = trace.rounds@[0].input[0]@.len();
    &&& rounds_have_length(trace, trace.rounds@.len() as int, len)
    &&& has_length(trace.final_output, len)
}

fn check_length<F>(tables: &LaneTables<F>, len: usize) -> (r: bool)
    ensures
        r == has_length(*tables, len as nat),
{
    let mut lane: usize = 0;
    while lane < 25
        invariant
            lane <= 25,
            forall|l: int| 0 <= l < lane ==> (#[trigger] tables[l])@.len() == len,
        decreases 25 - lane,
    {
        if tables[lane].len() != len {
            return false;
        }
        lane = lane + 1;
    }
    true
}

/// Checks that a trace has 24 rounds whose tables share one dimension.
pub fn validate_trace<F>(trace: &FullTrace<F>) -> (r: Result<(), Error>)
    ensures
        r == if trace.rounds@.len() != 24 {
            Err::<(), Error>(Error::InvalidClaim(ClaimFault::TraceLength))
        } else if !has_one_dimension(*trace) {
            Err(Error::InvalidClaim(ClaimFault::TraceDimensions))
        } else {
            Ok(())
        },
{
    if trace.rounds.len() != 24 {
        return Err(Error::InvalidClaim(ClaimFault::TraceLength));
    }
    let len: usize = trace.rounds[0].input[0].len();
    let mut t: usize = 0;
    while t < 24
        invariant
            t <= 24,
            trace.rounds@.len() == 24,
            len == trace.rounds@[0].input[0]@.len(),
            rounds_have_length(*trace, t as int, len as nat),
        decreases 24 - t,
    {
        if !check_length(&trace.rounds[t].input, len) || !check_length(
            &trace.rounds[t].pre_chi,
            len,
        ) {
            return Err(Error::InvalidClaim(ClaimFault::TraceDimensions));
        }
        t = t + 1;
    }
    if !check_length(&trace.final_output, len) {
        return Err(Error::InvalidClaim(ClaimFault::TraceDimensions));
    }
    Ok(())
}

/// What the chain does next.
pub enum ProtocolStep<F> {
    /// Reduce the claim on the output of a round to a claim before chi.
    ReduceChiIota(ChiIotaReduction<F>),
    /// Reduce the claim before chi of a round to a claim on its input.
    ReduceLinear { reduction: LinearRoundReduction<F>, round: usize },
    /// Nothing: the claim on the input of the permutations is reached.
    Finished { input_claim: BitIndexedMixedClaim<F> },
}

/// A run of the chain: the claim that it started from and what it does next.
pub struct KeccakProtocol<F> {
    pub output_claim: BitIndexedMixedClaim<F>,
    pub step: ProtocolStep<F>,
}

impl<F: BinaryField> KeccakProtocol<F> {
    /// Whether the step is one of a round of the permutation.
    pub open spec fn is_valid(&self) -> bool {
        match self.step {
            ProtocolStep::ReduceChiIota(reduction) => reduction.round < 24,
            ProtocolStep::ReduceLinear { round, .. } => round < 24,
            ProtocolStep::Finished { .. } => true,
        }
    }

    /// The number of reductions that are still to come.
    pub open spec fn remaining(&self) -> nat {
        match self.step {
            ProtocolStep::ReduceChiIota(reduction) => (2 * reduction.round + 2) as nat,
            ProtocolStep::ReduceLinear { round, .. } => (2 * round + 1) as nat,
            ProtocolStep::Finished { .. } => 0,
        }
    }

    /// Starts the chain on the output tables of a trace, at challenges drawn for the bit index,
    /// the instances and the lanes.
    pub fn start(
        trace: &FullTrace<F>,
        bit_challenge: F,
        high_point: &[F],
        lane_weights: [F; 25],
    ) -> (r: Result<Self, Error>)
        requires
            trace.rounds@.len() == 24 && has_one_dimension(*trace) ==> has_high_vars(
                trace.final_output,
                high_point@.len(),
            ),
        ensures
            trace.rounds@.len() != 24 ==> r == Err::<Self, Error>(
                Error::InvalidClaim(ClaimFault::TraceLength),
            ),
            trace.rounds@.len() == 24 && !has_one_dimension(*trace) ==> r == Err::<Self, Error>(
                Error::InvalidClaim(ClaimFault::TraceDimensions),
            ),
            trace.rounds@.len() == 24 && has_one_dimension(*trace) ==> (r matches Ok(run)
                && run.is_valid() && is_claim_on(
                run.output_claim,
                table_instances(trace.final_output, pow2(high_point@.len())),
                bit_challenge,
                high_point@,
                lane_weights@,
            ) && (run.step matches ProtocolStep::ReduceChiIota(reduction) && reduction.round == 23
                && reduction.output_claim.same_as(&run.output_claim))),
    {
        match validate_trace(trace) {
            Ok(()) => {},
            Err(error) => {
                return Err(error);
            },
        }
        let output_claim = bit_indexed_lane_claim(
            &trace.final_output,
            bit_challenge,
            high_point,
            lane_weights,
        );
        let carried = output_claim.copied();
        Ok(
            KeccakProtocol {
                output_claim,
                step: ProtocolStep::ReduceChiIota(
                    ChiIotaReduction { output_claim: carried, round: 23 },
                ),
            },
        )
    }

    /// Goes on from the result of a `chi+iota` reduction, with weights drawn for the lanes.
    pub fn after_chi_iota(self, output: ChiIotaRoundOutput<F>, lane_weights: [F; 25]) -> (r: Self)
        requires
            self.is_valid(),
            self.step is ReduceChiIota,
        ensures
            r.is_valid(),
            r.output_claim == self.output_claim,
            r.remaining() == self.remaining() - 1,
            self.step matches ProtocolStep::ReduceChiIota(before) && (r.step matches
                ProtocolStep::ReduceLinear { reduction, round } && round == before.round
                && carries_on(
                reduction.pre_chi_claim,
                before.output_claim.bit_challenge,
                output.reduced_high_point@,
                lane_weights@,
                output.pre_chi_evals@,
            )),
    {
        let KeccakProtocol { output_claim, step } = self;
        match step {
            ProtocolStep::ReduceChiIota(before) => {
                let pre_chi_claim = bit_indexed_claim_from_evals(
                    before.output_claim.bit_challenge,
                    output.reduced_high_point,
                    lane_weights,
                    output.pre_chi_evals,
                );
                KeccakProtocol {
                    output_claim,
                    step: ProtocolStep::ReduceLinear {
                        reduction: LinearRoundReduction { pre_chi_claim },
                        round: before.round,
                    },
                }
            },
            other => KeccakProtocol { output_claim, step: other },
        }
    }

    /// Goes on from the result of a linear reduction, with weights drawn for the lanes.
    pub fn after_linear(self, output: LinearRoundOutput<F>, lane_weights: [F; 25]) -> (r: Self)
        requires
            self.is_valid(),
            self.step is ReduceLinear,
        ensures
            r.is_valid(),
            r.output_claim == self.output_claim,
            r.remaining() == self.remaining() - 1,
            self.step matches ProtocolStep::ReduceLinear { reduction, round } && match r.step {
                ProtocolStep::ReduceChiIota(next) => round > 0 && next.round == round - 1
                    && carries_on(
                    next.output_claim,
                    reduction.pre_chi_claim.bit_challenge,
                    output.reduced_high_point@,
                    lane_weights@,
                    output.input_evals@,
                ),
                ProtocolStep::ReduceLinear { .. } => false,
                ProtocolStep::Finished { input_claim } => round == 0 && carries_on(
                    input_claim,
                    reduction.pre_chi_claim.bit_challenge,
                    output.reduced_high_point@,
                    lane_weights@,
                    output.input_evals@,
                ),
            },
    {
        let KeccakProtocol { output_claim, step } = self;
        match step {
            ProtocolStep::ReduceLinear { reduction, round } => {
                let claim = bit_indexed_claim_from_evals(
                    reduction.pre_chi_claim.bit_challenge,
                    output.reduced_high_point,
                    lane_weights,
                    output.input_evals,
                );
                if round > 0 {
                    KeccakProtocol {
                        output_claim,
                        step: ProtocolStep::ReduceChiIota(
                            ChiIotaReduction { output_claim: claim, round: round - 1 },
                        ),
                    }
                } else {
                    KeccakProtocol {
                        output_claim,
                        step: ProtocolStep::Finished { input_claim: claim },
                    }
                }
            },
            other => KeccakProtocol { output_claim, step: other },
        }
    }

    /// Returns the claims at both ends once the chain is finished.
    pub fn endpoint_claims(self) -> (r: Option<EndpointClaims<F>>)
        ensures
            match self.step {
                ProtocolStep::Finished { input_claim } => r == Some(
                    EndpointClaims { output_claim: self.output_claim, input_claim },
                ),
                _ => r is None,
            },
    {
        let KeccakProtocol { output_claim, step } = self;
        match step {
            ProtocolStep::Finished { input_claim } => Some(
                EndpointClaims { output_claim, input_claim },
            ),
            _ => None,
        }
    }
}

/// Whether `claim` is made of the given challenges, weights and lane evaluations.
pub open spec fn carries_on<F: Field>(
    claim: BitIndexedMixedClaim<F>,
    bit_challenge: F,
    high_point: Seq<F>,
    lane_weights: Seq<F>,
    lane_evals: Seq<F>,
) -> bool {
    &&& claim.bit_challenge == bit_challenge
    &&& claim.high_point@ == high_point
    &&& claim.lane_weights@ == lane_weights
    &&& claim.lane_evals@ == lane_evals
    &&& claim.is_consistent()
}

/// Whether a claim is true of lane tables.
pub open spec fn is_true_of<F: BinaryField>(
    claim: BitIndexedMixedClaim<F>,
    tables: LaneTables<F>,
) -> bool {
    is_claim_on(
        claim,
        table_instances(tables, pow2(claim.high_point@.len())),
        claim.bit_challenge,
        claim.high_point@,
        claim.lane_weights@,
    )
}

/// A verified `chi+iota` reduction leads to a true claim on the tables before chi.
pub proof fn law_chi_iota_leads_to_true_claim<F: BinaryField>(
    out: ChiIotaRoundOutput<F>,
    output: LaneTables<F>,
    pre_chi: LaneTables<F>,
    reduction: ChiIotaReduction<F>,
    challenges: Seq<F>,
    next: BitIndexedMixedClaim<F>,
    lane_weights: Seq<F>,
)
    requires
        is_chi_iota_output(out, output, pre_chi, reduction, challenges),
        carries_on(
            next,
            reduction.output_claim.bit_challenge,
            out.reduced_high_point@,
            lane_weights,
            out.pre_chi_evals@,
        ),
    ensures
        is_true_of(next, pre_chi),
{
}

/// A verified linear reduction leads to a true claim on the input tables.
pub proof fn law_linear_leads_to_true_claim<F: BinaryField>(
    out: LinearRoundOutput<F>,
    input: LaneTables<F>,
    reduction: LinearRoundReduction<F>,
    challenges: Seq<F>,
    eval: F,
    next: BitIndexedMixedClaim<F>,
    lane_weights: Seq<F>,
)
    requires
        is_linear_output(out, input, reduction, challenges, eval),
        carries_on(
            next,
            reduction.pre_chi_claim.bit_challenge,
            out.reduced_high_point@,
            lane_weights,
            out.input_evals@,
        ),
    ensures
        is_true_of(next, input),
{
}

/// A claim is determined by what it is made on, so that the prover and the verifier of the same
/// challenges end with the same claims.
pub proof fn law_claims_are_determined<F: BinaryField>(
    a: BitIndexedMixedClaim<F>,
    b: BitIndexedMixedClaim<F>,
    instances: Seq<Seq<Seq<F>>>,
    bit_challenge: F,
    high_point: Seq<F>,
    lane_weights: Seq<F>,
)
    requires
        is_claim_on(a, instances, bit_challenge, high_point, lane_weights),
        is_claim_on(b, instances, bit_challenge, high_point, lane_weights),
    ensures
        a.same_as(&b),
{
}

/// What one round of the chain takes from its channel on the verifier side.
pub struct VerifierRound<F> {
    /// The challenges of the `chi+iota` reduction, in the order of its rounds.
    pub chi_iota_challenges: Vec<F>,
    /// The claim that the `chi+iota` reduction ended with.
    pub chi_iota_eval: F,
    /// The weights of the claim before chi.
    pub pre_chi_weights: [F; 25],
    /// The challenges of the linear reduction, in the order of its rounds.
    pub linear_challenges: Vec<F>,
    /// The claim that the linear reduction ended with.
    pub linear_eval: F,
    /// The weights of the claim on the round input.
    pub input_weights: [F; 25],
}

/// The weights of the claim on the output of round `t`.
pub open spec fn output_weights<F>(
    rounds: Seq<VerifierRound<F>>,
    lane_weights: Seq<F>,
    t: int,
) -> Seq<F> {
    if t + 1 < rounds.len() {
        rounds[t + 1].input_weights@
    } else {
        lane_weights
    }
}

/// Whether both reductions of round `t` ended with the values that the tables give.
pub open spec fn round_checks<F: BinaryField>(
    trace: FullTrace<F>,
    bit_challenge: F,
    lane_weights: Seq<F>,
    rounds: Seq<VerifierRound<F>>,
    t: int,
) -> bool {
    let bit_weights = bit_weights_at(bit_challenge);
    &&& composed(
        folded_tables(trace.rounds@[t].pre_chi, rounds[t].chi_iota_challenges@),
        output_weights(rounds, lane_weights, t),
        t,
        bit_weights,
    ) == rounds[t].chi_iota_eval
    &&& linear_value(
        folded_tables(trace.rounds@[t].input, rounds[t].linear_challenges@),
        rounds[t].pre_chi_weights@,
        bit_weights,
    ) == rounds[t].linear_eval
}

/// Verify the full standalone 24-round KeccakCheck over an explicit public trace, from what its
/// rounds took from their channel.
///
/// `rounds[t]` belongs to round `t` of the permutation; the chain runs from the last round to the
/// first.
pub fn verify<F: BinaryField>(
    trace: &FullTrace<F>,
    bit_challenge: F,
    high_point: &[F],
    lane_weights: [F; 25],
    rounds: &[VerifierRound<F>],
) -> (r: Result<EndpointClaims<F>, Error>)
    requires
        trace.rounds@.len() == 24 && has_one_dimension(*trace) ==> has_high_vars(
            trace.final_output,
            high_point@.len(),
        ),
        rounds@.len() == 24,
        forall|t: int|
            0 <= t < 24 ==> (#[trigger] rounds@[t]).chi_iota_challenges@.len() == high_point@.len()
                && rounds@[t].linear_challenges@.len() == high_point@.len(),
    ensures
        trace.rounds@.len() != 24 ==> r == Err::<EndpointClaims<F>, Error>(
            Error::InvalidClaim(ClaimFault::TraceLength),
        ),
        trace.rounds@.len() == 24 && !has_one_dimension(*trace) ==> r == Err::<
            EndpointClaims<F>,
            Error,
        >(Error::InvalidClaim(ClaimFault::TraceDimensions)),
        trace.rounds@.len() == 24 && has_one_dimension(*trace) && !(forall|t: int|
            0 <= t < 24 ==> #[trigger] round_checks(
                *trace,
                bit_challenge,
                lane_weights@,
                rounds@,
                t,
            )) ==> r == Err::<EndpointClaims<F>, Error>(Error::InvalidAssert),
        trace.rounds@.len() == 24 && has_one_dimension(*trace) && (forall|t: int|
            0 <= t < 24 ==> #[trigger] round_checks(
                *trace,
                bit_challenge,
                lane_weights@,
                rounds@,
                t,
            )) ==> (r matches Ok(claims) && is_claim_on(
            claims.output_claim,
            table_instances(trace.final_output, pow2(high_point@.len())),
            bit_challenge,
            high_point@,
            lane_weights@,
        ) && is_claim_on(
            claims.input_claim,
            table_instances(trace.rounds@[0].input, pow2(high_point@.len())),
            bit_challenge,
            rounds@[0].linear_challenges@.reverse(),
            rounds@[0].input_weights@,
        )),
        r is Ok ==> forall|t: int|
            0 <= t < 24 ==> {
                let n = pow2(high_point@.len());
                let bit_weights = bit_weights_at(bit_challenge);
                let chi = (#[trigger] rounds@[t]).chi_iota_challenges@.reverse();
                let linear = rounds@[t].linear_challenges@.reverse();
                &&& rounds@[t].chi_iota_eval == composed(
                    combined(eq_table(chi), table_instances(trace.rounds@[t].pre_chi, n)),
                    if t < 23 {
                        rounds@[t + 1].input_weights@
                    } else {
                        lane_weights@
                    },
                    t,
                    bit_weights,
                )
                &&& rounds@[t].linear_eval == linear_value(
                    combined(eq_table(linear), table_instances(trace.rounds@[t].input, n)),
                    rounds@[t].pre_chi_weights@,
                    bit_weights,
                )
            },
{
    let mut run = match KeccakProtocol::start(trace, bit_challenge, high_point, lane_weights) {
        Ok(run) => run,
        Err(error) => {
            return Err(error);
        },
    };
    let ghost h = high_point@.len();
    proof {
        assert(trace.final_output[0]@.len() == 64 * pow2(h));
        assert(trace.final_output[0]@.len() == trace.rounds@[0].input[0]@.len());
    }
    let ghost output_claim = run.output_claim;
    let mut left: usize = 24;
    while left > 0
        invariant
            left <= 24,
            h == high_point@.len(),
            trace.rounds@.len() == 24,
            has_one_dimension(*trace),
            trace.rounds@[0].input[0]@.len() == 64 * pow2(h),
            rounds@.len() == 24,
            forall|t: int|
                0 <= t < 24 ==> (#[trigger] rounds@[t]).chi_iota_challenges@.len() == h
                    && rounds@[t].linear_challenges@.len() == h,
            run.is_valid(),
            run.output_claim == output_claim,
            forall|t: int|
                left <= t < 24 ==> #[trigger] round_checks(
                    *trace,
                    bit_challenge,
                    lane_weights@,
                    rounds@,
                    t,
                ),
            left > 0 ==> (run.step matches ProtocolStep::ReduceChiIota(reduction)
                && reduction.round == left - 1 && is_claim_on(
                reduction.output_claim,
                table_instances(trace.round_output_spec(left - 1), pow2(h)),
                bit_challenge,
                reduction.output_claim.high_point@,
                output_weights(rounds@, lane_weights@, left - 1),
            ) && reduction.output_claim.high_point@.len() == h),
            left == 0 ==> (run.step matches ProtocolStep::Finished { input_claim } && is_claim_on(
                input_claim,
                table_instances(trace.rounds@[0].input, pow2(h)),
                bit_challenge,
                rounds@[0].linear_challenges@.reverse(),
                rounds@[0].input_weights@,
            )),
        decreases left,
    {
        let t: usize = left - 1;
        let tape = &rounds[t];
        let input = &trace.rounds[t].input;
        let pre_chi = &trace.rounds[t].pre_chi;
        let output = trace.round_output(t);
        proof {
            assert(has_length(trace.rounds@[t as int].input, 64 * pow2(h)));
            assert(has_length(trace.rounds@[t as int].pre_chi, 64 * pow2(h)));
            if t < 23 {
                assert(has_length(trace.rounds@[t + 1].input, 64 * pow2(h)));
            }
            assert(has_high_vars(*input, h));
            assert(has_high_vars(*pre_chi, h));
            assert(has_high_vars(*output, h));
            assert(are_tables(*input)) by {
                assert forall|lane: int| 0 <= lane < 25 implies is_power_of_two(
                    (#[trigger] input[lane])@.len() as int,
                ) by {
                    lemma_pow2_adds(6, h);
                    lemma2_to64();
                    assert(input[lane]@.len() == pow2((6 + h) as nat));
                }
            }
            lemma_pow2_pos(h);
            assert(input[0]@.len() == 64 * pow2(h));
        }
        let chi_iota_result = match &run.step {
            ProtocolStep::ReduceChiIota(reduction) => chi_iota::verify_round(
                output,
                pre_chi,
                reduction,
                tape.chi_iota_challenges.as_slice(),
                tape.chi_iota_eval,
            ),
            _ => Err(Error::InvalidAssert),
        };
        let chi_iota_output = match chi_iota_result {
            Ok(output) => output,
            Err(error) => {
                assert(!round_checks(
                    *trace,
                    bit_challenge,
                    lane_weights@,
                    rounds@,
                    t as int,
                ));
                return Err(error);
            },
        };
        run = run.after_chi_iota(chi_iota_output, tape.pre_chi_weights);
        let linear_result = match &run.step {
            ProtocolStep::ReduceLinear { reduction, .. } => linear_round::verify_round(
                input,
                reduction,
                tape.linear_challenges.as_slice(),
                tape.linear_eval,
            ),
            _ => Err(Error::InvalidAssert),
        };
        let linear_output = match linear_result {
            Ok(output) => output,
            Err(error) => {
                assert(!round_checks(
                    *trace,
                    bit_challenge,
                    lane_weights@,
                    rounds@,
                    t as int,
                ));
                return Err(error);
            },
        };
        run = run.after_linear(linear_output, tape.input_weights);
        left = t;
    }
    proof {
        assert forall|t: int| 0 <= t < 24 implies {
            let n = pow2(high_point@.len());
            let bit_weights = bit_weights_at(bit_challenge);
            let chi = (#[trigger] rounds@[t]).chi_iota_challenges@.reverse();
            let linear = rounds@[t].linear_challenges@.reverse();
            &&& rounds@[t].chi_iota_eval == composed(
                combined(eq_table(chi), table_instances(trace.rounds@[t].pre_chi, n)),
                if t < 23 {
                    rounds@[t + 1].input_weights@
                } else {
                    lane_weights@
                },
                t,
                bit_weights,
            )
            &&& rounds@[t].linear_eval == linear_value(
                combined(eq_table(linear), table_instances(trace.rounds@[t].input, n)),
                rounds@[t].pre_chi_weights@,
                bit_weights,
            )
        } by {
            assert(round_checks(*trace, bit_challenge, lane_weights@, rounds@, t));
        }
    }
    match run.endpoint_claims() {
        Some(claims) => Ok(claims),
        None => Err(Error::InvalidAssert),
    }
}

/// What one round of the chain takes from its channel on the prover side, and the evaluations that
/// its provers ended with.
pub struct ProverRound<F> {
    /// The challenges of the `chi+iota` reduction, in the order of its rounds.
    pub chi_iota_challenges: Vec<F>,
    /// The evaluations that the `chi+iota` prover ended with.
    pub pre_chi_evals: Vec<F>,
    /// The weights of the claim before chi.
    pub pre_chi_weights: [F; 25],
    /// The challenges of the linear reduction, in the order of its rounds.
    pub linear_challenges: Vec<F>,
    /// The evaluations that the linear prover ended with.
    pub linear_evals: Vec<F>,
    /// The weights of the claim on the round input.
    pub input_weights: [F; 25],
}

/// Prove the full standalone 24-round KeccakCheck over an explicit public trace, from what its
/// rounds took from their channel and from the evaluations that their provers ended with.
///
/// `rounds[t]` belongs to round `t` of the permutation; the chain runs from the last round to the
/// first.
pub fn prove<F: BinaryField>(
    trace: &FullTrace<F>,
    bit_challenge: F,
    high_point: &[F],
    lane_weights: [F; 25],
    rounds: &[ProverRound<F>],
) -> (r: Result<EndpointClaims<F>, Error>)
    requires
        trace.rounds@.len() == 24 && has_one_dimension(*trace) ==> has_high_vars(
            trace.final_output,
            high_point@.len(),
        ),
        rounds@.len() == 24,
        forall|t: int|
            0 <= t < 24 ==> (#[trigger] rounds@[t]).chi_iota_challenges@.len() == high_point@.len()
                && rounds@[t].linear_challenges@.len() == high_point@.len(),
    ensures
        trace.rounds@.len() != 24 ==> r == Err::<EndpointClaims<F>, Error>(
            Error::InvalidClaim(ClaimFault::TraceLength),
        ),
        trace.rounds@.len() == 24 && !has_one_dimension(*trace) ==> r == Err::<
            EndpointClaims<F>,
            Error,
        >(Error::InvalidClaim(ClaimFault::TraceDimensions)),
        trace.rounds@.len() == 24 && has_one_dimension(*trace) && !(forall|t: int|
            0 <= t < 24 ==> (#[trigger] rounds@[t]).pre_chi_evals@.len() == 25
                && rounds@[t].linear_evals@.len() > 0) ==> r == Err::<EndpointClaims<F>, Error>(
            Error::InvalidClaim(ClaimFault::EvaluationCount),
        ),
        trace.rounds@.len() == 24 && has_one_dimension(*trace) && (forall|t: int|
            0 <= t < 24 ==> (#[trigger] rounds@[t]).pre_chi_evals@.len() == 25
                && rounds@[t].linear_evals@.len() > 0) ==> (r matches Ok(claims) && is_claim_on(
            claims.output_claim,
            table_instances(trace.final_output, pow2(high_point@.len())),
            bit_challenge,
            high_point@,
            lane_weights@,
        ) && is_claim_on(
            claims.input_claim,
            table_instances(trace.rounds@[0].input, pow2(high_point@.len())),
            bit_challenge,
            rounds@[0].linear_challenges@.reverse(),
            rounds@[0].input_weights@,
        )),
{
    let mut run = match KeccakProtocol::start(trace, bit_challenge, high_point, lane_weights) {
        Ok(run) => run,
        Err(error) => {
            return Err(error);
        },
    };
    let ghost h = high_point@.len();
    proof {
        assert(trace.final_output[0]@.len() == 64 * pow2(h));
        assert(trace.final_output[0]@.len() == trace.rounds@[0].input[0]@.len());
    }
    let ghost output_claim = run.output_claim;
    let mut left: usize = 24;
    while left > 0
        invariant
            left <= 24,
            h == high_point@.len(),
            trace.rounds@.len() == 24,
            has_one_dimension(*trace),
            trace.rounds@[0].input[0]@.len() == 64 * pow2(h),
            rounds@.len() == 24,
            forall|t: int|
                0 <= t < 24 ==> (#[trigger] rounds@[t]).chi_iota_challenges@.len() == h
                    && rounds@[t].linear_challenges@.len() == h,
            run.is_valid(),
            run.output_claim == output_claim,
            forall|t: int|
                left <= t < 24 ==> (#[trigger] rounds@[t]).pre_chi_evals@.len() == 25
                    && rounds@[t].linear_evals@.len() > 0,
            left > 0 ==> (run.step matches ProtocolStep::ReduceChiIota(reduction)
                && reduction.round == left - 1 && reduction.output_claim.bit_challenge
                == bit_challenge && reduction.output_claim.high_point@.len() == h),
            left == 0 ==> (run.step matches ProtocolStep::Finished { input_claim } && is_claim_on(
                input_claim,
                table_instances(trace.rounds@[0].input, pow2(h)),
                bit_challenge,
                rounds@[0].linear_challenges@.reverse(),
                rounds@[0].input_weights@,
            )),
        decreases left,
    {
        let t: usize = left - 1;
        let tape = &rounds[t];
        let input = &trace.rounds[t].input;
        let output = trace.round_output(t);
        proof {
            assert(has_length(trace.rounds@[t as int].input, 64 * pow2(h)));
            if t < 23 {
                assert(has_length(trace.rounds@[t + 1].input, 64 * pow2(h)));
            }
            assert(has_high_vars(*input, h));
            assert(has_high_vars(*output, h));
        }
        let chi_iota_result = match &run.step {
            ProtocolStep::ReduceChiIota(reduction) => chi_iota::prove_round(
                output,
                reduction,
                tape.chi_iota_challenges.as_slice(),
                tape.pre_chi_evals.as_slice(),
            ),
            _ => Err(Error::InvalidAssert),
        };
        let chi_iota_output = match chi_iota_result {
            Ok(output) => output,
            Err(error) => {
                assert(rounds@[t as int].pre_chi_evals@.len() != 25);
                return Err(error);
            },
        };
        run = run.after_chi_iota(chi_iota_output, tape.pre_chi_weights);
        let linear_result = match &run.step {
            ProtocolStep::ReduceLinear { reduction, .. } => linear_round::prove_round(
                input,
                reduction,
                tape.linear_challenges.as_slice(),
                tape.linear_evals.as_slice(),
            ),
            _ => Err(Error::InvalidAssert),
        };
        let linear_output = match linear_result {
            Ok(output) => output,
            Err(error) => {
                assert(rounds@[t as int].linear_evals@.len() == 0);
                return Err(error);
            },
        };
        run = run.after_linear(linear_output, tape.input_weights);
        left = t;
    }
    match run.endpoint_claims() {
        Some(claims) => Ok(claims),
        None => Err(Error::InvalidAssert),
    }
}

} // verus!
