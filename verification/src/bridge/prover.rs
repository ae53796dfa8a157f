//! The prover's side of one oracle relation.
//!
//! `RelationProver` gives the messages of the transcript one after the other, for a caller that
//! samples the challenges in between. The functions that take all challenges at once run it to the
//! end and return the tape that the verifier sees.

use vstd::arithmetic::power2::{lemma2_to64, lemma_pow2_adds, pow2};
use vstd::prelude::*;

use super::booleanity::{
    honest_weighted_rounds, law_booleanity_of_bits, law_booleanity_sumcheck_is_complete,
    prove_weighted_booleanity_sumcheck, BooleanitySumcheckProver,
};
use super::claim_reduction::{
    combined_indicator, combined_value, law_claim_reduction_is_complete,
    prove_claim_reduction_sumcheck_transcript, start_claim_reduction,
};
use super::error::BatchedParityBridgeError;
use super::fp128::{
    are_inverse, lemma_congruent, lemma_congruent_to_residue, lemma_modulus, lemma_residue_of_small,
    residue, residues, Fp128,
};
use super::masks::{
    batched_selected_sum_table_mask, bit_table, law_selected_sum, selected_mask, BitSliceOracle,
};
use super::packing::pack_bounded_u64_array;
use super::parity::{
    basis_products, holds_counts, law_bounds_exclude_overflow_of_sums, law_honest_parities_hold,
    linear_claim, parity_holds, parity_sum_bounds, prove_terminal_linear_claim, reports_overflow,
    selected_products, tally, BiniusScalar,
};
use super::product::{
    evaluations, honest_rounds, law_single_product_is_complete, lemma_single_total,
    prove_product_sumcheck, tables_of, valid_tables, ProductSumcheckProver,
};
use super::relation::{
    is_invertible, sums_accepted, BridgeTape, ClaimReducedTape,
};
use super::rounds::{rounds_of, BooleanitySumcheckTape, ProductSumcheckTape};
use super::tables::{copy_table, eq_product, reduced};
use crate::field::Ring;
use crate::ghash::B128;
use crate::multilinear::{dot, eq_table, evaluation};
use crate::powers::is_power_of_two;

verus! {

/// The prover's state for one relation.
#[derive(Debug, PartialEq, Eq)]
pub struct RelationProver {
    /// The claimed value of the relation.
    pub claim: BiniusScalar,
    /// The packed selected-bit sums: the first message.
    pub parity_bytes: Vec<u8>,
    /// The bit table of the oracle.
    pub bit_table: Vec<Fp128>,
    /// The coefficients of the relation.
    pub transparent: Vec<BiniusScalar>,
}

/// Whether packed bytes hold the selected-bit sums of an oracle.
pub open spec fn are_packed_sums(
    parity_bytes: Seq<u8>,
    oracle: Seq<B128>,
    transparent: Seq<B128>,
) -> bool {
    exists|bounds: Seq<u64>, sums: Seq<u64>| #[trigger]
        sums_accepted(parity_bytes, transparent, linear_claim(oracle, transparent), bounds, sums)
            && holds_counts(sums, selected_products(oracle, transparent), 1)
}

/// Returns a copy of scalars.
fn copy_scalars(values: &[BiniusScalar]) -> (r: Vec<BiniusScalar>)
    ensures
        r@ == values@,
{
    let mut out: Vec<BiniusScalar> = Vec::with_capacity(values.len());
    let mut i: usize = 0;
    while i < values.len()
        invariant
            i <= values@.len(),
            out@ == values@.take(i as int),
        decreases values@.len() - i,
    {
        out.push(values[i]);
        i = i + 1;
    }
    assert(values@.take(i as int) =~= values@);
    out
}

/// Returns the bit table of an oracle.
pub fn oracle_bit_table(oracle: &[BiniusScalar]) -> (r: Vec<Fp128>)
    requires
        128 * oracle@.len() <= usize::MAX,
    ensures
        residues(r@) == bit_table(oracle@),
{
    let slices: BitSliceOracle = BitSliceOracle::from_binius_oracle(oracle);
    slices.to_bit_table_evals()
}

impl RelationProver {
    /// Whether the state is that of an oracle and coefficients.
    pub open spec fn proves(&self, oracle: Seq<B128>, transparent: Seq<B128>) -> bool {
        &&& self.claim == linear_claim(oracle, transparent)
        &&& are_packed_sums(self.parity_bytes@, oracle, transparent)
        &&& residues(self.bit_table@) == bit_table(oracle)
        &&& self.transparent@ == transparent
    }

    /// Starts the proof of a relation, unless the public bounds of the sums overflow.
    pub fn start(oracle: &[BiniusScalar], transparent: &[BiniusScalar]) -> (r: Result<
        Self,
        BatchedParityBridgeError,
    >)
        requires
            oracle@.len() == transparent@.len(),
            128 * oracle@.len() <= usize::MAX,
        ensures
            match r {
                Ok(p) => p.proves(oracle@, transparent@),
                Err(e) => reports_overflow(e, basis_products(transparent@), 1),
            },
    {
        let bounds: [u64; 128] = match parity_sum_bounds(transparent) {
            Ok(bounds) => bounds,
            Err(e) => {
                return Err(e);
            },
        };
        let (claim, parity) = match prove_terminal_linear_claim(oracle, transparent) {
            Ok(proved) => proved,
            Err(e) => {
                proof {
                    law_bounds_exclude_overflow_of_sums(oracle@, transparent@, bounds@, e);
                }
                return Err(e);
            },
        };
        proof {
            law_honest_parities_hold(oracle@, transparent@, parity.opened_sums@, bounds@);
            assert forall|k: int| 0 <= k < 128 implies #[trigger] parity.opened_sums@[k]
                <= bounds@[k] by {
                assert(parity_holds(parity.opened_sums@, bounds@, claim, k));
            }
        }
        match pack_bounded_u64_array(&parity.opened_sums, &bounds) {
            Some(parity_bytes) => {
                let table: Vec<Fp128> = oracle_bit_table(oracle);
                proof {
                    assert(sums_accepted(
                        parity_bytes@,
                        transparent@,
                        claim,
                        bounds@,
                        parity.opened_sums@,
                    ));
                }
                Ok(
                    RelationProver {
                        claim,
                        parity_bytes,
                        bit_table: table,
                        transparent: copy_scalars(transparent),
                    },
                )
            },
            None => {
                assert(false);
                Err(BatchedParityBridgeError::InvalidSumcheck)
            },
        }
    }

    /// Starts the sumcheck of the batched sums.
    pub fn start_selected(&self, alpha: Fp128) -> (r: Result<
        ProductSumcheckProver,
        BatchedParityBridgeError,
    >)
        requires
            128 * self.transparent@.len() <= usize::MAX,
        ensures
            match r {
                Ok(prover) => prover.is_valid() && tables_of(prover.lefts@) == seq![
                    residues(self.bit_table@),
                ] && tables_of(prover.rights@) == seq![
                    reduced(selected_mask(self.transparent@, alpha@)),
                ],
                Err(e) => e == BatchedParityBridgeError::InvalidSumcheck && !(self.bit_table@.len()
                    == 128 * self.transparent@.len() && is_power_of_two(
                    self.bit_table@.len() as int,
                )),
            },
    {
        let mut lefts: Vec<Vec<Fp128>> = Vec::with_capacity(1);
        let mut rights: Vec<Vec<Fp128>> = Vec::with_capacity(1);
        lefts.push(copy_table(self.bit_table.as_slice()));
        rights.push(batched_selected_sum_table_mask(self.transparent.as_slice(), alpha));
        proof {
            let mask = selected_mask(self.transparent@, alpha@);
            assert(tables_of(lefts@) =~= seq![residues(self.bit_table@)]);
            assert(tables_of(rights@) =~= seq![reduced(mask)]);
            if self.bit_table@.len() == 128 * self.transparent@.len() && is_power_of_two(
                self.bit_table@.len() as int,
            ) {
                assert(valid_tables(tables_of(lefts@), tables_of(rights@)));
            }
        }
        ProductSumcheckProver::new(lefts.as_slice(), rights.as_slice())
    }

    /// Starts the sumcheck of Booleanity.
    pub fn start_booleanity(&self, weight_point: &[Fp128]) -> (r: Result<
        BooleanitySumcheckProver,
        BatchedParityBridgeError,
    >)
        ensures
            match r {
                Ok(p) => p.is_valid() && self.bit_table@.len() == pow2(weight_point@.len())
                    && p.bits@ == self.bit_table@ && residues(p.weights@) == reduced(
                    eq_table(residues(weight_point@)),
                ),
                Err(e) => e == BatchedParityBridgeError::InvalidSumcheck && self.bit_table@.len()
                    != pow2(weight_point@.len()),
            },
    {
        BooleanitySumcheckProver::new(self.bit_table.as_slice(), weight_point)
    }

    /// Starts the sumcheck of the claim reduction.
    pub fn start_reduction(
        &self,
        selected_point: &[Fp128],
        bool_point: &[Fp128],
        alpha: Fp128,
    ) -> (r: Result<ProductSumcheckProver, BatchedParityBridgeError>)
        ensures
            match r {
                Ok(prover) => {
                    &&& selected_point@.len() == bool_point@.len()
                    &&& self.bit_table@.len() == pow2(selected_point@.len())
                    &&& prover.is_valid()
                    &&& tables_of(prover.lefts@) == seq![residues(self.bit_table@)]
                    &&& tables_of(prover.rights@) == seq![
                        reduced(
                            combined_indicator(
                                residues(selected_point@),
                                residues(bool_point@),
                                alpha@,
                            ),
                        ),
                    ]
                },
                Err(e) => e == BatchedParityBridgeError::InvalidSumcheck && !(selected_point@.len()
                    == bool_point@.len() && self.bit_table@.len() == pow2(selected_point@.len())),
            },
    {
        start_claim_reduction(self.bit_table.as_slice(), selected_point, bool_point, alpha)
    }
}

/// The challenges of a relation, up to the two openings of the bit table.
#[derive(Debug, PartialEq, Eq)]
pub struct BridgeChallenges {
    pub alpha: Fp128,
    pub selected: Vec<Fp128>,
    pub bool_weight_point: Vec<Fp128>,
    pub booleanity: Vec<Fp128>,
}

impl BridgeChallenges {
    /// Whether there is a challenge for each round.
    pub open spec fn has_rounds(&self, rounds: nat) -> bool {
        &&& self.selected@.len() == rounds
        &&& self.bool_weight_point@.len() == rounds
        &&& self.booleanity@.len() == rounds
    }
}

/// Whether a tape was sampled with given challenges.
pub open spec fn sampled_with(tape: BridgeTape, challenges: BridgeChallenges) -> bool {
    &&& tape.alpha == challenges.alpha
    &&& tape.selected.challenges@ == challenges.selected@
    &&& tape.bool_weight_point@ == challenges.bool_weight_point@
    &&& tape.booleanity.challenges@ == challenges.booleanity@
}

/// The entries of a bit table are bits.
proof fn lemma_bits(oracle: Seq<B128>)
    ensures
        forall|m: int|
            0 <= m < bit_table(oracle).len() ==> 0 <= #[trigger] bit_table(oracle)[m] < 2,
{
}

/// Proves a relation of the succinct bridge for given challenges.
///
/// Returns the state and the tape of the honest prover, which is accepted for the claim of the
/// state.
pub fn prove_succinct_relation(
    log_msg_len: usize,
    oracle: &[BiniusScalar],
    transparent: &[BiniusScalar],
    challenges: &BridgeChallenges,
) -> (r: Result<(RelationProver, BridgeTape), BatchedParityBridgeError>)
    requires
        log_msg_len <= usize::MAX - 7,
        oracle@.len() == pow2(log_msg_len as nat),
        transparent@.len() == pow2(log_msg_len as nat),
        128 * oracle@.len() <= usize::MAX,
        challenges.has_rounds((log_msg_len + 7) as nat),
    ensures
        match r {
            Ok((prover, tape)) => {
                &&& prover.proves(oracle@, transparent@)
                &&& sampled_with(tape, *challenges)
                &&& is_honest_tape(tape, oracle@, transparent@, (log_msg_len + 7) as nat)
                &&& tape.accepted((log_msg_len + 7) as nat, transparent@, prover.claim)
            },
            Err(e) => reports_overflow(e, basis_products(transparent@), 1),
        },
{
    let prover: RelationProver = match RelationProver::start(oracle, transparent) {
        Ok(p) => p,
        Err(e) => {
            return Err(e);
        },
    };
    let ghost table = bit_table(oracle@);
    let ghost mask = selected_mask(transparent@, challenges.alpha@);
    let ghost rounds = (log_msg_len + 7) as nat;
    proof {
        lemma2_to64();
        lemma_pow2_adds(log_msg_len as nat, 7);
        assert(table.len() == pow2(rounds));
        assert(residues(prover.bit_table@).len() == table.len());
    }
    let start: ProductSumcheckProver = match prover.start_selected(challenges.alpha) {
        Ok(p) => p,
        Err(e) => {
            assert(false);
            return Err(e);
        },
    };
    let selected = prove_product_sumcheck(
        start.lefts.as_slice(),
        start.rights.as_slice(),
        challenges.selected.as_slice(),
    );
    let booleanity = prove_weighted_booleanity_sumcheck(
        prover.bit_table.as_slice(),
        challenges.bool_weight_point.as_slice(),
        challenges.booleanity.as_slice(),
    );
    proof {
        assert(tables_of(start.lefts@)[0] == residues(start.lefts@[0]@));
        assert(start.lefts@[0]@.len() == pow2(rounds));
    }
    match (selected, booleanity) {
        (
            Ok((selected_claim, selected_proof, selected_openings, _)),
            Ok((bool_claim, bool_proof, bool_opening)),
        ) => {
            proof {
                assert(residues(selected_openings@).len() == evaluations(
                    seq![table],
                    residues(challenges.selected@),
                ).len());
                assert(residues(selected_openings@)[0] == evaluations(
                    seq![table],
                    residues(challenges.selected@),
                )[0]);
            }
            let tape = BridgeTape {
                parity_bytes: copy_bytes(prover.parity_bytes.as_slice()),
                alpha: challenges.alpha,
                selected: ProductSumcheckTape {
                    initial_claim: selected_claim,
                    proof: selected_proof,
                    challenges: copy_table(challenges.selected.as_slice()),
                },
                bool_weight_point: copy_table(challenges.bool_weight_point.as_slice()),
                booleanity: BooleanitySumcheckTape {
                    initial_claim: bool_claim,
                    proof: bool_proof,
                    challenges: copy_table(challenges.booleanity.as_slice()),
                },
                selected_opening: selected_openings[0],
                bool_opening,
            };
            proof {
                lemma_tape_accepted(oracle@, transparent@, rounds, tape);
            }
            Ok((prover, tape))
        },
        _ => {
            assert(false);
            Err(BatchedParityBridgeError::InvalidSumcheck)
        },
    }
}

/// Returns a copy of bytes.
fn copy_bytes(bytes: &[u8]) -> (r: Vec<u8>)
    ensures
        r@ == bytes@,
{
    let mut out: Vec<u8> = Vec::with_capacity(bytes.len());
    let mut i: usize = 0;
    while i < bytes.len()
        invariant
            i <= bytes@.len(),
            out@ == bytes@.take(i as int),
        decreases bytes@.len() - i,
    {
        out.push(bytes[i]);
        i = i + 1;
    }
    assert(bytes@.take(i as int) =~= bytes@);
    out
}

/// Whether a tape holds what an honest prover sends.
pub open spec fn is_honest_tape(
    tape: BridgeTape,
    oracle: Seq<B128>,
    transparent: Seq<B128>,
    rounds: nat,
) -> bool {
    let table = bit_table(oracle);
    let mask = selected_mask(transparent, tape.alpha@);
    let (sp, bp) = (residues(tape.selected.challenges@), residues(tape.booleanity.challenges@));
    let weights = eq_table(residues(tape.bool_weight_point@));
    &&& are_packed_sums(tape.parity_bytes@, oracle, transparent)
    &&& sp.len() == rounds
    &&& bp.len() == rounds
    &&& tape.bool_weight_point@.len() == rounds
    &&& tape.selected.initial_claim@ == residue(dot(table, mask))
    &&& honest_rounds(
        rounds_of(tape.selected.proof.round_evals@),
        seq![table],
        seq![reduced(mask)],
        sp,
    )
    &&& tape.booleanity.initial_claim@ == residue(
        super::booleanity::weighted_total(table, weights),
    )
    &&& honest_weighted_rounds(
        rounds_of(tape.booleanity.proof.round_evals@),
        table,
        weights,
        bp,
    )
    &&& tape.selected_opening@ == residue(evaluation(table, sp))
    &&& tape.bool_opening@ == residue(evaluation(table, bp))
}

/// Whether the claim reduction of a tape holds what an honest prover sends.
pub open spec fn is_honest_reduction(tape: ClaimReducedTape, oracle: Seq<B128>) -> bool {
    let table = bit_table(oracle);
    let sp = residues(tape.bridge.selected.challenges@);
    let bp = residues(tape.bridge.booleanity.challenges@);
    &&& tape.reduction.initial_claim@ == tape.combined_claim()
    &&& honest_rounds(
        rounds_of(tape.reduction.proof.round_evals@),
        seq![table],
        seq![reduced(combined_indicator(sp, bp, tape.cr_alpha@))],
        residues(tape.reduction.challenges@),
    )
}

/// What an honest prover sends is accepted, for the linear claim of the oracle.
pub proof fn law_honest_relation_is_accepted(
    tape: BridgeTape,
    oracle: Seq<B128>,
    transparent: Seq<B128>,
    rounds: nat,
)
    requires
        oracle.len() == transparent.len(),
        128 * oracle.len() == pow2(rounds),
        is_honest_tape(tape, oracle, transparent, rounds),
    ensures
        tape.accepted(rounds, transparent, linear_claim(oracle, transparent)),
{
    let table = bit_table(oracle);
    let mask = selected_mask(transparent, tape.alpha@);
    let (sp, bp) = (residues(tape.selected.challenges@), residues(tape.booleanity.challenges@));
    let weight_point = residues(tape.bool_weight_point@);
    let claim = linear_claim(oracle, transparent);
    let (bounds, sums) = choose|bounds: Seq<u64>, sums: Seq<u64>| #[trigger]
        sums_accepted(tape.parity_bytes@, transparent, claim, bounds, sums) && holds_counts(
            sums,
            selected_products(oracle, transparent),
            1,
        );
    // the sumcheck of the sums
    assert forall|k: int| 0 <= k < 128 implies #[trigger] sums[k] == tally(
        selected_products(oracle, transparent),
        k,
    ) by {
        assert(sums[k] == 1 * tally(selected_products(oracle, transparent), k));
    }
    law_selected_sum(oracle, transparent, tape.alpha@, sums);
    law_single_product_is_complete(
        table,
        mask,
        sp,
        rounds_of(tape.selected.proof.round_evals@),
    );
    let b = evaluation(table, sp);
    let m = evaluation(mask, sp);
    lemma_congruent_to_residue(b);
    lemma_congruent(residue(b), m, b, m);
    // the sumcheck of Booleanity
    lemma_bits(oracle);
    law_booleanity_of_bits(table, eq_table(weight_point));
    lemma_modulus();
    lemma_residue_of_small(0);
    law_booleanity_sumcheck_is_complete(
        table,
        weight_point,
        bp,
        rounds_of(tape.booleanity.proof.round_evals@),
    );
    let c = evaluation(table, bp);
    let w = eq_product(weight_point, bp);
    lemma_congruent_to_residue(c);
    lemma_congruent(w, residue(c), w, c);
    lemma_congruent(residue(c), 1, c, 1);
    lemma_congruent(w * residue(c), residue(c) - 1, w * c, c - 1);
    assert(tape.sumchecks_accepted(rounds, transparent, sums));
}

/// The tape of the honest prover is accepted.
proof fn lemma_tape_accepted(
    oracle: Seq<B128>,
    transparent: Seq<B128>,
    rounds: nat,
    tape: BridgeTape,
)
    requires
        oracle.len() == transparent.len(),
        128 * oracle.len() == pow2(rounds),
        are_packed_sums(tape.parity_bytes@, oracle, transparent),
        tape.selected.challenges@.len() == rounds,
        tape.booleanity.challenges@.len() == rounds,
        tape.bool_weight_point@.len() == rounds,
        tape.selected.initial_claim@ == residue(
            super::product::product_total(
                seq![bit_table(oracle)],
                seq![reduced(selected_mask(transparent, tape.alpha@))],
            ),
        ),
        honest_rounds(
            rounds_of(tape.selected.proof.round_evals@),
            seq![bit_table(oracle)],
            seq![reduced(selected_mask(transparent, tape.alpha@))],
            residues(tape.selected.challenges@),
        ),
        tape.booleanity.initial_claim@ == residue(
            super::booleanity::weighted_total(
                bit_table(oracle),
                eq_table(residues(tape.bool_weight_point@)),
            ),
        ),
        honest_weighted_rounds(
            rounds_of(tape.booleanity.proof.round_evals@),
            bit_table(oracle),
            eq_table(residues(tape.bool_weight_point@)),
            residues(tape.booleanity.challenges@),
        ),
        tape.selected_opening@ == residue(
            evaluation(bit_table(oracle), residues(tape.selected.challenges@)),
        ),
        tape.bool_opening@ == residue(
            evaluation(bit_table(oracle), residues(tape.booleanity.challenges@)),
        ),
    ensures
        is_honest_tape(tape, oracle, transparent, rounds),
        tape.accepted(rounds, transparent, linear_claim(oracle, transparent)),
{
    lemma_single_total(bit_table(oracle), selected_mask(transparent, tape.alpha@));
    law_honest_relation_is_accepted(tape, oracle, transparent, rounds);
}

/// Proves a relation of the claim-reduced bridge for given challenges.
///
/// Returns the state, the tape of the honest prover and the value of the bit table at the final
/// point. The tape is accepted for the claim of the state wherever the value of the combined
/// indicator can be divided by, and then the value is the one that the verifier has opened.
pub fn prove_claim_reduced_relation(
    log_msg_len: usize,
    oracle: &[BiniusScalar],
    transparent: &[BiniusScalar],
    challenges: &BridgeChallenges,
    cr_alpha: Fp128,
    reduction_challenges: &[Fp128],
) -> (r: Result<(RelationProver, ClaimReducedTape, Fp128), BatchedParityBridgeError>)
    requires
        log_msg_len <= usize::MAX - 7,
        oracle@.len() == pow2(log_msg_len as nat),
        transparent@.len() == pow2(log_msg_len as nat),
        128 * oracle@.len() <= usize::MAX,
        challenges.has_rounds((log_msg_len + 7) as nat),
        reduction_challenges@.len() == log_msg_len + 7,
    ensures
        match r {
            Ok((prover, tape, b_final)) => {
                let rounds = (log_msg_len + 7) as nat;
                &&& prover.proves(oracle@, transparent@)
                &&& sampled_with(tape.bridge, *challenges)
                &&& tape.cr_alpha == cr_alpha
                &&& tape.reduction.challenges@ == reduction_challenges@
                &&& b_final@ == residue(
                    evaluation(bit_table(oracle@), residues(reduction_challenges@)),
                )
                &&& is_honest_tape(tape.bridge, oracle@, transparent@, rounds)
                &&& is_honest_reduction(tape, oracle@)
                &&& tape.bridge.accepted(rounds, transparent@, prover.claim)
                &&& tape.reduction.accepted(tape.combined_claim(), rounds) == Some(
                    residue(b_final@ * tape.indicator()),
                )
                &&& is_invertible(tape.indicator()) ==> tape.accepted(
                    rounds,
                    transparent@,
                    prover.claim,
                )
            },
            Err(e) => reports_overflow(e, basis_products(transparent@), 1),
        },
{
    let (prover, bridge) = match prove_succinct_relation(
        log_msg_len,
        oracle,
        transparent,
        challenges,
    ) {
        Ok(proved) => proved,
        Err(e) => {
            return Err(e);
        },
    };
    let ghost table = bit_table(oracle@);
    let ghost rounds = (log_msg_len + 7) as nat;
    proof {
        lemma2_to64();
        lemma_pow2_adds(log_msg_len as nat, 7);
        assert(residues(prover.bit_table@).len() == table.len());
    }
    match prove_claim_reduction_sumcheck_transcript(
        prover.bit_table.as_slice(),
        challenges.selected.as_slice(),
        challenges.booleanity.as_slice(),
        cr_alpha,
        reduction_challenges,
    ) {
        Ok((initial_claim, proof, b_final)) => {
            let tape = ClaimReducedTape {
                bridge,
                cr_alpha,
                reduction: ProductSumcheckTape {
                    initial_claim,
                    proof,
                    challenges: copy_table(reduction_challenges),
                },
            };
            proof {
                let (sp, bp) = (residues(challenges.selected@), residues(challenges.booleanity@));
                let rp = residues(reduction_challenges@);
                let (x, y) = (evaluation(table, sp), evaluation(table, bp));
                lemma_congruent_to_residue(x);
                lemma_congruent_to_residue(y);
                lemma_congruent(cr_alpha@, residue(y), cr_alpha@, y);
                lemma_congruent(residue(x), cr_alpha@ * residue(y), x, cr_alpha@ * y);
                law_claim_reduction_is_complete(
                    table,
                    sp,
                    bp,
                    cr_alpha@,
                    rp,
                    rounds_of(tape.reduction.proof.round_evals@),
                );
                let b = evaluation(table, rp);
                let t = combined_value(sp, bp, cr_alpha@, rp);
                lemma_congruent_to_residue(b);
                lemma_congruent(residue(b), t, b, t);
            }
            Ok((prover, tape, b_final))
        },
        Err(e) => {
            assert(false);
            Err(e)
        },
    }
}

/// Where the combined indicator can be divided by, the opened value is determined.
pub proof fn law_opened_value_is_determined(v: int, w: int, t: int)
    requires
        is_invertible(t),
        residue(v * t) == residue(w * t),
    ensures
        residue(v) == residue(w),
{
    let i = choose|i: int| are_inverse(t, i);
    lemma_modulus();
    lemma_residue_of_small(1);
    lemma_congruent(v * t, i, w * t, i);
    assert(v * t * i == v * (t * i)) by (nonlinear_arith);
    assert(w * t * i == w * (t * i)) by (nonlinear_arith);
    lemma_congruent(v, t * i, v, 1);
    lemma_congruent(w, t * i, w, 1);
}

} // verus!
