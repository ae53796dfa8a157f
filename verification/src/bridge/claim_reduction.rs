//! Reduction of two opening claims on one table to a single one.
//!
//! The claims `B(s) = e_s` and `B(b) = e_b` are combined with a random `alpha` to
//! `sum_x B(x) * (eq(s, x) + alpha * eq(b, x)) = e_s + alpha * e_b`, and a product sumcheck reduces
//! that to one claim on `B` at the challenges.

use vstd::arithmetic::power2::pow2;
use vstd::prelude::*;

use super::error::{BatchedParityBridgeError, ChannelError};
use super::fp128::{
    lemma_congruent, lemma_congruent_to_residue, residue, residues, Fp128,
};
use super::product::{
    evaluations, honest_rounds, law_single_product_is_complete, lemma_single_total,
    product_total, prove_product_sumcheck, tables_of, valid_tables, ProductSumcheckProver,
};
use super::rounds::{
    final_claim, rounds_of, verify_product_sumcheck_transcript, ProductSumcheckProof,
    ProductSumcheckTape,
};
use super::tables::{
    copy_table, eq_product, evaluate_akita_eq, law_eq_product_evaluates_indicator,
    multilinear_eq_evals, reduced,
};
use crate::field::Ring;
use crate::multilinear::{
    dot, eq_table, evaluation, lemma_dot_commutes, lemma_dot_plus, lemma_dot_scaled,
    lemma_eq_table_len, pointwise_plus, scaled,
};
use crate::powers::is_power;

verus! {

/// The combined indicator of the two points.
pub open spec fn combined_indicator(
    selected_point: Seq<int>,
    bool_point: Seq<int>,
    alpha: int,
) -> Seq<int> {
    pointwise_plus(eq_table(selected_point), scaled(alpha, eq_table(bool_point)))
}

/// The value of the combined indicator at a point.
pub open spec fn combined_value(
    selected_point: Seq<int>,
    bool_point: Seq<int>,
    alpha: int,
    r: Seq<int>,
) -> int {
    eq_product(selected_point, r) + alpha * eq_product(bool_point, r)
}

/// The inner product with the combined indicator is the combination of the two values.
pub proof fn law_claims_combine(
    table: Seq<int>,
    selected_point: Seq<int>,
    bool_point: Seq<int>,
    alpha: int,
)
    requires
        table.len() == pow2(selected_point.len()),
        selected_point.len() == bool_point.len(),
    ensures
        dot(table, combined_indicator(selected_point, bool_point, alpha)) == evaluation(
            table,
            selected_point,
        ) + alpha * evaluation(table, bool_point),
{
    let (s, b) = (eq_table(selected_point), eq_table(bool_point));
    let t = combined_indicator(selected_point, bool_point, alpha);
    lemma_eq_table_len(selected_point);
    lemma_eq_table_len(bool_point);
    lemma_dot_commutes(table, t);
    lemma_dot_plus(s, scaled(alpha, b), table);
    lemma_dot_scaled(alpha, b, table);
    lemma_dot_commutes(s, table);
    lemma_dot_commutes(b, table);
}

/// The multilinear extension of the combined indicator.
pub proof fn law_combined_indicator_evaluates(
    selected_point: Seq<int>,
    bool_point: Seq<int>,
    alpha: int,
    r: Seq<int>,
)
    requires
        selected_point.len() == bool_point.len(),
        selected_point.len() == r.len(),
    ensures
        evaluation(combined_indicator(selected_point, bool_point, alpha), r) == combined_value(
            selected_point,
            bool_point,
            alpha,
            r,
        ),
{
    let (s, b) = (eq_table(selected_point), eq_table(bool_point));
    lemma_eq_table_len(selected_point);
    lemma_eq_table_len(bool_point);
    lemma_eq_table_len(r);
    lemma_dot_plus(s, scaled(alpha, b), eq_table(r));
    lemma_dot_scaled(alpha, b, eq_table(r));
    law_eq_product_evaluates_indicator(selected_point, r);
    law_eq_product_evaluates_indicator(bool_point, r);
}

/// Returns the combined indicator of the two points.
fn combined_transparent(selected_point: &[Fp128], bool_point: &[Fp128], alpha: Fp128) -> (r: Vec<
    Fp128,
>)
    requires
        selected_point@.len() == bool_point@.len(),
        pow2(selected_point@.len()) <= usize::MAX,
    ensures
        residues(r@) == reduced(
            combined_indicator(residues(selected_point@), residues(bool_point@), alpha@),
        ),
{
    let eq_selected: Vec<Fp128> = multilinear_eq_evals(selected_point);
    let eq_bool: Vec<Fp128> = multilinear_eq_evals(bool_point);
    let ghost (s, b) = (eq_table(residues(selected_point@)), eq_table(residues(bool_point@)));
    let ghost all = combined_indicator(residues(selected_point@), residues(bool_point@), alpha@);
    proof {
        lemma_eq_table_len(residues(selected_point@));
        lemma_eq_table_len(residues(bool_point@));
    }
    let mut out: Vec<Fp128> = Vec::with_capacity(eq_selected.len());
    let mut i: usize = 0;
    while i < eq_selected.len()
        invariant
            i <= eq_selected@.len(),
            eq_selected@.len() == eq_bool@.len(),
            eq_selected@.len() == s.len(),
            s.len() == b.len(),
            residues(eq_selected@) == reduced(s),
            residues(eq_bool@) == reduced(b),
            all == pointwise_plus(s, scaled(alpha@, b)),
            out@.len() == i,
            forall|j: int| 0 <= j < i ==> (#[trigger] out@[j])@ == residue(all[j]),
        decreases eq_selected@.len() - i,
    {
        let scaled_bool: Fp128 = alpha.mul(eq_bool[i]);
        proof {
            let k = i as int;
            assert(residues(eq_selected@)[k] == reduced(s)[k]);
            assert(residues(eq_bool@)[k] == reduced(b)[k]);
            lemma_congruent_to_residue(s[k]);
            lemma_congruent_to_residue(b[k]);
            lemma_congruent(alpha@, eq_bool@[k]@, alpha@, b[k]);
            lemma_congruent_to_residue(alpha@ * eq_bool@[k]@);
            lemma_congruent(eq_selected@[k]@, scaled_bool@, s[k], alpha@ * b[k]);
        }
        out.push(eq_selected[i].add(scaled_bool));
        i = i + 1;
    }
    assert(residues(out@) =~= reduced(all));
    out
}

/// Starts the sumcheck of a claim reduction, if both points have as many coordinates as the table
/// has variables.
pub fn start_claim_reduction(
    bit_table: &[Fp128],
    selected_point: &[Fp128],
    bool_point: &[Fp128],
    alpha: Fp128,
) -> (r: Result<ProductSumcheckProver, BatchedParityBridgeError>)
    ensures
        match r {
            Ok(prover) => {
                &&& selected_point@.len() == bool_point@.len()
                &&& bit_table@.len() == pow2(selected_point@.len())
                &&& prover.is_valid()
                &&& tables_of(prover.lefts@) == seq![residues(bit_table@)]
                &&& tables_of(prover.rights@) == seq![
                    reduced(
                        combined_indicator(
                            residues(selected_point@),
                            residues(bool_point@),
                            alpha@,
                        ),
                    ),
                ]
            },
            Err(e) => e == BatchedParityBridgeError::InvalidSumcheck && !(selected_point@.len()
                == bool_point@.len() && bit_table@.len() == pow2(selected_point@.len())),
        },
{
    if selected_point.len() != bool_point.len() || !is_power(
        bit_table.len(),
        selected_point.len(),
    ) {
        return Err(BatchedParityBridgeError::InvalidSumcheck);
    }
    assert(bit_table.len() <= usize::MAX);
    let combined: Vec<Fp128> = combined_transparent(selected_point, bool_point, alpha);
    let ghost t = combined_indicator(residues(selected_point@), residues(bool_point@), alpha@);
    let mut lefts: Vec<Vec<Fp128>> = Vec::with_capacity(1);
    let mut rights: Vec<Vec<Fp128>> = Vec::with_capacity(1);
    lefts.push(copy_table(bit_table));
    rights.push(combined);
    proof {
        lemma_eq_table_len(residues(selected_point@));
        assert(tables_of(lefts@) =~= seq![residues(bit_table@)]);
        assert(tables_of(rights@) =~= seq![reduced(t)]);
        assert(valid_tables(tables_of(lefts@), tables_of(rights@)));
    }
    ProductSumcheckProver::new(lefts.as_slice(), rights.as_slice())
}

/// Prove the claim-reduction sumcheck for a sampled `alpha` and sampled challenges.
///
/// Returns the initial claim, the proof and the value of the table at the challenges.
pub fn prove_claim_reduction_sumcheck_transcript(
    bit_table: &[Fp128],
    selected_point: &[Fp128],
    bool_point: &[Fp128],
    alpha: Fp128,
    challenges: &[Fp128],
) -> (r: Result<(Fp128, ProductSumcheckProof, Fp128), BatchedParityBridgeError>)
    ensures
        match r {
            Ok((claim, proof, b_final)) => {
                let (table, cs) = (residues(bit_table@), residues(challenges@));
                let t = reduced(
                    combined_indicator(residues(selected_point@), residues(bool_point@), alpha@),
                );
                &&& selected_point@.len() == bool_point@.len()
                &&& challenges@.len() == selected_point@.len()
                &&& bit_table@.len() == pow2(selected_point@.len())
                &&& claim@ == residue(
                    evaluation(table, residues(selected_point@)) + alpha@ * evaluation(
                        table,
                        residues(bool_point@),
                    ),
                )
                &&& honest_rounds(rounds_of(proof.round_evals@), seq![table], seq![t], cs)
                &&& b_final@ == residue(evaluation(table, cs))
            },
            Err(e) => e == BatchedParityBridgeError::InvalidSumcheck && !(selected_point@.len()
                == bool_point@.len() && bit_table@.len() == pow2(selected_point@.len())
                && challenges@.len() == selected_point@.len()),
        },
{
    let prover: ProductSumcheckProver = match start_claim_reduction(
        bit_table,
        selected_point,
        bool_point,
        alpha,
    ) {
        Ok(p) => p,
        Err(e) => {
            return Err(e);
        },
    };
    let ghost (table, sp, bp) = (
        residues(bit_table@),
        residues(selected_point@),
        residues(bool_point@),
    );
    let ghost t = combined_indicator(sp, bp, alpha@);
    assert(tables_of(prover.lefts@)[0] == residues(prover.lefts@[0]@));
    proof {
        crate::powers::lemma_exponents(challenges@.len(), selected_point@.len());
        crate::powers::lemma_exponents(selected_point@.len(), challenges@.len());
    }
    match prove_product_sumcheck(prover.lefts.as_slice(), prover.rights.as_slice(), challenges) {
        Ok((claim, proof, final_lefts, _)) => {
            proof {
                lemma_reduced_claim(table, sp, bp, alpha@);
                assert(seq![table][0] == table);
                assert(residues(final_lefts@).len() == evaluations(
                    seq![table],
                    residues(challenges@),
                ).len());
                assert(residues(final_lefts@)[0] == evaluations(
                    seq![table],
                    residues(challenges@),
                )[0]);
            }
            Ok((claim, proof, final_lefts[0]))
        },
        Err(e) => Err(e),
    }
}

/// The claim of the reduction is the combination of the two values.
proof fn lemma_reduced_claim(
    table: Seq<int>,
    selected_point: Seq<int>,
    bool_point: Seq<int>,
    alpha: int,
)
    requires
        table.len() == pow2(selected_point.len()),
        selected_point.len() == bool_point.len(),
    ensures
        residue(
            product_total(
                seq![table],
                seq![reduced(combined_indicator(selected_point, bool_point, alpha))],
            ),
        ) == residue(
            evaluation(table, selected_point) + alpha * evaluation(table, bool_point),
        ),
{
    lemma_eq_table_len(selected_point);
    lemma_single_total(table, combined_indicator(selected_point, bool_point, alpha));
    law_claims_combine(table, selected_point, bool_point, alpha);
}

/// Verify the claim-reduction sumcheck from the sampled `alpha` and what was received.
///
/// It remains to check that the value of the table at the challenges, times the value of the
/// combined indicator there, is the returned claim.
pub fn verify_claim_reduction_sumcheck_transcript(
    selected_point: &[Fp128],
    bool_point: &[Fp128],
    e_selected: Fp128,
    e_bool: Fp128,
    num_rounds: usize,
    alpha: Fp128,
    tape: &ProductSumcheckTape,
) -> (r: Result<Fp128, ChannelError>)
    ensures
        match r {
            Ok(claim) => selected_point@.len() == num_rounds && bool_point@.len() == num_rounds
                && tape.accepted(residue(e_selected@ + alpha@ * e_bool@), num_rounds as nat)
                == Some(claim@),
            Err(e) => e == ChannelError::ProofEmpty && !(selected_point@.len() == num_rounds
                && bool_point@.len() == num_rounds && tape.accepted(
                residue(e_selected@ + alpha@ * e_bool@),
                num_rounds as nat,
            ) is Some),
        },
{
    if selected_point.len() != bool_point.len() || selected_point.len() != num_rounds {
        return Err(ChannelError::ProofEmpty);
    }
    let scaled_bool: Fp128 = alpha.mul(e_bool);
    proof {
        lemma_congruent_to_residue(alpha@ * e_bool@);
        lemma_congruent(e_selected@, scaled_bool@, e_selected@, alpha@ * e_bool@);
    }
    let expected_initial_claim: Fp128 = e_selected.add(scaled_bool);
    verify_product_sumcheck_transcript(expected_initial_claim, num_rounds, tape)
}

/// Evaluate the combined indicator at the final point.
pub fn evaluate_claim_reduction_transparent(
    selected_point: &[Fp128],
    bool_point: &[Fp128],
    alpha: Fp128,
    r_final: &[Fp128],
) -> (r: Result<Fp128, BatchedParityBridgeError>)
    ensures
        match r {
            Ok(e) => selected_point@.len() == r_final@.len() && bool_point@.len() == r_final@.len()
                && e@ == residue(
                combined_value(
                    residues(selected_point@),
                    residues(bool_point@),
                    alpha@,
                    residues(r_final@),
                ),
            ),
            Err(e) => e == BatchedParityBridgeError::InvalidSumcheck && (selected_point@.len()
                != r_final@.len() || bool_point@.len() != r_final@.len()),
        },
{
    let es: Fp128 = match evaluate_akita_eq(selected_point, r_final) {
        Some(e) => e,
        None => {
            return Err(BatchedParityBridgeError::InvalidSumcheck);
        },
    };
    let eb: Fp128 = match evaluate_akita_eq(bool_point, r_final) {
        Some(e) => e,
        None => {
            return Err(BatchedParityBridgeError::InvalidSumcheck);
        },
    };
    let scaled_bool: Fp128 = alpha.mul(eb);
    proof {
        let rs = residues(r_final@);
        let (p, q) = (
            eq_product(residues(selected_point@), rs),
            eq_product(residues(bool_point@), rs),
        );
        lemma_congruent_to_residue(p);
        lemma_congruent_to_residue(q);
        lemma_congruent(alpha@, eb@, alpha@, q);
        lemma_congruent_to_residue(alpha@ * eb@);
        lemma_congruent(es@, scaled_bool@, p, alpha@ * q);
    }
    Ok(es.add(scaled_bool))
}

/// An honest claim reduction is accepted for the values of the table at the two points, and leaves
/// the product of the value of the table and of the combined indicator at the challenges.
pub proof fn law_claim_reduction_is_complete(
    table: Seq<int>,
    selected_point: Seq<int>,
    bool_point: Seq<int>,
    alpha: int,
    challenges: Seq<int>,
    rounds: Seq<Seq<int>>,
)
    requires
        table.len() == pow2(challenges.len()),
        selected_point.len() == challenges.len(),
        bool_point.len() == challenges.len(),
        honest_rounds(
            rounds,
            seq![table],
            seq![reduced(combined_indicator(selected_point, bool_point, alpha))],
            challenges,
        ),
    ensures
        final_claim(
            residue(evaluation(table, selected_point) + alpha * evaluation(table, bool_point)),
            rounds,
            challenges,
        ) == Some(
            residue(
                evaluation(table, challenges) * combined_value(
                    selected_point,
                    bool_point,
                    alpha,
                    challenges,
                ),
            ),
        ),
{
    lemma_eq_table_len(selected_point);
    law_single_product_is_complete(
        table,
        combined_indicator(selected_point, bool_point, alpha),
        challenges,
        rounds,
    );
    law_claims_combine(table, selected_point, bool_point, alpha);
    law_combined_indicator_evaluates(selected_point, bool_point, alpha, challenges);
}

} // verus!
