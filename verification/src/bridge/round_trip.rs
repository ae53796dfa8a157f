//! Round trips: what a prover channel makes of a relation, a verifier channel accepts for that
//! relation, and refuses for others.

use vstd::arithmetic::power2::{lemma2_to64, lemma_pow2_adds, pow2};
use vstd::prelude::*;

use super::channel::{
    are_openings, is_reduced_opening, AkitaClaimReducedProverChannel,
    AkitaClaimReducedVerifierChannel, ClaimReducedRelation, HachiSuccinctProverChannel,
    HachiSuccinctVerifierChannel, SuccinctRelation,
};
use super::error::ChannelError;
use super::fp128::{residue, residues};
use super::masks::{bit_table, selected_mask};
use super::parity::{
    holds_counts, law_accepted_claim_is_linear_claim, linear_claim, selected_products,
};
use super::prover::{
    is_honest_tape, law_honest_relation_is_accepted, law_opened_value_is_determined,
};
use super::relation::{
    is_invertible, lemma_sums_are_unique, sums_accepted, BridgeTape, OpeningClaim,
};
use super::statements::{
    ClaimReducedProof, ClaimReducedStatement, HachiSuccinctStatement, SuccinctProof,
};
use super::structured::{law_constant_evaluation, repeated};
use crate::ghash::B128;
use crate::multilinear::evaluation;

verus! {

/// Whether an opening claim is true of a bit table: behind the coordinate that selects the bits,
/// its point has the claimed value.
pub open spec fn is_true_opening(o: OpeningClaim, table: Seq<int>) -> bool {
    let point = residues(o.point@);
    &&& point.len() > 0
    &&& point[0] == 1
    &&& o.value@ == residue(evaluation(table, point.skip(1)))
}

/// Whether a commitment scheme accepts every pair of true openings of an oracle.
pub open spec fn accepts_true_pairs<V: Fn(usize, &OpeningClaim, &OpeningClaim) -> bool>(
    opens: V,
    index: usize,
    table: Seq<int>,
) -> bool {
    forall|a: &OpeningClaim, b: &OpeningClaim|
        is_true_opening(*a, table) && is_true_opening(*b, table) ==> !(#[trigger] opens.ensures(
            (index, a, b),
            false,
        ))
}

/// Whether a commitment scheme accepts every true opening of an oracle.
pub open spec fn accepts_true_openings<V: Fn(usize, &OpeningClaim) -> bool>(
    opens: V,
    index: usize,
    table: Seq<int>,
) -> bool {
    forall|o: &OpeningClaim|
        is_true_opening(*o, table) ==> !(#[trigger] opens.ensures((index, o), false))
}

/// A proof of the succinct bridge is accepted for its relation: no check can fail, with any error,
/// so that verifying the relation succeeds. The commitment scheme has to accept true openings.
pub proof fn law_succinct_round_trip<V: Fn(usize, &OpeningClaim, &OpeningClaim) -> bool>(
    prover: HachiSuccinctProverChannel,
    verifier: HachiSuccinctVerifierChannel,
    s: HachiSuccinctStatement,
    p: SuccinctProof,
    relation: SuccinctRelation,
    opens: V,
    e: ChannelError,
)
    requires
        prover.fits(s),
        prover.proves(s, p),
        verifier.fits(relation),
        verifier.log_len(relation) == prover.tables.specs()[s.oracle.position() as int].log_msg_len,
        relation.transparent@ == s.transparent@,
        relation.claim == p.claim,
        relation.tape == p.tape,
        relation.transparent_eval == evaluation(relation.transparent@, relation.point@),
        accepts_true_pairs(opens, relation.oracle.position() as usize, bit_table(s.message@)),
    ensures
        !verifier.relation_fails(relation, opens, e),
{
    let index = relation.oracle.position() as usize;
    let table = bit_table(s.message@);
    assert forall|a: &OpeningClaim, b: &OpeningClaim| #[trigger]
        opens.ensures((index, a, b), false) implies !are_openings(relation.tape, *a, *b) by {
        if are_openings(relation.tape, *a, *b) {
            let (sp, bp) = (
                residues(relation.tape.selected.challenges@),
                residues(relation.tape.booleanity.challenges@),
            );
            assert(residues(a.point@).skip(1) =~= sp);
            assert(residues(b.point@).skip(1) =~= bp);
            assert(is_true_opening(*a, table) && is_true_opening(*b, table));
        }
    }
}

/// The round trip for a relation with the same coefficient everywhere, whose transparent polynomial
/// is that constant.
pub proof fn law_constant_succinct_round_trip<V: Fn(usize, &OpeningClaim, &OpeningClaim) -> bool>(
    prover: HachiSuccinctProverChannel,
    verifier: HachiSuccinctVerifierChannel,
    s: HachiSuccinctStatement,
    p: SuccinctProof,
    coefficient: B128,
    relation: SuccinctRelation,
    opens: V,
    e: ChannelError,
)
    requires
        prover.fits(s),
        prover.proves(s, p),
        s.transparent@ == repeated(coefficient, s.transparent@.len()),
        verifier.fits(relation),
        verifier.log_len(relation) == prover.tables.specs()[s.oracle.position() as int].log_msg_len,
        relation.transparent@ == s.transparent@,
        relation.claim == linear_claim(s.message@, s.transparent@),
        relation.tape == p.tape,
        relation.transparent_eval == coefficient,
        accepts_true_pairs(opens, relation.oracle.position() as usize, bit_table(s.message@)),
    ensures
        !verifier.relation_fails(relation, opens, e),
{
    law_constant_evaluation(coefficient, relation.point@);
    law_succinct_round_trip(prover, verifier, s, p, relation, opens, e);
}

/// What an honest prover sends for one relation is refused for another one, whatever the claim,
/// unless the masks of the two relations, times the opened value, agree at the point of the
/// sumcheck.
pub proof fn law_tape_is_refused_for_other_relations(
    tape: BridgeTape,
    oracle: Seq<B128>,
    transparent: Seq<B128>,
    rounds: nat,
    other: Seq<B128>,
    claim: B128,
)
    requires
        oracle.len() == transparent.len(),
        128 * oracle.len() == pow2(rounds),
        is_honest_tape(tape, oracle, transparent, rounds),
        ({
            let sp = residues(tape.selected.challenges@);
            residue(tape.selected_opening@ * evaluation(selected_mask(other, tape.alpha@), sp))
                != residue(
                tape.selected_opening@ * evaluation(selected_mask(transparent, tape.alpha@), sp),
            )
        }),
    ensures
        !tape.accepted(rounds, other, claim),
{
    let right = linear_claim(oracle, transparent);
    law_honest_relation_is_accepted(tape, oracle, transparent, rounds);
    let (b0, s0) = choose|b0: Seq<u64>, s0: Seq<u64>| #[trigger]
        sums_accepted(tape.parity_bytes@, transparent, right, b0, s0) && tape.sumchecks_accepted(
            rounds,
            transparent,
            s0,
        );
    assert forall|bounds: Seq<u64>, sums: Seq<u64>| #[trigger]
        sums_accepted(tape.parity_bytes@, other, claim, bounds, sums) implies !(
    tape.sumchecks_accepted(rounds, other, sums)) by {}
}

/// What an honest prover sends for a relation is refused for every claim but the linear claim.
pub proof fn law_tape_is_refused_for_other_claims(
    tape: BridgeTape,
    oracle: Seq<B128>,
    transparent: Seq<B128>,
    rounds: nat,
    claim: B128,
)
    requires
        oracle.len() == transparent.len(),
        is_honest_tape(tape, oracle, transparent, rounds),
        claim != linear_claim(oracle, transparent),
    ensures
        !tape.accepted(rounds, transparent, claim),
{
    let right = linear_claim(oracle, transparent);
    let (b0, s0) = choose|b0: Seq<u64>, s0: Seq<u64>| #[trigger]
        sums_accepted(tape.parity_bytes@, transparent, right, b0, s0)
            && holds_counts(s0, selected_products(oracle, transparent), 1);
    assert forall|bounds: Seq<u64>, sums: Seq<u64>| !(#[trigger] sums_accepted(
        tape.parity_bytes@,
        transparent,
        claim,
        bounds,
        sums,
    )) by {
        if sums_accepted(tape.parity_bytes@, transparent, claim, bounds, sums) {
            lemma_sums_are_unique(
                tape.parity_bytes@,
                transparent,
                claim,
                b0,
                s0,
                bounds,
                sums,
            );
            law_accepted_claim_is_linear_claim(oracle, transparent, sums, bounds, claim);
        }
    }
}

/// A proof of the succinct bridge is refused for a changed relation: for another claim, and for
/// other coefficients unless the masks, times the opened value, agree at the point of the sumcheck.
/// Then verifying the relation fails, whatever the commitment scheme says.
pub proof fn law_succinct_changes_are_refused<
    V: Fn(usize, &OpeningClaim, &OpeningClaim) -> bool,
>(
    prover: HachiSuccinctProverChannel,
    verifier: HachiSuccinctVerifierChannel,
    s: HachiSuccinctStatement,
    p: SuccinctProof,
    relation: SuccinctRelation,
    opens: V,
)
    requires
        prover.fits(s),
        prover.proves(s, p),
        verifier.log_len(relation) == prover.tables.specs()[s.oracle.position() as int].log_msg_len,
        relation.tape == p.tape,
        ({
            let tape = p.tape;
            let sp = residues(tape.selected.challenges@);
            let was = evaluation(selected_mask(s.transparent@, tape.alpha@), sp);
            let is = evaluation(selected_mask(relation.transparent@, tape.alpha@), sp);
            ||| relation.transparent@ == s.transparent@ && relation.claim != p.claim
            ||| residue(tape.selected_opening@ * is) != residue(tape.selected_opening@ * was)
        }),
    ensures
        !verifier.relation_holds(relation, opens),
        verifier.relation_fails(relation, opens, ChannelError::ProofEmpty),
{
    let rounds = prover.tables.rounds(s.oracle.position());
    lemma2_to64();
    lemma_pow2_adds(verifier.log_len(relation) as nat, 7);
    if relation.transparent@ == s.transparent@ && relation.claim != p.claim {
        law_tape_is_refused_for_other_claims(
            p.tape,
            s.message@,
            s.transparent@,
            rounds,
            relation.claim,
        );
    } else {
        law_tape_is_refused_for_other_relations(
            p.tape,
            s.message@,
            s.transparent@,
            rounds,
            relation.transparent@,
            relation.claim,
        );
    }
}

/// A proof of the claim-reduced bridge is accepted for its relation: no check can fail, with any
/// error. The opening proof has to have the expected shape, the commitment scheme has to accept
/// true openings, and the value of the combined indicator must be one that can be divided by.
pub proof fn law_claim_reduced_round_trip<V: Fn(usize, &OpeningClaim) -> bool>(
    prover: AkitaClaimReducedProverChannel,
    verifier: AkitaClaimReducedVerifierChannel,
    s: ClaimReducedStatement,
    p: ClaimReducedProof,
    relation: ClaimReducedRelation,
    opens: V,
    e: ChannelError,
)
    requires
        prover.fits(s),
        prover.proves(s, p),
        is_invertible(p.tape.indicator()),
        verifier.fits(relation),
        verifier.log_len(relation) == prover.tables.specs()[s.oracle.position() as int].log_msg_len,
        relation.transparent@ == s.transparent@,
        relation.claim == p.claim,
        relation.tape == p.tape,
        relation.schedule.leads_to(relation.shape),
        relation.transparent_eval == evaluation(relation.transparent@, relation.point@),
        accepts_true_openings(opens, relation.oracle.position() as usize, bit_table(s.message@)),
    ensures
        !verifier.relation_fails(relation, opens, e),
{
    let index = relation.oracle.position() as usize;
    let table = bit_table(s.message@);
    let rounds = (verifier.log_len(relation) + 7) as nat;
    assert forall|o: &OpeningClaim| #[trigger] opens.ensures((index, o), false) implies !(
    is_reduced_opening(relation.tape, rounds, *o)) by {
        if is_reduced_opening(relation.tape, rounds, *o) {
            let rp = residues(relation.tape.reduction.challenges@);
            assert(residues(o.point@).skip(1) =~= rp);
            law_opened_value_is_determined(o.value@, p.b_final@, p.tape.indicator());
            o.value.lemma_view();
            p.b_final.lemma_view();
            assert(is_true_opening(*o, table));
        }
    }
}

} // verus!
