//! What it takes for relations to be accepted by the verifier channels, and what the prover channels
//! keep and send.

use vstd::arithmetic::power2::{
    lemma2_to64, lemma_pow2_adds, lemma_pow2_strictly_increases, lemma_pow2_unfold, pow2,
};
use vstd::prelude::*;

use super::channel::{
    are_openings, is_reduced_opening, is_supported, AkitaClaimReducedVerifierChannel,
    ClaimReducedRelation, CommittedTables, FullOpenRelation, HachiFullOpenVerifierChannel,
    HachiSuccinctVerifierChannel, OracleSpec, SuccinctRelation,
};
use super::error::{BatchedParityBridgeError, ChannelError};
use super::fp128::{residue, residues, Fp128, MODULUS};
use super::interpolation::values_of;
use super::masks::bit_table;
use super::packing::law_packing_is_unique;
use super::parity::{
    basis_products, bit_value, holds_counts, linear_claim, parities_hold, parity_holds,
    reports_parity, selected_products, sums_checked, tally,
};
use super::prover::{is_honest_reduction, is_honest_tape, sampled_with, BridgeChallenges};
use super::relation::{sums_accepted, BridgeTape, ClaimReducedTape, OpeningClaim};
use super::rounds::{final_claim, rounds_of};
use super::statements::{fully_proves, FullOpenProof, FullOpenStatement};
use super::wire::first_residue;
use crate::ghash::B128;
use crate::multilinear::evaluation;

verus! {

/// A relation that the claim-reduced verifier accepts has an accepted tape, an opening proof of the
/// scheduled shape, an opening claim that the commitment scheme accepts, and the right value of the
/// transparent polynomial. The point of the opening is 1 followed by the challenges of the
/// reduction, and its value times the combined indicator is where the reduction ends.
pub proof fn law_held_claim_reduced_relation<V: Fn(usize, &OpeningClaim) -> bool>(
    verifier: AkitaClaimReducedVerifierChannel,
    relation: ClaimReducedRelation,
    opens: V,
) -> (o: &'static OpeningClaim)
    requires
        verifier.relation_holds(relation, opens),
    ensures
        relation.transparent_eval == evaluation(relation.transparent@, relation.point@),
        relation.tape.accepted(
            (verifier.queue.specs()[relation.oracle.position() as int].log_msg_len + 7) as nat,
            relation.transparent@,
            relation.claim,
        ),
        relation.schedule.leads_to(relation.shape),
        opens.ensures((relation.oracle.position() as usize, o), true),
        o.point@.len() == 1 + relation.tape.reduction.challenges@.len(),
        o.point@[0]@ == 1,
        forall|i: int|
            0 <= i < relation.tape.reduction.challenges@.len() ==> o.point@[i + 1]@ == (
            #[trigger] relation.tape.reduction.challenges@[i])@,
        final_claim(
            relation.tape.reduction.initial_claim@,
            rounds_of(relation.tape.reduction.proof.round_evals@),
            residues(relation.tape.reduction.challenges@),
        ) == Some(residue(o.value@ * relation.tape.indicator())),
{
    let o = choose|o: &OpeningClaim| #[trigger]
        opens.ensures((relation.oracle.position() as usize, o), true)
            && is_reduced_opening(
            relation.tape,
            (verifier.log_len(relation) + 7) as nat,
            *o,
        );
    let c = relation.tape.reduction.challenges@;
    assert(residues(o.point@).len() == (seq![1int] + residues(c)).len());
    assert(residues(o.point@)[0] == (seq![1int] + residues(c))[0]);
    assert forall|i: int| 0 <= i < c.len() implies o.point@[i + 1]@ == (#[trigger] c[i])@ by {
        assert(residues(o.point@)[i + 1] == (seq![1int] + residues(c))[i + 1]);
    }
    o
}

/// A relation that the succinct verifier accepts has an accepted tape, two opening claims that the
/// commitment scheme accepts, and the right value of the transparent polynomial. The opening claims
/// are the received values at 1 followed by the challenges of the two sumchecks.
pub proof fn law_held_succinct_relation<V: Fn(usize, &OpeningClaim, &OpeningClaim) -> bool>(
    verifier: HachiSuccinctVerifierChannel,
    relation: SuccinctRelation,
    opens: V,
) -> (pair: (&'static OpeningClaim, &'static OpeningClaim))
    requires
        verifier.relation_holds(relation, opens),
    ensures
        relation.transparent_eval == evaluation(relation.transparent@, relation.point@),
        relation.tape.accepted(
            (verifier.queue.specs()[relation.oracle.position() as int].log_msg_len + 7) as nat,
            relation.transparent@,
            relation.claim,
        ),
        opens.ensures((relation.oracle.position() as usize, pair.0, pair.1), true),
        residues(pair.0.point@) == seq![1int] + residues(relation.tape.selected.challenges@),
        pair.0.value@ == relation.tape.selected_opening@,
        residues(pair.1.point@) == seq![1int] + residues(relation.tape.booleanity.challenges@),
        pair.1.value@ == relation.tape.bool_opening@,
{
    choose|a: &OpeningClaim, b: &OpeningClaim| #[trigger]
        opens.ensures((relation.oracle.position() as usize, a, b), true)
            && are_openings(relation.tape, *a, *b)
}

/// A relation that the full-opening verifier accepts has sums within their bounds with the parities
/// of the claim, the claim is the inner product of the received oracle and the transparent values,
/// and the value of the transparent polynomial is right. Any other relation is refused: for its sums
/// with one error, for the rest with the other.
pub proof fn law_full_open_verdict(
    verifier: HachiFullOpenVerifierChannel,
    relation: FullOpenRelation,
    bounds: Seq<u64>,
)
    requires
        holds_counts(bounds, basis_products(relation.transparent@), 1),
    ensures
        verifier.relation_holds(relation) <==> {
            &&& forall|k: int|
                0 <= k < 128 ==> (#[trigger] relation.opened_sums@[k]) <= tally(
                    basis_products(relation.transparent@),
                    k,
                ) && relation.opened_sums@[k] as int % 2 == bit_value(relation.claim.val, k)
            &&& relation.claim == linear_claim(
                verifier.values(relation.oracle.position() as int),
                relation.transparent@,
            )
            &&& relation.transparent_eval == evaluation(relation.transparent@, relation.point@)
        },
        verifier.relation_fails(relation, ChannelError::ProofEmpty) <==> exists|k: int|
            0 <= k < 128 && ((#[trigger] relation.opened_sums@[k]) > tally(
                basis_products(relation.transparent@),
                k,
            ) || relation.opened_sums@[k] as int % 2 != bit_value(relation.claim.val, k)),
        verifier.relation_fails(relation, ChannelError::InvalidAssert) <==> {
            &&& !verifier.relation_holds(relation)
            &&& !verifier.relation_fails(relation, ChannelError::ProofEmpty)
        },
{
    let sums = relation.opened_sums@;
    let words = basis_products(relation.transparent@);
    if sums_checked(sums, relation.transparent@, relation.claim) {
        let own = choose|own: Seq<u64>| #[trigger]
            holds_counts(own, words, 1) && parities_hold(sums, own, relation.claim);
        assert forall|k: int| 0 <= k < 128 implies (#[trigger] sums[k]) <= tally(words, k)
            && sums[k] as int % 2 == bit_value(relation.claim.val, k) by {
            assert(own[k] == 1 * tally(words, k));
            assert(parity_holds(sums, own, relation.claim, k));
        }
    } else {
        assert(!parities_hold(sums, bounds, relation.claim));
        let k = choose|k: int|
            0 <= k < 128 && !(#[trigger] parity_holds(sums, bounds, relation.claim, k));
        assert(bounds[k] == 1 * tally(words, k));
        assert(sums[k] > tally(words, k) || sums[k] as int % 2 != bit_value(
            relation.claim.val,
            k,
        ));
    }
}

/// Oracles are numbered in the order in which they are sent, and sending one leaves the bit tables of
/// those before it as they are.
pub proof fn law_sent_tables_are_kept(
    first: CommittedTables,
    second: CommittedTables,
    third: CommittedTables,
    a: Seq<B128>,
    b: Seq<B128>,
    i: int,
)
    requires
        second.follows_sending(&first, a),
        third.follows_sending(&second, b),
        0 <= i < first.sent(),
    ensures
        third.specs() == first.specs(),
        third.sent() == first.sent() + 2,
        third.table(i) == first.table(i),
        third.table(first.sent() as int) == bit_table(a),
        third.table((first.sent() + 1) as int) == bit_table(b),
{
    assert(third.table(i) == second.table(i));
}

proof fn lemma_below_power(n: nat)
    ensures
        n < pow2(n),
    decreases n,
{
    lemma2_to64();
    if n > 0 {
        lemma_below_power((n - 1) as nat);
        lemma_pow2_unfold(n);
    }
}

/// What has been sent can be proved about, with as many transparent values as the oracle has.
pub proof fn law_sent_oracle_can_be_proved(
    before: CommittedTables,
    after: CommittedTables,
    values: Seq<B128>,
    transparent: Seq<B128>,
)
    requires
        before.can_send(values),
        after.follows_sending(&before, values),
        transparent.len() == values.len(),
    ensures
        after.can_prove(before.sent(), values, transparent),
        after.rounds(before.sent()) >= 14,
        128 * values.len() == pow2(after.rounds(before.sent())),
{
    let l = before.specs()[before.sent() as int].log_msg_len as nat;
    lemma_below_power(l);
    lemma2_to64();
    lemma_pow2_adds(l, 7);
}

/// A tape that goes with challenges holds them, each where it is used.
pub proof fn law_tape_holds_challenges(tape: BridgeTape, challenges: BridgeChallenges)
    ensures
        sampled_with(tape, challenges) <==> {
            &&& tape.alpha == challenges.alpha
            &&& tape.selected.challenges@ == challenges.selected@
            &&& tape.bool_weight_point@ == challenges.bool_weight_point@
            &&& tape.booleanity.challenges@ == challenges.booleanity@
        },
{
}

proof fn lemma_same_quadratics(a: Seq<[Fp128; 3]>, b: Seq<[Fp128; 3]>)
    requires
        rounds_of(a) == rounds_of(b),
    ensures
        a.len() == b.len(),
        forall|k: int, t: int|
            0 <= k < a.len() && 0 <= t < 3 ==> #[trigger] a[k]@[t]@ == b[k]@[t]@,
{
    assert(rounds_of(a).len() == a.len());
    assert(rounds_of(b).len() == b.len());
    assert forall|k: int, t: int| 0 <= k < a.len() && 0 <= t < 3 implies #[trigger] a[k]@[t]@
        == b[k]@[t]@ by {
        assert(rounds_of(a)[k] == values_of(a[k]) && rounds_of(b)[k] == values_of(b[k]));
        assert(values_of(a[k])[t] == a[k]@[t]@ && values_of(b[k])[t] == b[k]@[t]@);
    }
}

proof fn lemma_same_cubics(a: Seq<[Fp128; 4]>, b: Seq<[Fp128; 4]>)
    requires
        rounds_of(a) == rounds_of(b),
    ensures
        a.len() == b.len(),
        forall|k: int, t: int|
            0 <= k < a.len() && 0 <= t < 4 ==> #[trigger] a[k]@[t]@ == b[k]@[t]@,
{
    assert(rounds_of(a).len() == a.len());
    assert(rounds_of(b).len() == b.len());
    assert forall|k: int, t: int| 0 <= k < a.len() && 0 <= t < 4 implies #[trigger] a[k]@[t]@
        == b[k]@[t]@ by {
        assert(rounds_of(a)[k] == values_of(a[k]) && rounds_of(b)[k] == values_of(b[k]));
        assert(values_of(a[k])[t] == a[k]@[t]@ && values_of(b[k])[t] == b[k]@[t]@);
    }
}

/// What an honest prover sends is determined by the oracle, the transparent values and the
/// challenges: every message of two honest tapes is the same.
pub proof fn law_honest_tape_is_determined(
    a: BridgeTape,
    b: BridgeTape,
    challenges: BridgeChallenges,
    oracle: Seq<B128>,
    transparent: Seq<B128>,
    rounds: nat,
)
    requires
        sampled_with(a, challenges),
        sampled_with(b, challenges),
        is_honest_tape(a, oracle, transparent, rounds),
        is_honest_tape(b, oracle, transparent, rounds),
    ensures
        a.parity_bytes@ == b.parity_bytes@,
        a.selected.initial_claim@ == b.selected.initial_claim@,
        a.booleanity.initial_claim@ == b.booleanity.initial_claim@,
        a.selected_opening@ == b.selected_opening@,
        a.bool_opening@ == b.bool_opening@,
        a.selected.proof.round_evals@.len() == b.selected.proof.round_evals@.len(),
        a.booleanity.proof.round_evals@.len() == b.booleanity.proof.round_evals@.len(),
        forall|k: int, t: int|
            0 <= k < a.selected.proof.round_evals@.len() && 0 <= t < 3
                ==> #[trigger] a.selected.proof.round_evals@[k]@[t]@
                == b.selected.proof.round_evals@[k]@[t]@,
        forall|k: int, t: int|
            0 <= k < a.booleanity.proof.round_evals@.len() && 0 <= t < 4
                ==> #[trigger] a.booleanity.proof.round_evals@[k]@[t]@
                == b.booleanity.proof.round_evals@[k]@[t]@,
{
    let claim = linear_claim(oracle, transparent);
    let products = selected_products(oracle, transparent);
    let (ba, sa) = choose|bounds: Seq<u64>, sums: Seq<u64>| #[trigger]
        sums_accepted(a.parity_bytes@, transparent, claim, bounds, sums) && holds_counts(
            sums,
            products,
            1,
        );
    let (bb, sb) = choose|bounds: Seq<u64>, sums: Seq<u64>| #[trigger]
        sums_accepted(b.parity_bytes@, transparent, claim, bounds, sums) && holds_counts(
            sums,
            products,
            1,
        );
    let words = basis_products(transparent);
    assert forall|k: int| 0 <= k < 128 implies sa[k] == sb[k] && ba[k] == bb[k] by {
        assert(sa[k] == 1 * tally(products, k) && sb[k] == 1 * tally(products, k));
        assert(ba[k] == 1 * tally(words, k) && bb[k] == 1 * tally(words, k));
    }
    assert(sa =~= sb);
    assert(ba =~= bb);
    law_packing_is_unique(a.parity_bytes@, b.parity_bytes@, sa, ba);
    assert(rounds_of(a.selected.proof.round_evals@) =~= rounds_of(b.selected.proof.round_evals@));
    assert(rounds_of(a.booleanity.proof.round_evals@)
        =~= rounds_of(b.booleanity.proof.round_evals@));
    lemma_same_quadratics(a.selected.proof.round_evals@, b.selected.proof.round_evals@);
    lemma_same_cubics(a.booleanity.proof.round_evals@, b.booleanity.proof.round_evals@);
}

/// The oracles that are supported are those with at least 128 elements.
pub proof fn law_supported_oracles_are_long(spec: OracleSpec)
    ensures
        is_supported(spec) <==> pow2(spec.log_msg_len as nat) >= 128,
{
    let l = spec.log_msg_len as nat;
    lemma2_to64();
    if l < 7 {
        lemma_pow2_strictly_increases(l, 7);
    } else if l > 7 {
        lemma_pow2_strictly_increases(7, l);
    }
}

/// A reported sum is the first one that is out of its bound or has the wrong parity. One that is out
/// of its bound is reported with its bit, its value and its bound.
pub proof fn law_first_bad_sum_is_reported(
    e: BatchedParityBridgeError,
    sums: Seq<u64>,
    bounds: Seq<u64>,
    claim: B128,
    n: int,
)
    requires
        reports_parity(e, sums, bounds, claim, n),
    ensures
        0 <= n < 128,
        forall|k: int|
            0 <= k < n ==> (#[trigger] sums[k]) <= bounds[k] && sums[k] as int % 2 == bit_value(
                claim.val,
                k,
            ),
        sums[n] > bounds[n] ==> e == (BatchedParityBridgeError::SumOutOfRange {
            bit: n as usize,
            sum: sums[n],
            bound: bounds[n],
        }),
        sums[n] <= bounds[n] ==> sums[n] as int % 2 != bit_value(claim.val, n) && e
            == BatchedParityBridgeError::BatchedParityCheckFailed,
{
    assert forall|k: int| 0 <= k < n implies (#[trigger] sums[k]) <= bounds[k] && sums[k] as int % 2
        == bit_value(claim.val, k) by {
        assert(parity_holds(sums, bounds, claim, k));
    }
}

/// A scalar is drawn from one place: the first sample below the number of elements of the field.
pub proof fn law_first_residue_is_unique(samples: Seq<B128>, at: int, a: int, b: int)
    requires
        first_residue(samples, at, a),
        first_residue(samples, at, b),
    ensures
        a == b,
        at < a <= samples.len(),
        samples[a - 1].val < 0x1_0000_0000_0000_0000 * 0x1_0000_0000_0000_0000 - 275,
{
    if a < b {
        assert(samples[a - 1].val >= MODULUS);
    } else if b < a {
        assert(samples[b - 1].val >= MODULUS);
    }
}

/// What the full-opening prover makes of a relation, the full-opening verifier accepts for the oracle
/// that it received, provided that the value of the transparent polynomial is right and the public
/// bounds of the sums do not overflow.
pub proof fn law_full_open_round_trip(
    verifier: HachiFullOpenVerifierChannel,
    statement: FullOpenStatement,
    made: FullOpenProof,
    relation: FullOpenRelation,
    bounds: Seq<u64>,
)
    requires
        fully_proves(statement, made),
        holds_counts(bounds, basis_products(statement.transparent@), 1),
        verifier.values(relation.oracle.position() as int) == statement.message@,
        relation.transparent@ == statement.transparent@,
        relation.claim == made.claim,
        relation.opened_sums@ == made.opened_sums@,
        relation.transparent_eval == evaluation(relation.transparent@, relation.point@),
    ensures
        verifier.relation_holds(relation),
        forall|k: int|
            0 <= k < 128 ==> #[trigger] made.opened_sums@[k] == tally(
                selected_products(statement.message@, statement.transparent@),
                k,
            ),
{
    let products = selected_products(statement.message@, statement.transparent@);
    assert forall|k: int| 0 <= k < 128 implies #[trigger] made.opened_sums@[k] == tally(
        products,
        k,
    ) by {
        assert(made.opened_sums@[k] == 1 * tally(products, k));
    }
}

/// What an honest prover sends in the claim reduction is determined by the oracle, the two points,
/// and the challenges: it starts from the combined openings, and its rounds are the same.
pub proof fn law_honest_reduction_is_determined(
    a: ClaimReducedTape,
    b: ClaimReducedTape,
    oracle: Seq<B128>,
)
    requires
        is_honest_reduction(a, oracle),
        is_honest_reduction(b, oracle),
        a.cr_alpha == b.cr_alpha,
        a.bridge.selected.challenges@ == b.bridge.selected.challenges@,
        a.bridge.booleanity.challenges@ == b.bridge.booleanity.challenges@,
        a.reduction.challenges@ == b.reduction.challenges@,
    ensures
        a.reduction.initial_claim@ == residue(
            a.bridge.selected_opening@ + a.cr_alpha@ * a.bridge.bool_opening@,
        ),
        a.reduction.proof.round_evals@.len() == a.reduction.challenges@.len(),
        a.reduction.proof.round_evals@.len() == b.reduction.proof.round_evals@.len(),
        forall|k: int, t: int|
            0 <= k < a.reduction.proof.round_evals@.len() && 0 <= t < 3
                ==> #[trigger] a.reduction.proof.round_evals@[k]@[t]@
                == b.reduction.proof.round_evals@[k]@[t]@,
{
    assert(rounds_of(a.reduction.proof.round_evals@)
        =~= rounds_of(b.reduction.proof.round_evals@));
    assert(rounds_of(a.reduction.proof.round_evals@).len() == a.reduction.proof.round_evals@.len());
    lemma_same_quadratics(a.reduction.proof.round_evals@, b.reduction.proof.round_evals@);
}

} // verus!
