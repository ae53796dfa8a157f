//! The checks of one oracle relation: a claimed value of `sum_i t_i * w_i` for a committed oracle
//! `w` and public coefficients `t`.
//!
//! A tape holds what the verifier receives and samples, in the order of the transcript. The checks
//! reduce the relation to opening claims on the committed bit table, which the commitment scheme
//! has to discharge.

use vstd::arithmetic::div_mod::lemma_div_denominator;
use vstd::arithmetic::power2::{lemma2_to64, lemma_pow2_pos, lemma_pow2_unfold, pow2};
use vstd::prelude::*;

use super::booleanity::weighted_term;
use super::claim_reduction::{
    combined_value, evaluate_claim_reduction_transparent,
    verify_claim_reduction_sumcheck_transcript,
};
use super::error::ChannelError;
use super::fp128::{
    are_inverse, congruent, lemma_congruent, lemma_congruent_to_residue, lemma_modulus,
    lemma_residue_of_small, residue, residues, Fp128,
};
use super::masks::{
    batched_u64_sum, counts_of, evaluate_batched_selected_sum_table_mask, selected_mask,
};
use super::packing::{is_packing, law_unpacking_is_unique, unpack_bounded_u64_array, within_bounds};
use super::parity::{
    basis_products, holds_counts, linear_claim, parities_hold, parity_sum_bounds, sums_checked,
    terminal_linear_claim, BatchedParityBridgeProof, BiniusScalar,
};
use super::rounds::{
    verify_product_sumcheck_transcript, verify_weighted_booleanity_sumcheck_transcript,
    BooleanitySumcheckTape, ProductSumcheckTape,
};
use super::tables::{eq_product, evaluate_akita_eq, first_powers};
use crate::field::{lemma_minus_self, Field, Ring};
use crate::ghash::B128;
use crate::multilinear::{dot, evaluate, evaluation};
use crate::powers::power_of_two;

verus! {

/// What the verifier receives and samples up to the two openings of the bit table.
#[derive(Debug, PartialEq, Eq)]
pub struct BridgeTape {
    /// The packed selected-bit sums.
    pub parity_bytes: Vec<u8>,
    /// Batches the sums.
    pub alpha: Fp128,
    /// The sumcheck of the batched sums.
    pub selected: ProductSumcheckTape,
    /// The point of the Booleanity weights.
    pub bool_weight_point: Vec<Fp128>,
    /// The sumcheck of Booleanity.
    pub booleanity: BooleanitySumcheckTape,
    /// The claimed value of the bit table at the challenges of the first sumcheck.
    pub selected_opening: Fp128,
    /// The claimed value of the bit table at the challenges of the second sumcheck.
    pub bool_opening: Fp128,
}

/// Whether packed sums are within the bounds of the coefficients and have the parities of a claim.
pub open spec fn sums_accepted(
    parity_bytes: Seq<u8>,
    transparent: Seq<B128>,
    claim: B128,
    bounds: Seq<u64>,
    sums: Seq<u64>,
) -> bool {
    &&& sums.len() == 128
    &&& holds_counts(bounds, basis_products(transparent), 1)
    &&& within_bounds(sums, bounds)
    &&& is_packing(parity_bytes, sums, bounds)
    &&& parities_hold(sums, bounds, claim)
}

/// There is at most one way to read packed sums.
pub proof fn lemma_sums_are_unique(
    parity_bytes: Seq<u8>,
    transparent: Seq<B128>,
    claim: B128,
    b1: Seq<u64>,
    s1: Seq<u64>,
    b2: Seq<u64>,
    s2: Seq<u64>,
)
    requires
        holds_counts(b1, basis_products(transparent), 1),
        s1.len() == 128,
        within_bounds(s1, b1),
        is_packing(parity_bytes, s1, b1),
        sums_accepted(parity_bytes, transparent, claim, b2, s2),
    ensures
        b1 == b2,
        s1 == s2,
{
    assert forall|k: int| 0 <= k < 128 implies b1[k] == b2[k] by {
        assert(b1[k] == 1 * super::parity::tally(basis_products(transparent), k));
        assert(b2[k] == 1 * super::parity::tally(basis_products(transparent), k));
    }
    assert(b1 =~= b2);
    law_unpacking_is_unique(parity_bytes, s1, s2, b1);
}

impl BridgeTape {
    /// Whether the two sumchecks are accepted and their final claims are met by the openings.
    pub open spec fn sumchecks_accepted(
        &self,
        rounds: nat,
        transparent: Seq<B128>,
        sums: Seq<u64>,
    ) -> bool {
        let (sp, bp) = (residues(self.selected.challenges@), residues(self.booleanity.challenges@));
        &&& self.selected.accepted(
            residue(dot(first_powers(self.alpha@, 128), counts_of(sums))),
            rounds,
        ) == Some(
            residue(
                self.selected_opening@ * evaluation(selected_mask(transparent, self.alpha@), sp),
            ),
        )
        &&& self.bool_weight_point@.len() == rounds
        &&& self.booleanity.accepted(0, rounds) == Some(
            residue(
                weighted_term(
                    self.bool_opening@,
                    eq_product(residues(self.bool_weight_point@), bp),
                ),
            ),
        )
    }

    /// Whether the relation is reduced to the two openings.
    pub open spec fn accepted(&self, rounds: nat, transparent: Seq<B128>, claim: B128) -> bool {
        exists|bounds: Seq<u64>, sums: Seq<u64>| #[trigger]
            sums_accepted(self.parity_bytes@, transparent, claim, bounds, sums)
                && self.sumchecks_accepted(rounds, transparent, sums)
    }

    /// Reads and checks the packed sums.
    fn check_sums(&self, transparent: &[BiniusScalar], claim: BiniusScalar) -> (r: Result<
        [u64; 128],
        ChannelError,
    >)
        ensures
            match r {
                Ok(sums) => exists|bounds: Seq<u64>| #[trigger]
                    sums_accepted(self.parity_bytes@, transparent@, claim, bounds, sums@),
                Err(e) => e == ChannelError::ProofEmpty && forall|
                    bounds: Seq<u64>,
                    sums: Seq<u64>,
                |
                    !(#[trigger] sums_accepted(
                        self.parity_bytes@,
                        transparent@,
                        claim,
                        bounds,
                        sums,
                    )),
            },
    {
        let bounds: [u64; 128] = match parity_sum_bounds(transparent) {
            Ok(bounds) => bounds,
            Err(e) => {
                proof {
                    assert forall|b: Seq<u64>, s: Seq<u64>|
                        !(#[trigger] sums_accepted(
                            self.parity_bytes@,
                            transparent@,
                            claim,
                            b,
                            s,
                        )) by {
                        if holds_counts(b, basis_products(transparent@), 1) {
                            super::parity::law_counts_exclude_overflow(
                                b,
                                basis_products(transparent@),
                                e,
                            );
                        }
                    }
                }
                return Err(ChannelError::ProofEmpty);
            },
        };
        let sums: [u64; 128] = match unpack_bounded_u64_array(
            self.parity_bytes.as_slice(),
            &bounds,
        ) {
            Some(sums) => sums,
            None => {
                proof {
                    assert forall|b: Seq<u64>, s: Seq<u64>|
                        !(#[trigger] sums_accepted(
                            self.parity_bytes@,
                            transparent@,
                            claim,
                            b,
                            s,
                        )) by {
                        if sums_accepted(self.parity_bytes@, transparent@, claim, b, s) {
                            assert forall|k: int| 0 <= k < 128 implies b[k] == bounds@[k] by {
                                let words = basis_products(transparent@);
                                assert(b[k] == 1 * super::parity::tally(words, k));
                                assert(bounds@[k] == 1 * super::parity::tally(words, k));
                            }
                            assert(b =~= bounds@);
                            assert(within_bounds(s, bounds@));
                        }
                    }
                }
                return Err(ChannelError::ProofEmpty);
            },
        };
        let parity = BatchedParityBridgeProof { opened_sums: sums };
        match parity.verify_with_bounds(&bounds, claim) {
            Ok(_) => {
                let ghost b = bounds@;
                assert(sums_accepted(self.parity_bytes@, transparent@, claim, b, sums@));
                let r: Result<[u64; 128], ChannelError> = Ok(sums);
                assert(r->Ok_0@ == sums@);
                r
            },
            Err(e) => {
                proof {
                    assert forall|b: Seq<u64>, s: Seq<u64>|
                        !(#[trigger] sums_accepted(
                            self.parity_bytes@,
                            transparent@,
                            claim,
                            b,
                            s,
                        )) by {
                        if sums_accepted(self.parity_bytes@, transparent@, claim, b, s) {
                            lemma_sums_are_unique(
                                self.parity_bytes@,
                                transparent@,
                                claim,
                                bounds@,
                                sums@,
                                b,
                                s,
                            );
                            let n = choose|n: int| #[trigger]
                                super::parity::reports_parity(e, sums@, bounds@, claim, n);
                            assert(super::parity::parity_holds(s, b, claim, n));
                        }
                    }
                }
                Err(ChannelError::ProofEmpty)
            },
        }
    }

    /// Checks the sumchecks and their final claims.
    fn check_sumchecks(
        &self,
        rounds: usize,
        transparent: &[BiniusScalar],
        sums: &[u64; 128],
    ) -> (r: Result<(), ChannelError>)
        requires
            rounds >= 7,
            transparent@.len() == pow2((rounds - 7) as nat),
        ensures
            match r {
                Ok(_) => self.sumchecks_accepted(rounds as nat, transparent@, sums@),
                Err(e) => e == ChannelError::ProofEmpty && !self.sumchecks_accepted(
                    rounds as nat,
                    transparent@,
                    sums@,
                ),
            },
    {
        let selected_initial: Fp128 = batched_u64_sum(sums, self.alpha);
        let selected_final: Fp128 = match verify_product_sumcheck_transcript(
            selected_initial,
            rounds,
            &self.selected,
        ) {
            Ok(claim) => claim,
            Err(e) => {
                return Err(e);
            },
        };
        let zero: Fp128 = Fp128::from_u64(0);
        let one: Fp128 = Fp128::from_u64(1);
        let bool_final: Fp128 = match verify_weighted_booleanity_sumcheck_transcript(
            zero,
            rounds,
            &self.booleanity,
        ) {
            Ok(claim) => claim,
            Err(e) => {
                return Err(e);
            },
        };
        let mask: Fp128 = match evaluate_batched_selected_sum_table_mask(
            transparent,
            self.alpha,
            self.selected.challenges.as_slice(),
        ) {
            Ok(mask) => mask,
            Err(_) => {
                return Err(ChannelError::ProofEmpty);
            },
        };
        let selected_expected: Fp128 = self.selected_opening.mul(mask);
        proof {
            let m = evaluation(
                selected_mask(transparent@, self.alpha@),
                residues(self.selected.challenges@),
            );
            lemma_congruent_to_residue(m);
            lemma_congruent(self.selected_opening@, mask@, self.selected_opening@, m);
        }
        if selected_expected != selected_final {
            return Err(ChannelError::ProofEmpty);
        }
        let weight: Fp128 = match evaluate_akita_eq(
            self.bool_weight_point.as_slice(),
            self.booleanity.challenges.as_slice(),
        ) {
            Some(weight) => weight,
            None => {
                return Err(ChannelError::ProofEmpty);
            },
        };
        let front: Fp128 = weight.mul(self.bool_opening);
        let rest: Fp128 = self.bool_opening.sub(one);
        let bool_expected: Fp128 = front.mul(rest);
        proof {
            let (b, w) = (
                self.bool_opening@,
                eq_product(
                    residues(self.bool_weight_point@),
                    residues(self.booleanity.challenges@),
                ),
            );
            lemma_congruent_to_residue(w);
            lemma_congruent(weight@, b, w, b);
            lemma_congruent_to_residue(weight@ * b);
            lemma_congruent_to_residue(b - 1);
            lemma_congruent(front@, rest@, w * b, b - 1);
        }
        if bool_expected != bool_final {
            return Err(ChannelError::ProofEmpty);
        }
        Ok(())
    }

    /// Checks that the relation is reduced to the two openings.
    pub fn check(&self, log_msg_len: usize, transparent: &[BiniusScalar], claim: BiniusScalar) -> (r:
        Result<(), ChannelError>)
        requires
            log_msg_len <= usize::MAX - 7,
            transparent@.len() == pow2(log_msg_len as nat),
        ensures
            match r {
                Ok(_) => self.accepted((log_msg_len + 7) as nat, transparent@, claim),
                Err(e) => e == ChannelError::ProofEmpty && !self.accepted(
                    (log_msg_len + 7) as nat,
                    transparent@,
                    claim,
                ),
            },
    {
        let sums: [u64; 128] = match self.check_sums(transparent, claim) {
            Ok(sums) => sums,
            Err(e) => {
                return Err(e);
            },
        };
        let rounds: usize = log_msg_len + 7;
        let r: Result<(), ChannelError> = self.check_sumchecks(rounds, transparent, &sums);
        proof {
            let bounds = choose|bounds: Seq<u64>| #[trigger]
                sums_accepted(self.parity_bytes@, transparent@, claim, bounds, sums@);
            assert forall|b: Seq<u64>, s: Seq<u64>| #[trigger]
                sums_accepted(self.parity_bytes@, transparent@, claim, b, s) implies s == sums@ by {
                lemma_sums_are_unique(
                    self.parity_bytes@,
                    transparent@,
                    claim,
                    bounds,
                    sums@,
                    b,
                    s,
                );
            }
        }
        r
    }
}

/// An opening claim on a committed table.
#[derive(Debug, PartialEq, Eq)]
pub struct OpeningClaim {
    /// The point of the opening, with the coordinate that selects the bits in front.
    pub point: Vec<Fp128>,
    /// The claimed value.
    pub value: Fp128,
}

/// Returns the point with a one in front, which selects the bits in a one-hot table.
pub fn with_one_coordinate(point: &[Fp128]) -> (r: Vec<Fp128>)
    ensures
        residues(r@) == seq![1int] + residues(point@),
{
    let mut extended: Vec<Fp128> = Vec::new();
    extended.push(Fp128::from_u64(1));
    let mut i: usize = 0;
    assert(residues(extended@) =~= seq![1int] + residues(point@.take(0)));
    while i < point.len()
        invariant
            i <= point@.len(),
            residues(extended@) == seq![1int] + residues(point@.take(i as int)),
        decreases point@.len() - i,
    {
        let ghost before = extended@;
        extended.push(point[i]);
        proof {
            assert(residues(extended@) =~= residues(before).push(point@[i as int]@));
            assert(residues(extended@) =~= seq![1int] + residues(point@.take(i + 1)));
        }
        i = i + 1;
    }
    assert(point@.take(i as int) =~= point@);
    extended
}

/// Verify one relation of the succinct bridge, up to two openings of the committed table.
pub fn verify_succinct_relation(
    log_msg_len: usize,
    transparent: &[BiniusScalar],
    claim: BiniusScalar,
    tape: &BridgeTape,
) -> (r: Result<(OpeningClaim, OpeningClaim), ChannelError>)
    requires
        log_msg_len <= usize::MAX - 7,
        transparent@.len() == pow2(log_msg_len as nat),
    ensures
        match r {
            Ok((selected, boolean)) => {
                &&& tape.accepted((log_msg_len + 7) as nat, transparent@, claim)
                &&& residues(selected.point@) == seq![1int] + residues(tape.selected.challenges@)
                &&& selected.value@ == tape.selected_opening@
                &&& residues(boolean.point@) == seq![1int] + residues(tape.booleanity.challenges@)
                &&& boolean.value@ == tape.bool_opening@
            },
            Err(e) => e == ChannelError::ProofEmpty && !tape.accepted(
                (log_msg_len + 7) as nat,
                transparent@,
                claim,
            ),
        },
{
    match tape.check(log_msg_len, transparent, claim) {
        Ok(_) => Ok(
            (
                OpeningClaim {
                    point: with_one_coordinate(tape.selected.challenges.as_slice()),
                    value: tape.selected_opening,
                },
                OpeningClaim {
                    point: with_one_coordinate(tape.booleanity.challenges.as_slice()),
                    value: tape.bool_opening,
                },
            ),
        ),
        Err(e) => Err(e),
    }
}

/// What the verifier receives and samples in the claim-reduced bridge, up to the opening proof.
#[derive(Debug, PartialEq, Eq)]
pub struct ClaimReducedTape {
    /// The part up to the two openings of the bit table.
    pub bridge: BridgeTape,
    /// Combines the two openings.
    pub cr_alpha: Fp128,
    /// The sumcheck of the claim reduction.
    pub reduction: ProductSumcheckTape,
}

/// Whether an integer has an inverse modulo the number of elements of the field.
pub open spec fn is_invertible(x: int) -> bool {
    exists|y: int| are_inverse(x, y)
}

impl ClaimReducedTape {
    /// The claim that the two openings are combined to.
    pub open spec fn combined_claim(&self) -> int {
        residue(self.bridge.selected_opening@ + self.cr_alpha@ * self.bridge.bool_opening@)
    }

    /// The value of the combined indicator at the challenges of the claim reduction.
    pub open spec fn indicator(&self) -> int {
        combined_value(
            residues(self.bridge.selected.challenges@),
            residues(self.bridge.booleanity.challenges@),
            self.cr_alpha@,
            residues(self.reduction.challenges@),
        )
    }

    /// Whether the relation is reduced to one opening: all sumchecks are accepted, and the value of
    /// the combined indicator can be divided by.
    pub open spec fn accepted(&self, rounds: nat, transparent: Seq<B128>, claim: B128) -> bool {
        &&& self.bridge.accepted(rounds, transparent, claim)
        &&& self.reduction.accepted(self.combined_claim(), rounds) is Some
        &&& is_invertible(self.indicator())
    }
}

/// Verify one relation of the claim-reduced bridge, up to one opening of the committed table.
///
/// The claimed value of the opening is the one whose product with the combined indicator is the
/// final claim of the reduction.
pub fn verify_claim_reduced_relation(
    log_msg_len: usize,
    transparent: &[BiniusScalar],
    claim: BiniusScalar,
    tape: &ClaimReducedTape,
) -> (r: Result<OpeningClaim, ChannelError>)
    requires
        log_msg_len <= usize::MAX - 7,
        transparent@.len() == pow2(log_msg_len as nat),
    ensures
        match r {
            Ok(opening) => {
                let rounds = (log_msg_len + 7) as nat;
                &&& tape.accepted(rounds, transparent@, claim)
                &&& residues(opening.point@) == seq![1int] + residues(tape.reduction.challenges@)
                &&& tape.reduction.accepted(tape.combined_claim(), rounds) == Some(
                    residue(opening.value@ * tape.indicator()),
                )
            },
            Err(e) => e == ChannelError::ProofEmpty && !tape.accepted(
                (log_msg_len + 7) as nat,
                transparent@,
                claim,
            ),
        },
{
    match tape.bridge.check(log_msg_len, transparent, claim) {
        Ok(_) => {},
        Err(e) => {
            return Err(e);
        },
    }
    let rounds: usize = log_msg_len + 7;
    let selected_point: &[Fp128] = tape.bridge.selected.challenges.as_slice();
    let bool_point: &[Fp128] = tape.bridge.booleanity.challenges.as_slice();
    let claim_final: Fp128 = match verify_claim_reduction_sumcheck_transcript(
        selected_point,
        bool_point,
        tape.bridge.selected_opening,
        tape.bridge.bool_opening,
        rounds,
        tape.cr_alpha,
        &tape.reduction,
    ) {
        Ok(claim) => claim,
        Err(e) => {
            return Err(e);
        },
    };
    let t_eval: Fp128 = match evaluate_claim_reduction_transparent(
        selected_point,
        bool_point,
        tape.cr_alpha,
        tape.reduction.challenges.as_slice(),
    ) {
        Ok(e) => e,
        Err(_) => {
            return Err(ChannelError::ProofEmpty);
        },
    };
    let ghost t = tape.indicator();
    proof {
        lemma_congruent_to_residue(t);
    }
    let inverse: Fp128 = match t_eval.inverse() {
        Some(inverse) => inverse,
        None => {
            proof {
                assert forall|y: int| !are_inverse(t, y) by {
                    lemma_congruent(t, y, t_eval@, y);
                    assert(!are_inverse(t_eval@, y));
                }
            }
            return Err(ChannelError::ProofEmpty);
        },
    };
    let value: Fp128 = claim_final.mul(inverse);
    proof {
        lemma_congruent(t, inverse@, t_eval@, inverse@);
        assert(are_inverse(t, inverse@));
        lemma_quotient(claim_final@, t, inverse@);
        claim_final.lemma_view();
    }
    Ok(
        OpeningClaim {
            point: with_one_coordinate(tape.reduction.challenges.as_slice()),
            value,
        },
    )
}

/// The product of an integer and an inverse of a number, times that number.
proof fn lemma_quotient(c: int, t: int, i: int)
    requires
        are_inverse(t, i),
    ensures
        congruent(residue(c * i) * t, c),
{
    lemma_modulus();
    lemma_residue_of_small(1);
    lemma_congruent_to_residue(c * i);
    lemma_congruent(residue(c * i), t, c * i, t);
    assert(c * i * t == c * (t * i)) by (nonlinear_arith);
    lemma_congruent(c, t * i, c, 1);
}

/// The vertex of the hypercube with the bits of an index as coordinates.
pub open spec fn vertex(index: int, n: nat) -> Seq<B128> {
    Seq::new(
        n,
        |b: int|
            if (index / pow2(b as nat) as int) % 2 == 1 {
                B128::one_spec()
            } else {
                B128::zero_spec()
            },
    )
}

/// Returns a vertex of the hypercube.
fn vertex_point(index: usize, n: usize) -> (r: Vec<BiniusScalar>)
    ensures
        r@ == vertex(index as int, n as nat),
{
    let mut out: Vec<BiniusScalar> = Vec::with_capacity(n);
    let mut rest: usize = index;
    let mut b: usize = 0;
    proof {
        lemma2_to64();
    }
    while b < n
        invariant
            b <= n,
            rest == index as int / pow2(b as nat) as int,
            out@.len() == b,
            forall|c: int| 0 <= c < b ==> #[trigger] out@[c] == vertex(index as int, n as nat)[c],
        decreases n - b,
    {
        if rest % 2 == 1 {
            out.push(B128::one());
        } else {
            out.push(B128::zero());
        }
        proof {
            lemma_pow2_unfold((b + 1) as nat);
            lemma_pow2_pos(b as nat);
            lemma_div_denominator(index as int, pow2(b as nat) as int, 2);
            assert(pow2(b as nat) * 2 == pow2((b + 1) as nat));
        }
        rest = rest / 2;
        b = b + 1;
    }
    assert(out@ =~= vertex(index as int, n as nat));
    out
}

/// Whether a polynomial may have a value at a vertex of the hypercube.
pub open spec fn is_value_at<T: Fn(&[BiniusScalar]) -> BiniusScalar>(
    transparent: T,
    index: int,
    n: nat,
    value: B128,
) -> bool {
    exists|point: &[BiniusScalar]|
        point@ == vertex(index, n) && #[trigger] transparent.ensures((point,), value)
}

/// Returns the values of a transparent polynomial on all vertices of the hypercube.
pub fn transparent_values_from_closure<T: Fn(&[BiniusScalar]) -> BiniusScalar>(
    transparent: &T,
    log_len: usize,
) -> (r: Vec<BiniusScalar>)
    requires
        pow2(log_len as nat) <= usize::MAX,
        forall|point: &[BiniusScalar]|
            point@.len() == log_len ==> #[trigger] transparent.requires((point,)),
    ensures
        r@.len() == pow2(log_len as nat),
        forall|i: int|
            0 <= i < r@.len() ==> is_value_at(*transparent, i, log_len as nat, #[trigger] r@[i]),
{
    let size: usize = power_of_two(log_len);
    let mut out: Vec<BiniusScalar> = Vec::with_capacity(size);
    let mut index: usize = 0;
    while index < size
        invariant
            index <= size,
            forall|point: &[BiniusScalar]|
                point@.len() == log_len ==> #[trigger] transparent.requires((point,)),
            out@.len() == index,
            forall|i: int|
                0 <= i < index ==> is_value_at(
                    *transparent,
                    i,
                    log_len as nat,
                    #[trigger] out@[i],
                ),
        decreases size - index,
    {
        let point: Vec<BiniusScalar> = vertex_point(index, log_len);
        let ghost before = out@;
        let slice: &[BiniusScalar] = point.as_slice();
        let value: BiniusScalar = transparent(slice);
        out.push(value);
        proof {
            assert(transparent.ensures((slice,), value));
            assert(is_value_at(*transparent, index as int, log_len as nat, value));
            assert forall|i: int| 0 <= i < index + 1 implies is_value_at(
                *transparent,
                i,
                log_len as nat,
                #[trigger] out@[i],
            ) by {
                if i < index {
                    assert(out@[i] == before[i]);
                }
            }
        }
        index = index + 1;
    }
    out
}

/// Checks that a transparent polynomial is the one whose table was used: its value at a random
/// point is that of the multilinear extension of the table.
pub fn check_transparent(
    transparent: &[BiniusScalar],
    point: &[BiniusScalar],
    transparent_eval: BiniusScalar,
) -> (r: Result<(), ChannelError>)
    requires
        transparent@.len() == pow2(point@.len()),
    ensures
        match r {
            Ok(_) => transparent_eval == evaluation(transparent@, point@),
            Err(e) => e == ChannelError::InvalidAssert && transparent_eval != evaluation(
                transparent@,
                point@,
            ),
        },
{
    let explicit_eval: B128 = evaluate(transparent, point);
    assert_zero(transparent_eval.sub(explicit_eval), Ghost(transparent_eval), Ghost(explicit_eval))
}

/// Checks that the difference of two scalars is zero.
fn assert_zero(difference: BiniusScalar, Ghost(a): Ghost<B128>, Ghost(b): Ghost<B128>) -> (r: Result<
    (),
    ChannelError,
>)
    requires
        difference == a.minus(b),
    ensures
        match r {
            Ok(_) => a == b,
            Err(e) => e == ChannelError::InvalidAssert && a != b,
        },
{
    proof {
        B128::law_minus(a, b);
        crate::field::lemma_zero_plus(b);
        lemma_minus_self(b);
    }
    if difference.is_equal(B128::zero()) {
        Ok(())
    } else {
        Err(ChannelError::InvalidAssert)
    }
}

/// Verify one relation of the full-opening bridge, in which the oracle and the coefficients are
/// sent in clear.
pub fn verify_full_open_relation(
    oracle: &[BiniusScalar],
    transparent: &[BiniusScalar],
    claim: BiniusScalar,
    opened_sums: &[u64; 128],
) -> (r: Result<(), ChannelError>)
    requires
        oracle@.len() == transparent@.len(),
    ensures
        match r {
            Ok(_) => sums_checked(opened_sums@, transparent@, claim) && claim == linear_claim(
                oracle@,
                transparent@,
            ),
            Err(ChannelError::ProofEmpty) => !sums_checked(opened_sums@, transparent@, claim),
            Err(ChannelError::InvalidAssert) => sums_checked(opened_sums@, transparent@, claim)
                && claim != linear_claim(oracle@, transparent@),
        },
{
    let parity = BatchedParityBridgeProof { opened_sums: *opened_sums };
    let bounds: [u64; 128] = match parity_sum_bounds(transparent) {
        Ok(bounds) => bounds,
        Err(e) => {
            proof {
                assert forall|b: Seq<u64>|
                    !(#[trigger] holds_counts(b, basis_products(transparent@), 1)) by {
                    if holds_counts(b, basis_products(transparent@), 1) {
                        super::parity::law_counts_exclude_overflow(
                            b,
                            basis_products(transparent@),
                            e,
                        );
                    }
                }
            }
            return Err(ChannelError::ProofEmpty);
        },
    };
    match parity.verify_with_bounds(&bounds, claim) {
        Ok(_) => {
            assert(holds_counts(bounds@, basis_products(transparent@), 1));
        },
        Err(e) => {
            proof {
                let n = choose|n: int| #[trigger]
                    super::parity::reports_parity(e, opened_sums@, bounds@, claim, n);
                assert forall|b: Seq<u64>| #[trigger]
                    holds_counts(b, basis_products(transparent@), 1) implies !parities_hold(
                    opened_sums@,
                    b,
                    claim,
                ) by {
                    assert(b[n] == 1 * super::parity::tally(basis_products(transparent@), n));
                    assert(bounds@[n] == 1 * super::parity::tally(basis_products(transparent@), n));
                    if parities_hold(opened_sums@, b, claim) {
                        assert(super::parity::parity_holds(opened_sums@, b, claim, n));
                    }
                }
            }
            return Err(ChannelError::ProofEmpty);
        },
    }
    let actual: B128 = terminal_linear_claim(oracle, transparent);
    assert_zero(actual.sub(claim), Ghost(actual), Ghost(claim))
}

} // verus!
