//! Proofs of several relations on the oracles of a prover channel, one after the other.
//!
//! The challenges are given; the channels state what is sent for them.

use vstd::arithmetic::power2::pow2;
use vstd::prelude::*;

use super::channel::{
    prove_full_open_relation, AkitaClaimReducedOracle, AkitaClaimReducedProverChannel,
    AkitaSuccinctOracle, AkitaSuccinctProverChannel, HachiFullOpenOracle,
    HachiFullOpenProverChannel, HachiSuccinctOracle, HachiSuccinctProverChannel,
};
use super::error::BatchedParityBridgeError;
use super::fp128::{residue, residues, Fp128};
use super::parity::{
    basis_products, holds_counts, linear_claim, reports_overflow, selected_products, sums_checked,
    BiniusScalar,
};
use super::prover::{is_honest_reduction, is_honest_tape, sampled_with, BridgeChallenges};
use super::relation::{is_invertible, BridgeTape, ClaimReducedTape};
use crate::multilinear::evaluation;

verus! {

/// A relation to be proved with the claim-reduced bridge, and the challenges for it.
#[derive(Debug, PartialEq, Eq)]
pub struct ClaimReducedStatement {
    /// The oracle.
    pub oracle: AkitaClaimReducedOracle,
    /// The values of the oracle.
    pub message: Vec<BiniusScalar>,
    /// The values of the transparent polynomial on all vertices.
    pub transparent: Vec<BiniusScalar>,
    /// The challenges up to the two openings.
    pub challenges: BridgeChallenges,
    /// Combines the two openings.
    pub cr_alpha: Fp128,
    /// The challenges of the claim reduction.
    pub reduction_challenges: Vec<Fp128>,
}

/// A proof of a relation with the claim-reduced bridge, up to the opening proof.
#[derive(Debug, PartialEq, Eq)]
pub struct ClaimReducedProof {
    /// The inner product of the oracle and the transparent values.
    pub claim: BiniusScalar,
    /// What is sent and sampled.
    pub tape: ClaimReducedTape,
    /// The value of the bit table at the point of the opening.
    pub b_final: Fp128,
}

impl AkitaClaimReducedProverChannel {
    /// Whether a relation is on an oracle that has been sent, with a challenge for each round.
    pub open spec fn fits(&self, s: ClaimReducedStatement) -> bool {
        let rounds = self.tables.rounds(s.oracle.position());
        &&& self.tables.can_prove(s.oracle.position(), s.message@, s.transparent@)
        &&& s.challenges.has_rounds(rounds)
        &&& s.reduction_challenges@.len() == rounds
    }

    /// Whether a proof is the honest one of a relation, which is accepted wherever the value of the
    /// combined indicator can be divided by.
    pub open spec fn proves(&self, s: ClaimReducedStatement, p: ClaimReducedProof) -> bool {
        let rounds = self.tables.rounds(s.oracle.position());
        let table = self.tables.table(s.oracle.position() as int);
        &&& p.claim == linear_claim(s.message@, s.transparent@)
        &&& sampled_with(p.tape.bridge, s.challenges)
        &&& p.tape.cr_alpha == s.cr_alpha
        &&& p.tape.reduction.challenges@ == s.reduction_challenges@
        &&& p.b_final@ == residue(evaluation(table, residues(s.reduction_challenges@)))
        &&& is_honest_tape(p.tape.bridge, s.message@, s.transparent@, rounds)
        &&& is_honest_reduction(p.tape, s.message@)
        &&& p.tape.reduction.accepted(p.tape.combined_claim(), rounds) == Some(
            residue(p.b_final@ * p.tape.indicator()),
        )
        &&& is_invertible(p.tape.indicator()) ==> p.tape.accepted(
            rounds,
            s.transparent@,
            p.claim,
        )
    }

    /// Proves relations one after the other, unless the public bounds of the sums of one of them
    /// overflow.
    pub fn prove_oracle_relations(&self, relations: &[ClaimReducedStatement]) -> (r: Result<
        Vec<ClaimReducedProof>,
        BatchedParityBridgeError,
    >)
        requires
            forall|i: int| 0 <= i < relations@.len() ==> self.fits(#[trigger] relations@[i]),
        ensures
            match r {
                Ok(proofs) => proofs@.len() == relations@.len() && forall|i: int|
                    0 <= i < relations@.len() ==> self.proves(
                        #[trigger] relations@[i],
                        proofs@[i],
                    ),
                Err(e) => exists|k: int|
                    0 <= k < relations@.len() && reports_overflow(
                        e,
                        basis_products((#[trigger] relations@[k]).transparent@),
                        1,
                    ),
            },
    {
        let mut proofs: Vec<ClaimReducedProof> = Vec::with_capacity(relations.len());
        let mut k: usize = 0;
        while k < relations.len()
            invariant
                k <= relations@.len(),
                proofs@.len() == k,
                forall|i: int| 0 <= i < relations@.len() ==> self.fits(#[trigger] relations@[i]),
                forall|i: int|
                    0 <= i < k ==> self.proves(#[trigger] relations@[i], proofs@[i]),
            decreases relations@.len() - k,
        {
            let relation: &ClaimReducedStatement = &relations[k];
            assert(self.fits(relations@[k as int]));
            match self.prove_oracle_relation(
                relation.oracle,
                relation.message.as_slice(),
                relation.transparent.as_slice(),
                &relation.challenges,
                relation.cr_alpha,
                relation.reduction_challenges.as_slice(),
            ) {
                Ok((claim, tape, b_final)) => {
                    let ghost before = proofs@;
                    proofs.push(ClaimReducedProof { claim, tape, b_final });
                    proof {
                        assert(self.proves(relations@[k as int], proofs@[k as int]));
                        assert forall|i: int| 0 <= i < k + 1 implies self.proves(
                            #[trigger] relations@[i],
                            proofs@[i],
                        ) by {
                            if i < k {
                                assert(proofs@[i] == before[i]);
                            }
                        }
                    }
                },
                Err(e) => {
                    return Err(e);
                },
            }
            k = k + 1;
        }
        Ok(proofs)
    }
}

/// A proof of a relation with the succinct bridge, up to the opening proof.
#[derive(Debug, PartialEq, Eq)]
pub struct SuccinctProof {
    /// The inner product of the oracle and the transparent values.
    pub claim: BiniusScalar,
    /// What is sent and sampled.
    pub tape: BridgeTape,
}

/// A relation to be proved with the succinct bridge to the Akita scheme, and the challenges for
/// it.
#[derive(Debug, PartialEq, Eq)]
pub struct AkitaSuccinctStatement {
    /// The oracle.
    pub oracle: AkitaSuccinctOracle,
    /// The values of the oracle.
    pub message: Vec<BiniusScalar>,
    /// The values of the transparent polynomial on all vertices.
    pub transparent: Vec<BiniusScalar>,
    /// The challenges up to the two openings.
    pub challenges: BridgeChallenges,
}

impl AkitaSuccinctProverChannel {
    /// Whether a relation is on an oracle that has been sent, with a challenge for each round.
    pub open spec fn fits(&self, s: AkitaSuccinctStatement) -> bool {
        &&& self.tables.can_prove(s.oracle.position(), s.message@, s.transparent@)
        &&& s.challenges.has_rounds(self.tables.rounds(s.oracle.position()))
    }

    /// Whether a proof is the honest one of a relation, which is accepted.
    pub open spec fn proves(&self, s: AkitaSuccinctStatement, p: SuccinctProof) -> bool {
        let rounds = self.tables.rounds(s.oracle.position());
        &&& p.claim == linear_claim(s.message@, s.transparent@)
        &&& sampled_with(p.tape, s.challenges)
        &&& is_honest_tape(p.tape, s.message@, s.transparent@, rounds)
        &&& p.tape.accepted(rounds, s.transparent@, p.claim)
    }

    /// Proves relations one after the other, unless the public bounds of the sums of one of them
    /// overflow.
    pub fn prove_oracle_relations(&self, relations: &[AkitaSuccinctStatement]) -> (r: Result<
        Vec<SuccinctProof>,
        BatchedParityBridgeError,
    >)
        requires
            forall|i: int| 0 <= i < relations@.len() ==> self.fits(#[trigger] relations@[i]),
        ensures
            match r {
                Ok(proofs) => proofs@.len() == relations@.len() && forall|i: int|
                    0 <= i < relations@.len() ==> self.proves(
                        #[trigger] relations@[i],
                        proofs@[i],
                    ),
                Err(e) => exists|k: int|
                    0 <= k < relations@.len() && reports_overflow(
                        e,
                        basis_products((#[trigger] relations@[k]).transparent@),
                        1,
                    ),
            },
    {
        let mut proofs: Vec<SuccinctProof> = Vec::with_capacity(relations.len());
        let mut k: usize = 0;
        while k < relations.len()
            invariant
                k <= relations@.len(),
                proofs@.len() == k,
                forall|i: int| 0 <= i < relations@.len() ==> self.fits(#[trigger] relations@[i]),
                forall|i: int|
                    0 <= i < k ==> self.proves(#[trigger] relations@[i], proofs@[i]),
            decreases relations@.len() - k,
        {
            let relation: &AkitaSuccinctStatement = &relations[k];
            assert(self.fits(relations@[k as int]));
            match self.prove_oracle_relation(
                relation.oracle,
                relation.message.as_slice(),
                relation.transparent.as_slice(),
                &relation.challenges,
            ) {
                Ok((claim, tape)) => {
                    let ghost before = proofs@;
                    proofs.push(SuccinctProof { claim, tape });
                    proof {
                        assert(self.proves(relations@[k as int], proofs@[k as int]));
                        assert forall|i: int| 0 <= i < k + 1 implies self.proves(
                            #[trigger] relations@[i],
                            proofs@[i],
                        ) by {
                            if i < k {
                                assert(proofs@[i] == before[i]);
                            }
                        }
                    }
                },
                Err(e) => {
                    return Err(e);
                },
            }
            k = k + 1;
        }
        Ok(proofs)
    }
}

/// A relation to be proved with the succinct bridge to the Hachi scheme, and the challenges for
/// it.
#[derive(Debug, PartialEq, Eq)]
pub struct HachiSuccinctStatement {
    /// The oracle.
    pub oracle: HachiSuccinctOracle,
    /// The values of the oracle.
    pub message: Vec<BiniusScalar>,
    /// The values of the transparent polynomial on all vertices.
    pub transparent: Vec<BiniusScalar>,
    /// The challenges up to the two openings.
    pub challenges: BridgeChallenges,
}

impl HachiSuccinctProverChannel {
    /// Whether a relation is on an oracle that has been sent, with a challenge for each round.
    pub open spec fn fits(&self, s: HachiSuccinctStatement) -> bool {
        &&& self.tables.can_prove(s.oracle.position(), s.message@, s.transparent@)
        &&& s.challenges.has_rounds(self.tables.rounds(s.oracle.position()))
    }

    /// Whether a proof is the honest one of a relation, which is accepted.
    pub open spec fn proves(&self, s: HachiSuccinctStatement, p: SuccinctProof) -> bool {
        let rounds = self.tables.rounds(s.oracle.position());
        &&& p.claim == linear_claim(s.message@, s.transparent@)
        &&& sampled_with(p.tape, s.challenges)
        &&& is_honest_tape(p.tape, s.message@, s.transparent@, rounds)
        &&& p.tape.accepted(rounds, s.transparent@, p.claim)
    }

    /// Proves relations one after the other, unless the public bounds of the sums of one of them
    /// overflow.
    pub fn prove_oracle_relations(&self, relations: &[HachiSuccinctStatement]) -> (r: Result<
        Vec<SuccinctProof>,
        BatchedParityBridgeError,
    >)
        requires
            forall|i: int| 0 <= i < relations@.len() ==> self.fits(#[trigger] relations@[i]),
        ensures
            match r {
                Ok(proofs) => proofs@.len() == relations@.len() && forall|i: int|
                    0 <= i < relations@.len() ==> self.proves(
                        #[trigger] relations@[i],
                        proofs@[i],
                    ),
                Err(e) => exists|k: int|
                    0 <= k < relations@.len() && reports_overflow(
                        e,
                        basis_products((#[trigger] relations@[k]).transparent@),
                        1,
                    ),
            },
    {
        let mut proofs: Vec<SuccinctProof> = Vec::with_capacity(relations.len());
        let mut k: usize = 0;
        while k < relations.len()
            invariant
                k <= relations@.len(),
                proofs@.len() == k,
                forall|i: int| 0 <= i < relations@.len() ==> self.fits(#[trigger] relations@[i]),
                forall|i: int|
                    0 <= i < k ==> self.proves(#[trigger] relations@[i], proofs@[i]),
            decreases relations@.len() - k,
        {
            let relation: &HachiSuccinctStatement = &relations[k];
            assert(self.fits(relations@[k as int]));
            match self.prove_oracle_relation(
                relation.oracle,
                relation.message.as_slice(),
                relation.transparent.as_slice(),
                &relation.challenges,
            ) {
                Ok((claim, tape)) => {
                    let ghost before = proofs@;
                    proofs.push(SuccinctProof { claim, tape });
                    proof {
                        assert(self.proves(relations@[k as int], proofs@[k as int]));
                        assert forall|i: int| 0 <= i < k + 1 implies self.proves(
                            #[trigger] relations@[i],
                            proofs@[i],
                        ) by {
                            if i < k {
                                assert(proofs@[i] == before[i]);
                            }
                        }
                    }
                },
                Err(e) => {
                    return Err(e);
                },
            }
            k = k + 1;
        }
        Ok(proofs)
    }
}

/// A relation to be proved with the full-opening bridge.
#[derive(Debug, PartialEq, Eq)]
pub struct FullOpenStatement {
    /// The oracle.
    pub oracle: HachiFullOpenOracle,
    /// The values of the oracle.
    pub message: Vec<BiniusScalar>,
    /// The values of the transparent polynomial on all vertices.
    pub transparent: Vec<BiniusScalar>,
}

/// A proof of a relation with the full-opening bridge. The transparent values are sent too.
#[derive(Debug, PartialEq, Eq)]
pub struct FullOpenProof {
    /// The inner product of the oracle and the transparent values.
    pub claim: BiniusScalar,
    /// The selected-bit sums.
    pub opened_sums: [u64; 128],
}

/// Whether a proof holds the claim and the sums of a relation, which are accepted wherever the
/// public bounds of the sums do not overflow.
pub open spec fn fully_proves(s: FullOpenStatement, p: FullOpenProof) -> bool {
    &&& p.claim == linear_claim(s.message@, s.transparent@)
    &&& holds_counts(p.opened_sums@, selected_products(s.message@, s.transparent@), 1)
    &&& forall|bounds: Seq<u64>| #[trigger]
        holds_counts(bounds, basis_products(s.transparent@), 1) ==> sums_checked(
            p.opened_sums@,
            s.transparent@,
            p.claim,
        )
}

impl HachiFullOpenProverChannel {
    /// Whether a relation is on an oracle that has been sent and has the right lengths.
    pub open spec fn fits(&self, s: FullOpenStatement) -> bool {
        &&& s.oracle.position() < self.queue.sent()
        &&& s.message@.len() == pow2(
            self.queue.specs()[s.oracle.position() as int].log_msg_len as nat,
        )
        &&& s.transparent@.len() == s.message@.len()
    }

    /// Proves relations one after the other, unless the sums of one of them overflow.
    pub fn prove_oracle_relations(&self, relations: &[FullOpenStatement]) -> (r: Result<
        Vec<FullOpenProof>,
        BatchedParityBridgeError,
    >)
        requires
            forall|i: int| 0 <= i < relations@.len() ==> self.fits(#[trigger] relations@[i]),
        ensures
            match r {
                Ok(proofs) => proofs@.len() == relations@.len() && forall|i: int|
                    0 <= i < relations@.len() ==> fully_proves(
                        #[trigger] relations@[i],
                        proofs@[i],
                    ),
                Err(e) => exists|k: int|
                    0 <= k < relations@.len() && reports_overflow(
                        e,
                        selected_products(
                            (#[trigger] relations@[k]).message@,
                            relations@[k].transparent@,
                        ),
                        1,
                    ),
            },
    {
        let mut proofs: Vec<FullOpenProof> = Vec::with_capacity(relations.len());
        let mut k: usize = 0;
        while k < relations.len()
            invariant
                k <= relations@.len(),
                proofs@.len() == k,
                forall|i: int| 0 <= i < relations@.len() ==> self.fits(#[trigger] relations@[i]),
                forall|i: int|
                    0 <= i < k ==> fully_proves(#[trigger] relations@[i], proofs@[i]),
            decreases relations@.len() - k,
        {
            let relation: &FullOpenStatement = &relations[k];
            assert(self.fits(relations@[k as int]));
            match prove_full_open_relation(
                relation.message.as_slice(),
                relation.transparent.as_slice(),
            ) {
                Ok((claim, opened_sums)) => {
                    let ghost before = proofs@;
                    proofs.push(FullOpenProof { claim, opened_sums });
                    proof {
                        assert(fully_proves(relations@[k as int], proofs@[k as int]));
                        assert forall|i: int| 0 <= i < k + 1 implies fully_proves(
                            #[trigger] relations@[i],
                            proofs@[i],
                        ) by {
                            if i < k {
                                assert(proofs@[i] == before[i]);
                            }
                        }
                    }
                },
                Err(e) => {
                    return Err(e);
                },
            }
            k = k + 1;
        }
        Ok(proofs)
    }
}

} // verus!
