//! Channels: which oracles have been sent, and what a relation on one of them is checked against.
//!
//! A channel keeps the order of the oracles. The commitments, the opening proofs and the transcript
//! itself are the caller's.

use vstd::arithmetic::power2::pow2;
use vstd::prelude::*;

use super::error::{BatchedParityBridgeError, ChannelError};
use super::fp128::{residue, residues, Fp128};
use super::masks::bit_table;
use super::opening::{check_opening_shape, OpeningSchedule};
use super::parity::{
    basis_products, holds_counts, linear_claim, prove_terminal_linear_claim, reports_overflow,
    selected_products, sums_checked, BiniusScalar,
};
use super::prover::{
    is_honest_reduction, is_honest_tape, oracle_bit_table, prove_claim_reduced_relation,
    prove_succinct_relation, sampled_with, BridgeChallenges,
};
use super::relation::{
    check_transparent, is_invertible, verify_claim_reduced_relation,
    verify_full_open_relation, verify_succinct_relation, BridgeTape, ClaimReducedTape, OpeningClaim,
};
use super::shape::BatchedProofShape;
use crate::ghash::B128;
use crate::multilinear::evaluation;
use crate::powers::is_power;

verus! {

/// What is known of an oracle before it is sent.
#[derive(Debug, Clone, Copy, PartialEq, Eq, Structural)]
pub struct OracleSpec {
    /// Log2 of the number of scalars in the oracle message.
    pub log_msg_len: usize,
}

/// The oracles that are still to come.
#[derive(Debug, PartialEq, Eq)]
pub struct OracleQueue {
    oracle_specs: Vec<OracleSpec>,
    next_oracle_index: usize,
}

impl OracleQueue {
    /// All oracles, sent or not.
    pub closed spec fn specs(&self) -> Seq<OracleSpec> {
        self.oracle_specs@
    }

    /// The number of oracles that have been sent.
    pub closed spec fn sent(&self) -> nat {
        self.next_oracle_index as nat
    }

    /// No more oracles have been sent than there are.
    pub closed spec fn is_valid(&self) -> bool {
        self.next_oracle_index <= self.oracle_specs@.len()
    }

    /// Creates a queue of which nothing has been sent.
    pub fn new(oracle_specs: Vec<OracleSpec>) -> (r: Self)
        ensures
            r.is_valid(),
            r.specs() == oracle_specs@,
            r.sent() == 0,
    {
        OracleQueue { oracle_specs, next_oracle_index: 0 }
    }

    /// Returns the oracles that have not been sent yet.
    pub fn remaining_oracle_specs(&self) -> (r: &[OracleSpec])
        requires
            self.is_valid(),
        ensures
            r@ == self.specs().skip(self.sent() as int),
    {
        let n: usize = self.oracle_specs.len();
        let r: &[OracleSpec] = vstd::slice::slice_subrange(
            self.oracle_specs.as_slice(),
            self.next_oracle_index,
            n,
        );
        assert(self.oracle_specs@.subrange(self.next_oracle_index as int, n as int)
            =~= self.oracle_specs@.skip(self.next_oracle_index as int));
        r
    }

    /// Takes the next oracle: returns its index and what is known of it.
    fn take(&mut self) -> (r: (usize, OracleSpec))
        requires
            old(self).is_valid(),
            old(self).sent() < old(self).specs().len(),
        ensures
            final(self).is_valid(),
            final(self).specs() == old(self).specs(),
            final(self).sent() == old(self).sent() + 1,
            r.0 == old(self).sent(),
            r.1 == old(self).specs()[r.0 as int],
    {
        let index: usize = self.next_oracle_index;
        let total: usize = self.oracle_specs.len();
        let spec: OracleSpec = self.oracle_specs[index];
        assert(index < total);
        self.next_oracle_index = index + 1;
        (index, spec)
    }

    /// Returns what is known of an oracle that has been sent.
    fn sent_spec(&self, index: usize) -> (r: OracleSpec)
        requires
            self.is_valid(),
            index < self.sent(),
        ensures
            r == self.specs()[index as int],
    {
        self.oracle_specs[index]
    }
}

/// Per-oracle parameters of the commitment scheme in the claim-reduced bridge.
#[derive(Debug, Clone, Copy, PartialEq, Eq, Structural)]
pub struct AkitaClaimReducedOracleSetup {
    log_msg_len: usize,
}

impl AkitaClaimReducedOracleSetup {
    /// Log2 of the length of the oracle.
    pub closed spec fn variables(&self) -> nat {
        self.log_msg_len as nat
    }

    /// Returns log2 of the oracle length that this setup supports.
    pub fn log_msg_len(&self) -> (r: usize)
        ensures
            r == self.variables(),
    {
        self.log_msg_len
    }

    /// Returns the number of variables of the committed one-hot polynomial: seven for the bits of a
    /// scalar, and one that tells a bit from its complement.
    pub fn committed_num_vars(&self) -> (r: usize)
        requires
            self.variables() <= usize::MAX - 8,
        ensures
            r == self.variables() + 8,
    {
        self.log_msg_len + 8
    }
}

/// Parameters of the commitment scheme for all oracles of the claim-reduced bridge.
#[derive(Debug, PartialEq, Eq)]
pub struct AkitaClaimReducedSetup {
    oracle_setups: Vec<AkitaClaimReducedOracleSetup>,
}

/// Whether an oracle is long enough for the ring dimension of the commitment scheme.
pub open spec fn is_supported(spec: OracleSpec) -> bool {
    spec.log_msg_len >= 7
}

impl AkitaClaimReducedSetup {
    /// The parameters of all oracles.
    pub closed spec fn setups(&self) -> Seq<AkitaClaimReducedOracleSetup> {
        self.oracle_setups@
    }

    /// Returns whether all oracles are supported.
    pub fn supports(oracle_specs: &[OracleSpec]) -> (r: bool)
        ensures
            r == (forall|i: int| 0 <= i < oracle_specs@.len() ==> is_supported(#[trigger] oracle_specs@[i])),
    {
        let mut i: usize = 0;
        while i < oracle_specs.len()
            invariant
                i <= oracle_specs@.len(),
                forall|j: int| 0 <= j < i ==> is_supported(#[trigger] oracle_specs@[j]),
            decreases oracle_specs@.len() - i,
        {
            if oracle_specs[i].log_msg_len < 7 {
                assert(!is_supported(oracle_specs@[i as int]));
                return false;
            }
            i = i + 1;
        }
        true
    }

    /// Builds the parameters from the oracle specs.
    pub fn new(oracle_specs: &[OracleSpec]) -> (r: Self)
        requires
            forall|i: int| 0 <= i < oracle_specs@.len() ==> is_supported(#[trigger] oracle_specs@[i]),
        ensures
            r.setups().len() == oracle_specs@.len(),
            forall|i: int|
                0 <= i < oracle_specs@.len() ==> (#[trigger] r.setups()[i]).variables()
                    == oracle_specs@[i].log_msg_len,
    {
        let mut oracle_setups: Vec<AkitaClaimReducedOracleSetup> = Vec::new();
        let mut i: usize = 0;
        while i < oracle_specs.len()
            invariant
                i <= oracle_specs@.len(),
                oracle_setups@.len() == i,
                forall|j: int|
                    0 <= j < i ==> (#[trigger] oracle_setups@[j]).variables()
                        == oracle_specs@[j].log_msg_len,
            decreases oracle_specs@.len() - i,
        {
            oracle_setups.push(
                AkitaClaimReducedOracleSetup { log_msg_len: oracle_specs[i].log_msg_len },
            );
            i = i + 1;
        }
        AkitaClaimReducedSetup { oracle_setups }
    }

    /// Returns the parameters for an oracle index.
    pub fn oracle_setup(&self, index: usize) -> (r: &AkitaClaimReducedOracleSetup)
        requires
            index < self.setups().len(),
        ensures
            *r == self.setups()[index as int],
    {
        &self.oracle_setups[index]
    }
}

/// Per-oracle parameters of the commitment scheme in the succinct bridge to the
/// Hachi scheme.
#[derive(Debug, Clone, Copy, PartialEq, Eq, Structural)]
pub struct HachiSuccinctOracleSetup {
    log_msg_len: usize,
}

impl HachiSuccinctOracleSetup {
    /// Log2 of the length of the oracle.
    pub closed spec fn variables(&self) -> nat {
        self.log_msg_len as nat
    }

    /// Returns log2 of the oracle length that this setup supports.
    pub fn log_msg_len(&self) -> (r: usize)
        ensures
            r == self.variables(),
    {
        self.log_msg_len
    }

    /// Returns the number of variables of the committed one-hot polynomial: seven for the bits of a
    /// scalar, and one that tells a bit from its complement.
    pub fn committed_num_vars(&self) -> (r: usize)
        requires
            self.variables() <= usize::MAX - 8,
        ensures
            r == self.variables() + 8,
    {
        self.log_msg_len + 8
    }
}

/// Parameters of the commitment scheme for all oracles of the succinct bridge to the Hachi
/// scheme.
#[derive(Debug, PartialEq, Eq)]
pub struct HachiSuccinctSetup {
    oracle_setups: Vec<HachiSuccinctOracleSetup>,
}

impl HachiSuccinctSetup {
    /// The parameters of all oracles.
    pub closed spec fn setups(&self) -> Seq<HachiSuccinctOracleSetup> {
        self.oracle_setups@
    }

    /// Builds the parameters from the oracle specs.
    pub fn new(oracle_specs: &[OracleSpec]) -> (r: Self)
        requires
            forall|i: int| 0 <= i < oracle_specs@.len() ==> is_supported(#[trigger] oracle_specs@[i]),
        ensures
            r.setups().len() == oracle_specs@.len(),
            forall|i: int|
                0 <= i < oracle_specs@.len() ==> (#[trigger] r.setups()[i]).variables()
                    == oracle_specs@[i].log_msg_len,
    {
        let mut oracle_setups: Vec<HachiSuccinctOracleSetup> = Vec::new();
        let mut i: usize = 0;
        while i < oracle_specs.len()
            invariant
                i <= oracle_specs@.len(),
                oracle_setups@.len() == i,
                forall|j: int|
                    0 <= j < i ==> (#[trigger] oracle_setups@[j]).variables()
                        == oracle_specs@[j].log_msg_len,
            decreases oracle_specs@.len() - i,
        {
            oracle_setups.push(
                HachiSuccinctOracleSetup { log_msg_len: oracle_specs[i].log_msg_len },
            );
            i = i + 1;
        }
        HachiSuccinctSetup { oracle_setups }
    }

    /// Returns the parameters for an oracle index.
    pub fn oracle_setup(&self, index: usize) -> (r: &HachiSuccinctOracleSetup)
        requires
            index < self.setups().len(),
        ensures
            *r == self.setups()[index as int],
    {
        &self.oracle_setups[index]
    }
}

/// Oracle handle of the claim-reduced bridge.
#[derive(Debug, Clone, Copy, PartialEq, Eq, Structural)]
pub struct AkitaClaimReducedOracle {
    index: usize,
}

/// Oracle handle of the succinct bridge to the Akita scheme.
#[derive(Debug, Clone, Copy, PartialEq, Eq, Structural)]
pub struct AkitaSuccinctOracle {
    index: usize,
}

/// Oracle handle of the succinct bridge to the Hachi scheme.
#[derive(Debug, Clone, Copy, PartialEq, Eq, Structural)]
pub struct HachiSuccinctOracle {
    index: usize,
}

/// Oracle handle of the full-opening bridge.
#[derive(Debug, Clone, Copy, PartialEq, Eq, Structural)]
pub struct HachiFullOpenOracle {
    index: usize,
}

impl AkitaClaimReducedOracle {
    /// The index of the oracle.
    pub closed spec fn position(&self) -> nat {
        self.index as nat
    }

    /// Returns the index of the oracle.
    pub fn index(&self) -> (r: usize)
        ensures
            r == self.position(),
    {
        self.index
    }
}

impl AkitaSuccinctOracle {
    /// The index of the oracle.
    pub closed spec fn position(&self) -> nat {
        self.index as nat
    }

    /// Returns the index of the oracle.
    pub fn index(&self) -> (r: usize)
        ensures
            r == self.position(),
    {
        self.index
    }
}

impl HachiSuccinctOracle {
    /// The index of the oracle.
    pub closed spec fn position(&self) -> nat {
        self.index as nat
    }

    /// Returns the index of the oracle.
    pub fn index(&self) -> (r: usize)
        ensures
            r == self.position(),
    {
        self.index
    }
}

impl HachiFullOpenOracle {
    /// The index of the oracle.
    pub closed spec fn position(&self) -> nat {
        self.index as nat
    }

    /// Returns the index of the oracle.
    pub fn index(&self) -> (r: usize)
        ensures
            r == self.position(),
    {
        self.index
    }
}

/// Verifier channel of the claim-reduced bridge.
#[derive(Debug, PartialEq, Eq)]
pub struct AkitaClaimReducedVerifierChannel {
    pub queue: OracleQueue,
}

impl AkitaClaimReducedVerifierChannel {
    /// Creates a verifier channel.
    pub fn new(oracle_specs: Vec<OracleSpec>) -> (r: Self)
        ensures
            r.queue.is_valid(),
            r.queue.specs() == oracle_specs@,
            r.queue.sent() == 0,
    {
        AkitaClaimReducedVerifierChannel { queue: OracleQueue::new(oracle_specs) }
    }

    /// Takes note that the commitment of the next oracle has been received.
    pub fn recv_oracle(&mut self) -> (r: AkitaClaimReducedOracle)
        requires
            old(self).queue.is_valid(),
            old(self).queue.sent() < old(self).queue.specs().len(),
        ensures
            final(self).queue.is_valid(),
            final(self).queue.specs() == old(self).queue.specs(),
            final(self).queue.sent() == old(self).queue.sent() + 1,
            r.position() == old(self).queue.sent(),
    {
        let (index, _) = self.queue.take();
        AkitaClaimReducedOracle { index }
    }

    /// Verifies a relation on an oracle that has been received, up to one opening of its
    /// commitment.
    pub fn verify_oracle_relation(
        &self,
        oracle: AkitaClaimReducedOracle,
        transparent: &[BiniusScalar],
        claim: BiniusScalar,
        tape: &ClaimReducedTape,
    ) -> (r: Result<OpeningClaim, ChannelError>)
        requires
            self.queue.is_valid(),
            oracle.position() < self.queue.sent(),
            self.queue.specs()[oracle.position() as int].log_msg_len <= usize::MAX - 7,
            transparent@.len() == pow2(
                self.queue.specs()[oracle.position() as int].log_msg_len as nat,
            ),
        ensures
            ({
                let rounds = (self.queue.specs()[oracle.position() as int].log_msg_len + 7) as nat;
                match r {
                    Ok(opening) => {
                        &&& tape.accepted(rounds, transparent@, claim)
                        &&& residues(opening.point@) == seq![1int] + residues(
                            tape.reduction.challenges@,
                        )
                        &&& tape.reduction.accepted(tape.combined_claim(), rounds) == Some(
                            residue(opening.value@ * tape.indicator()),
                        )
                    },
                    Err(e) => e == ChannelError::ProofEmpty && !tape.accepted(
                        rounds,
                        transparent@,
                        claim,
                    ),
                }
            }),
    {
        let spec: OracleSpec = self.queue.sent_spec(oracle.index);
        verify_claim_reduced_relation(spec.log_msg_len, transparent, claim, tape)
    }
}

/// A relation on an oracle of the claim-reduced bridge, with what was received for it.
#[derive(Debug, PartialEq, Eq)]
pub struct ClaimReducedRelation {
    /// The oracle.
    pub oracle: AkitaClaimReducedOracle,
    /// The values of the transparent polynomial on all vertices.
    pub transparent: Vec<BiniusScalar>,
    /// The claimed inner product of the oracle and the transparent values.
    pub claim: BiniusScalar,
    /// What was received and sampled.
    pub tape: ClaimReducedTape,
    /// The folding schedule of the opening.
    pub schedule: OpeningSchedule,
    /// The shape of the opening proof that was received.
    pub shape: BatchedProofShape,
    /// The point that was sampled last.
    pub point: Vec<BiniusScalar>,
    /// The value of the transparent polynomial at that point.
    pub transparent_eval: BiniusScalar,
}

/// Whether an opening claim is the one that a tape of the claim-reduced bridge leads to.
pub open spec fn is_reduced_opening(tape: ClaimReducedTape, rounds: nat, o: OpeningClaim) -> bool {
    &&& residues(o.point@) == seq![1int] + residues(tape.reduction.challenges@)
    &&& tape.reduction.accepted(tape.combined_claim(), rounds) == Some(
        residue(o.value@ * tape.indicator()),
    )
}

impl AkitaClaimReducedVerifierChannel {
    /// Log2 of the length of the oracle of a relation.
    pub open spec fn log_len(&self, relation: ClaimReducedRelation) -> usize {
        self.queue.specs()[relation.oracle.position() as int].log_msg_len
    }

    /// Whether a relation is on an oracle that has been received and has the right lengths.
    pub open spec fn fits(&self, relation: ClaimReducedRelation) -> bool {
        &&& relation.oracle.position() < self.queue.sent()
        &&& self.log_len(relation) <= usize::MAX - 7
        &&& relation.transparent@.len() == pow2(self.log_len(relation) as nat)
        &&& relation.point@.len() == self.log_len(relation)
        &&& relation.schedule.fits()
    }

    /// Whether a relation is reduced to an opening claim, with an opening proof of the expected
    /// shape, on which the commitment scheme gives the given verdict.
    pub open spec fn opens_to<V: Fn(usize, &OpeningClaim) -> bool>(
        &self,
        relation: ClaimReducedRelation,
        opens: V,
        verdict: bool,
    ) -> bool {
        let rounds = (self.log_len(relation) + 7) as nat;
        &&& relation.tape.accepted(rounds, relation.transparent@, relation.claim)
        &&& relation.schedule.leads_to(relation.shape)
        &&& exists|o: &OpeningClaim| #[trigger]
            opens.ensures((relation.oracle.position() as usize, o), verdict) && is_reduced_opening(
                relation.tape,
                rounds,
                *o,
            )
    }

    /// Whether all checks of a relation succeed.
    pub open spec fn relation_holds<V: Fn(usize, &OpeningClaim) -> bool>(
        &self,
        relation: ClaimReducedRelation,
        opens: V,
    ) -> bool {
        &&& self.opens_to(relation, opens, true)
        &&& relation.transparent_eval == evaluation(relation.transparent@, relation.point@)
    }

    /// Whether a check of a relation fails with the given error.
    pub open spec fn relation_fails<V: Fn(usize, &OpeningClaim) -> bool>(
        &self,
        relation: ClaimReducedRelation,
        opens: V,
        e: ChannelError,
    ) -> bool {
        let rounds = (self.log_len(relation) + 7) as nat;
        match e {
            ChannelError::ProofEmpty => !relation.tape.accepted(
                rounds,
                relation.transparent@,
                relation.claim,
            ) || !relation.schedule.leads_to(relation.shape) || self.opens_to(
                relation,
                opens,
                false,
            ),
            ChannelError::InvalidAssert => self.opens_to(relation, opens, true)
                && relation.transparent_eval != evaluation(relation.transparent@, relation.point@),
        }
    }

    /// Verifies relations one after the other, up to the first that fails. An opening proof that
    /// does not have the shape that its schedule leads to is refused. What the commitment scheme
    /// says of an opening of an oracle is asked of `opens`.
    pub fn verify_oracle_relations<V: Fn(usize, &OpeningClaim) -> bool>(
        &self,
        relations: &[ClaimReducedRelation],
        opens: V,
    ) -> (r: Result<(), ChannelError>)
        requires
            self.queue.is_valid(),
            forall|i: int| 0 <= i < relations@.len() ==> self.fits(#[trigger] relations@[i]),
            forall|index: usize, o: &OpeningClaim| #[trigger] opens.requires((index, o)),
        ensures
            match r {
                Ok(_) => forall|i: int|
                    0 <= i < relations@.len() ==> self.relation_holds(
                        #[trigger] relations@[i],
                        opens,
                    ),
                Err(e) => exists|k: int|
                    0 <= k < relations@.len() && self.relation_fails(
                        #[trigger] relations@[k],
                        opens,
                        e,
                    ) && forall|i: int|
                        0 <= i < k ==> self.relation_holds(#[trigger] relations@[i], opens),
            },
    {
        let mut k: usize = 0;
        while k < relations.len()
            invariant
                k <= relations@.len(),
                self.queue.is_valid(),
                forall|i: int| 0 <= i < relations@.len() ==> self.fits(#[trigger] relations@[i]),
                forall|index: usize, o: &OpeningClaim| #[trigger] opens.requires((index, o)),
                forall|i: int|
                    0 <= i < k ==> self.relation_holds(#[trigger] relations@[i], opens),
            decreases relations@.len() - k,
        {
            let relation: &ClaimReducedRelation = &relations[k];
            assert(self.fits(relations@[k as int]));
            let r: Result<(), ChannelError> = self.check_relation(relation, &opens);
            match r {
                Ok(_) => {},
                Err(e) => {
                    assert(self.relation_fails(relations@[k as int], opens, e));
                    return Err(e);
                },
            }
            k = k + 1;
        }
        Ok(())
    }

    /// Verifies one relation.
    fn check_relation<V: Fn(usize, &OpeningClaim) -> bool>(
        &self,
        relation: &ClaimReducedRelation,
        opens: &V,
    ) -> (r: Result<(), ChannelError>)
        requires
            self.queue.is_valid(),
            self.fits(*relation),
            forall|index: usize, o: &OpeningClaim| #[trigger] opens.requires((index, o)),
        ensures
            match r {
                Ok(_) => self.relation_holds(*relation, *opens),
                Err(e) => self.relation_fails(*relation, *opens, e),
            },
    {
        let opening: OpeningClaim = match self.verify_oracle_relation(
            relation.oracle,
            relation.transparent.as_slice(),
            relation.claim,
            &relation.tape,
        ) {
            Ok(opening) => opening,
            Err(e) => {
                return Err(e);
            },
        };
        match check_opening_shape(&relation.schedule, &relation.shape) {
            Ok(_) => {},
            Err(e) => {
                return Err(e);
            },
        }
        let verdict: bool = opens(relation.oracle.index, &opening);
        assert(opens.ensures((relation.oracle.position() as usize, &opening), verdict));
        if !verdict {
            return Err(ChannelError::ProofEmpty);
        }
        check_transparent(
            relation.transparent.as_slice(),
            relation.point.as_slice(),
            relation.transparent_eval,
        )
    }
}

/// Verifier channel of the succinct bridge.
#[derive(Debug, PartialEq, Eq)]
pub struct HachiSuccinctVerifierChannel {
    pub queue: OracleQueue,
}

impl HachiSuccinctVerifierChannel {
    /// Creates a verifier channel.
    pub fn new(oracle_specs: Vec<OracleSpec>) -> (r: Self)
        ensures
            r.queue.is_valid(),
            r.queue.specs() == oracle_specs@,
            r.queue.sent() == 0,
    {
        HachiSuccinctVerifierChannel { queue: OracleQueue::new(oracle_specs) }
    }

    /// Takes note that the commitment of the next oracle has been received.
    pub fn recv_oracle(&mut self) -> (r: HachiSuccinctOracle)
        requires
            old(self).queue.is_valid(),
            old(self).queue.sent() < old(self).queue.specs().len(),
        ensures
            final(self).queue.is_valid(),
            final(self).queue.specs() == old(self).queue.specs(),
            final(self).queue.sent() == old(self).queue.sent() + 1,
            r.position() == old(self).queue.sent(),
    {
        let (index, _) = self.queue.take();
        HachiSuccinctOracle { index }
    }

    /// Verifies a relation on an oracle that has been received, up to two openings of its
    /// commitment.
    pub fn verify_oracle_relation(
        &self,
        oracle: HachiSuccinctOracle,
        transparent: &[BiniusScalar],
        claim: BiniusScalar,
        tape: &BridgeTape,
    ) -> (r: Result<(OpeningClaim, OpeningClaim), ChannelError>)
        requires
            self.queue.is_valid(),
            oracle.position() < self.queue.sent(),
            self.queue.specs()[oracle.position() as int].log_msg_len <= usize::MAX - 7,
            transparent@.len() == pow2(
                self.queue.specs()[oracle.position() as int].log_msg_len as nat,
            ),
        ensures
            ({
                let rounds = (self.queue.specs()[oracle.position() as int].log_msg_len + 7) as nat;
                match r {
                    Ok((selected, boolean)) => {
                        &&& tape.accepted(rounds, transparent@, claim)
                        &&& residues(selected.point@) == seq![1int] + residues(
                            tape.selected.challenges@,
                        )
                        &&& selected.value@ == tape.selected_opening@
                        &&& residues(boolean.point@) == seq![1int] + residues(
                            tape.booleanity.challenges@,
                        )
                        &&& boolean.value@ == tape.bool_opening@
                    },
                    Err(e) => e == ChannelError::ProofEmpty && !tape.accepted(
                        rounds,
                        transparent@,
                        claim,
                    ),
                }
            }),
    {
        let spec: OracleSpec = self.queue.sent_spec(oracle.index);
        verify_succinct_relation(spec.log_msg_len, transparent, claim, tape)
    }
}

/// A relation on an oracle of the succinct bridge, with what was received for it.
#[derive(Debug, PartialEq, Eq)]
pub struct SuccinctRelation {
    /// The oracle.
    pub oracle: HachiSuccinctOracle,
    /// The values of the transparent polynomial on all vertices.
    pub transparent: Vec<BiniusScalar>,
    /// The claimed inner product of the oracle and the transparent values.
    pub claim: BiniusScalar,
    /// What was received and sampled.
    pub tape: BridgeTape,
    /// The point that was sampled last.
    pub point: Vec<BiniusScalar>,
    /// The value of the transparent polynomial at that point.
    pub transparent_eval: BiniusScalar,
}

/// Whether two opening claims are those that a tape of the succinct bridge leads to.
pub open spec fn are_openings(tape: BridgeTape, a: OpeningClaim, b: OpeningClaim) -> bool {
    &&& residues(a.point@) == seq![1int] + residues(tape.selected.challenges@)
    &&& a.value@ == tape.selected_opening@
    &&& residues(b.point@) == seq![1int] + residues(tape.booleanity.challenges@)
    &&& b.value@ == tape.bool_opening@
}

impl HachiSuccinctVerifierChannel {
    /// Log2 of the length of the oracle of a relation.
    pub open spec fn log_len(&self, relation: SuccinctRelation) -> usize {
        self.queue.specs()[relation.oracle.position() as int].log_msg_len
    }

    /// Whether a relation is on an oracle that has been received and has the right lengths.
    pub open spec fn fits(&self, relation: SuccinctRelation) -> bool {
        &&& relation.oracle.position() < self.queue.sent()
        &&& self.log_len(relation) <= usize::MAX - 7
        &&& relation.transparent@.len() == pow2(self.log_len(relation) as nat)
        &&& relation.point@.len() == self.log_len(relation)
    }

    /// Whether a relation is reduced to opening claims on which the commitment scheme gives the
    /// given verdict.
    pub open spec fn opens_to<V: Fn(usize, &OpeningClaim, &OpeningClaim) -> bool>(
        &self,
        relation: SuccinctRelation,
        opens: V,
        verdict: bool,
    ) -> bool {
        let rounds = (self.log_len(relation) + 7) as nat;
        &&& relation.tape.accepted(rounds, relation.transparent@, relation.claim)
        &&& exists|a: &OpeningClaim, b: &OpeningClaim| #[trigger]
            opens.ensures((relation.oracle.position() as usize, a, b), verdict) && are_openings(
                relation.tape,
                *a,
                *b,
            )
    }

    /// Whether all checks of a relation succeed.
    pub open spec fn relation_holds<V: Fn(usize, &OpeningClaim, &OpeningClaim) -> bool>(
        &self,
        relation: SuccinctRelation,
        opens: V,
    ) -> bool {
        &&& self.opens_to(relation, opens, true)
        &&& relation.transparent_eval == evaluation(relation.transparent@, relation.point@)
    }

    /// Whether a check of a relation fails with the given error.
    pub open spec fn relation_fails<V: Fn(usize, &OpeningClaim, &OpeningClaim) -> bool>(
        &self,
        relation: SuccinctRelation,
        opens: V,
        e: ChannelError,
    ) -> bool {
        let rounds = (self.log_len(relation) + 7) as nat;
        match e {
            ChannelError::ProofEmpty => !relation.tape.accepted(
                rounds,
                relation.transparent@,
                relation.claim,
            ) || self.opens_to(relation, opens, false),
            ChannelError::InvalidAssert => self.opens_to(relation, opens, true)
                && relation.transparent_eval != evaluation(relation.transparent@, relation.point@),
        }
    }

    /// Verifies relations one after the other, up to the first that fails. What the commitment
    /// scheme says of the two openings of an oracle is asked of `opens`.
    pub fn verify_oracle_relations<V: Fn(usize, &OpeningClaim, &OpeningClaim) -> bool>(
        &self,
        relations: &[SuccinctRelation],
        opens: V,
    ) -> (r: Result<(), ChannelError>)
        requires
            self.queue.is_valid(),
            forall|i: int| 0 <= i < relations@.len() ==> self.fits(#[trigger] relations@[i]),
            forall|index: usize, a: &OpeningClaim, b: &OpeningClaim| #[trigger]
                opens.requires((index, a, b)),
        ensures
            match r {
                Ok(_) => forall|i: int|
                    0 <= i < relations@.len() ==> self.relation_holds(
                        #[trigger] relations@[i],
                        opens,
                    ),
                Err(e) => exists|k: int|
                    0 <= k < relations@.len() && self.relation_fails(
                        #[trigger] relations@[k],
                        opens,
                        e,
                    ) && forall|i: int|
                        0 <= i < k ==> self.relation_holds(#[trigger] relations@[i], opens),
            },
    {
        let mut k: usize = 0;
        while k < relations.len()
            invariant
                k <= relations@.len(),
                self.queue.is_valid(),
                forall|i: int| 0 <= i < relations@.len() ==> self.fits(#[trigger] relations@[i]),
                forall|index: usize, a: &OpeningClaim, b: &OpeningClaim| #[trigger]
                    opens.requires((index, a, b)),
                forall|i: int|
                    0 <= i < k ==> self.relation_holds(#[trigger] relations@[i], opens),
            decreases relations@.len() - k,
        {
            let relation: &SuccinctRelation = &relations[k];
            assert(self.fits(relations@[k as int]));
            let r: Result<(), ChannelError> = self.check_relation(relation, &opens);
            match r {
                Ok(_) => {},
                Err(e) => {
                    assert(self.relation_fails(relations@[k as int], opens, e));
                    return Err(e);
                },
            }
            k = k + 1;
        }
        Ok(())
    }

    /// Verifies one relation.
    fn check_relation<V: Fn(usize, &OpeningClaim, &OpeningClaim) -> bool>(
        &self,
        relation: &SuccinctRelation,
        opens: &V,
    ) -> (r: Result<(), ChannelError>)
        requires
            self.queue.is_valid(),
            self.fits(*relation),
            forall|index: usize, a: &OpeningClaim, b: &OpeningClaim| #[trigger]
                opens.requires((index, a, b)),
        ensures
            match r {
                Ok(_) => self.relation_holds(*relation, *opens),
                Err(e) => self.relation_fails(*relation, *opens, e),
            },
    {
        let (selected, boolean) = match self.verify_oracle_relation(
            relation.oracle,
            relation.transparent.as_slice(),
            relation.claim,
            &relation.tape,
        ) {
            Ok(openings) => openings,
            Err(e) => {
                return Err(e);
            },
        };
        let verdict: bool = opens(relation.oracle.index, &selected, &boolean);
        assert(opens.ensures(
            (relation.oracle.position() as usize, &selected, &boolean),
            verdict,
        ));
        if !verdict {
            return Err(ChannelError::ProofEmpty);
        }
        check_transparent(
            relation.transparent.as_slice(),
            relation.point.as_slice(),
            relation.transparent_eval,
        )
    }
}

/// Verifier channel of the full-opening bridge: it keeps the oracles themselves.
#[derive(Debug, PartialEq, Eq)]
pub struct HachiFullOpenVerifierChannel {
    queue: OracleQueue,
    stored_polynomials: Vec<Vec<BiniusScalar>>,
}

impl HachiFullOpenVerifierChannel {
    /// All oracles, received or not.
    pub closed spec fn specs(&self) -> Seq<OracleSpec> {
        self.queue.specs()
    }

    /// The number of oracles that have been received.
    pub closed spec fn received(&self) -> nat {
        self.queue.sent()
    }

    /// The values of an oracle that has been received.
    pub closed spec fn values(&self, i: int) -> Seq<B128> {
        self.stored_polynomials@[i]@
    }

    /// Whether there are the values of all oracles that have been received, of the right lengths.
    pub closed spec fn is_valid(&self) -> bool {
        &&& self.queue.is_valid()
        &&& self.stored_polynomials@.len() == self.queue.sent()
        &&& forall|i: int|
            0 <= i < self.stored_polynomials@.len() ==> (#[trigger] self.stored_polynomials@[i])@.len()
                == pow2(self.queue.specs()[i].log_msg_len as nat)
    }

    /// The values of a received oracle have its length.
    pub proof fn law_received_values_have_length(&self, i: int)
        requires
            self.is_valid(),
            0 <= i < self.received(),
        ensures
            self.values(i).len() == pow2(self.specs()[i].log_msg_len as nat),
    {
    }

    /// Creates a verifier channel.
    pub fn new(oracle_specs: Vec<OracleSpec>) -> (r: Self)
        ensures
            r.is_valid(),
            r.specs() == oracle_specs@,
            r.received() == 0,
    {
        HachiFullOpenVerifierChannel {
            queue: OracleQueue::new(oracle_specs),
            stored_polynomials: Vec::new(),
        }
    }

    /// Returns the oracles that have not been received yet.
    pub fn remaining_oracle_specs(&self) -> (r: &[OracleSpec])
        requires
            self.is_valid(),
        ensures
            r@ == self.specs().skip(self.received() as int),
    {
        self.queue.remaining_oracle_specs()
    }

    /// Stores the values of the next oracle, which are refused where they are not as many as they
    /// should be.
    pub fn recv_oracle(&mut self, values: Vec<BiniusScalar>) -> (r: Result<
        HachiFullOpenOracle,
        ChannelError,
    >)
        requires
            old(self).is_valid(),
            old(self).received() < old(self).specs().len(),
        ensures
            final(self).is_valid(),
            final(self).specs() == old(self).specs(),
            match r {
                Ok(oracle) => {
                    &&& values@.len() == pow2(
                        old(self).specs()[old(self).received() as int].log_msg_len as nat,
                    )
                    &&& oracle.position() == old(self).received()
                    &&& final(self).received() == old(self).received() + 1
                    &&& final(self).values(old(self).received() as int) == values@
                    &&& forall|i: int|
                        0 <= i < old(self).received() ==> #[trigger] final(self).values(i) == old(
                            self,
                        ).values(i)
                },
                Err(e) => e == ChannelError::ProofEmpty && values@.len() != pow2(
                    old(self).specs()[old(self).received() as int].log_msg_len as nat,
                ) && final(self).received() == old(self).received() && forall|i: int|
                    0 <= i < old(self).received() ==> #[trigger] final(self).values(i) == old(
                        self,
                    ).values(i),
            },
    {
        let spec: OracleSpec = self.queue.oracle_specs[self.queue.next_oracle_index];
        if !is_power(values.len(), spec.log_msg_len) {
            return Err(ChannelError::ProofEmpty);
        }
        let (index, _) = self.queue.take();
        self.stored_polynomials.push(values);
        Ok(HachiFullOpenOracle { index })
    }

    /// Verifies a relation on an oracle that has been received, given the coefficients and the
    /// selected-bit sums that were received.
    pub fn verify_oracle_relation(
        &self,
        oracle: HachiFullOpenOracle,
        transparent: &[BiniusScalar],
        claim: BiniusScalar,
        opened_sums: &[u64; 128],
    ) -> (r: Result<(), ChannelError>)
        requires
            self.is_valid(),
            oracle.position() < self.received(),
            transparent@.len() == pow2(
                self.specs()[oracle.position() as int].log_msg_len as nat,
            ),
        ensures
            ({
                let right = claim == linear_claim(
                    self.values(oracle.position() as int),
                    transparent@,
                );
                match r {
                    Ok(_) => sums_checked(opened_sums@, transparent@, claim) && right,
                    Err(ChannelError::ProofEmpty) => !sums_checked(
                        opened_sums@,
                        transparent@,
                        claim,
                    ),
                    Err(ChannelError::InvalidAssert) => sums_checked(
                        opened_sums@,
                        transparent@,
                        claim,
                    ) && !right,
                }
            }),
    {
        let values: &Vec<BiniusScalar> = &self.stored_polynomials[oracle.index];
        verify_full_open_relation(values.as_slice(), transparent, claim, opened_sums)
    }
}

/// A relation on an oracle of the full-opening bridge, with what was received for it.
#[derive(Debug, PartialEq, Eq)]
pub struct FullOpenRelation {
    /// The oracle.
    pub oracle: HachiFullOpenOracle,
    /// The values of the transparent polynomial that were received.
    pub transparent: Vec<BiniusScalar>,
    /// The claimed inner product of the oracle and the transparent values.
    pub claim: BiniusScalar,
    /// The selected-bit sums that were received.
    pub opened_sums: [u64; 128],
    /// The point that was sampled last.
    pub point: Vec<BiniusScalar>,
    /// The value of the transparent polynomial at that point.
    pub transparent_eval: BiniusScalar,
}

impl HachiFullOpenVerifierChannel {
    /// Whether a relation is on an oracle that has been received and has the right lengths.
    pub open spec fn fits(&self, relation: FullOpenRelation) -> bool {
        let log_len = self.specs()[relation.oracle.position() as int].log_msg_len;
        &&& relation.oracle.position() < self.received()
        &&& relation.transparent@.len() == pow2(log_len as nat)
        &&& relation.point@.len() == log_len
    }

    /// Whether the claim is the inner product, and the transparent values are those of the
    /// transparent polynomial at the sampled point.
    pub open spec fn values_agree(&self, relation: FullOpenRelation) -> bool {
        &&& relation.claim == linear_claim(
            self.values(relation.oracle.position() as int),
            relation.transparent@,
        )
        &&& relation.transparent_eval == evaluation(relation.transparent@, relation.point@)
    }

    /// Whether all checks of a relation succeed.
    pub open spec fn relation_holds(&self, relation: FullOpenRelation) -> bool {
        &&& sums_checked(relation.opened_sums@, relation.transparent@, relation.claim)
        &&& self.values_agree(relation)
    }

    /// Whether a check of a relation fails with the given error.
    pub open spec fn relation_fails(&self, relation: FullOpenRelation, e: ChannelError) -> bool {
        let checked = sums_checked(relation.opened_sums@, relation.transparent@, relation.claim);
        match e {
            ChannelError::ProofEmpty => !checked,
            ChannelError::InvalidAssert => checked && !self.values_agree(relation),
        }
    }

    /// Verifies relations one after the other, up to the first that fails.
    pub fn verify_oracle_relations(&self, relations: &[FullOpenRelation]) -> (r: Result<
        (),
        ChannelError,
    >)
        requires
            self.is_valid(),
            forall|i: int| 0 <= i < relations@.len() ==> self.fits(#[trigger] relations@[i]),
        ensures
            match r {
                Ok(_) => forall|i: int|
                    0 <= i < relations@.len() ==> self.relation_holds(#[trigger] relations@[i]),
                Err(e) => exists|k: int|
                    0 <= k < relations@.len() && self.relation_fails(
                        #[trigger] relations@[k],
                        e,
                    ) && forall|i: int|
                        0 <= i < k ==> self.relation_holds(#[trigger] relations@[i]),
            },
    {
        let mut k: usize = 0;
        while k < relations.len()
            invariant
                k <= relations@.len(),
                self.is_valid(),
                forall|i: int| 0 <= i < relations@.len() ==> self.fits(#[trigger] relations@[i]),
                forall|i: int| 0 <= i < k ==> self.relation_holds(#[trigger] relations@[i]),
            decreases relations@.len() - k,
        {
            let relation: &FullOpenRelation = &relations[k];
            assert(self.fits(relations@[k as int]));
            match self.verify_oracle_relation(
                relation.oracle,
                relation.transparent.as_slice(),
                relation.claim,
                &relation.opened_sums,
            ) {
                Ok(_) => {},
                Err(e) => {
                    assert(self.relation_fails(relations@[k as int], e));
                    return Err(e);
                },
            }
            match check_transparent(
                relation.transparent.as_slice(),
                relation.point.as_slice(),
                relation.transparent_eval,
            ) {
                Ok(_) => {},
                Err(e) => {
                    assert(self.relation_fails(relations@[k as int], e));
                    return Err(e);
                },
            }
            k = k + 1;
        }
        Ok(())
    }
}

/// The bit tables of the oracles that have been committed to.
#[derive(Debug, PartialEq, Eq)]
pub struct CommittedTables {
    queue: OracleQueue,
    bit_tables: Vec<Vec<Fp128>>,
}

impl CommittedTables {
    /// All oracles, sent or not.
    pub closed spec fn specs(&self) -> Seq<OracleSpec> {
        self.queue.specs()
    }

    /// The number of oracles that have been sent.
    pub closed spec fn sent(&self) -> nat {
        self.queue.sent()
    }

    /// The bit table of an oracle that has been sent.
    pub closed spec fn table(&self, i: int) -> Seq<int> {
        residues(self.bit_tables@[i]@)
    }

    /// Whether there are the bit tables of all oracles that have been sent.
    pub closed spec fn is_valid(&self) -> bool {
        &&& self.queue.is_valid()
        &&& self.bit_tables@.len() == self.queue.sent()
    }

    /// Whether the values of the next oracle can be taken.
    pub open spec fn can_send(&self, values: Seq<B128>) -> bool {
        &&& self.is_valid()
        &&& self.sent() < self.specs().len()
        &&& is_supported(self.specs()[self.sent() as int])
        &&& values.len() == pow2(self.specs()[self.sent() as int].log_msg_len as nat)
        &&& 128 * values.len() <= usize::MAX
    }

    /// Whether this is what another one becomes when the values of the next oracle are taken.
    pub open spec fn follows_sending(&self, before: &Self, values: Seq<B128>) -> bool {
        &&& self.is_valid()
        &&& self.specs() == before.specs()
        &&& self.sent() == before.sent() + 1
        &&& self.table(before.sent() as int) == bit_table(values)
        &&& forall|i: int| 0 <= i < before.sent() ==> #[trigger] self.table(i) == before.table(i)
    }

    /// The number of variables of the bit table of an oracle.
    pub open spec fn rounds(&self, index: nat) -> nat {
        (self.specs()[index as int].log_msg_len + 7) as nat
    }

    /// Whether a message is the oracle that has been sent with an index, and there are as many
    /// transparent values.
    pub open spec fn can_prove(
        &self,
        index: nat,
        message: Seq<B128>,
        transparent: Seq<B128>,
    ) -> bool {
        &&& self.is_valid()
        &&& index < self.sent()
        &&& self.specs()[index as int].log_msg_len <= usize::MAX - 7
        &&& message.len() == pow2(self.specs()[index as int].log_msg_len as nat)
        &&& transparent.len() == message.len()
        &&& 128 * message.len() <= usize::MAX
        &&& self.table(index as int) == bit_table(message)
    }

    /// Creates a store of which nothing has been sent.
    pub fn new(oracle_specs: Vec<OracleSpec>) -> (r: Self)
        ensures
            r.is_valid(),
            r.specs() == oracle_specs@,
            r.sent() == 0,
    {
        CommittedTables { queue: OracleQueue::new(oracle_specs), bit_tables: Vec::new() }
    }

    /// Returns the oracles that have not been sent yet.
    pub fn remaining_oracle_specs(&self) -> (r: &[OracleSpec])
        requires
            self.is_valid(),
        ensures
            r@ == self.specs().skip(self.sent() as int),
    {
        self.queue.remaining_oracle_specs()
    }

    /// Takes the values of the next oracle and keeps its bit table.
    fn send(&mut self, values: &[BiniusScalar]) -> (index: usize)
        requires
            old(self).can_send(values@),
        ensures
            final(self).follows_sending(old(self), values@),
            index == old(self).sent(),
    {
        let table: Vec<Fp128> = oracle_bit_table(values);
        let (index, _) = self.queue.take();
        self.bit_tables.push(table);
        index
    }

    /// Returns the bit table of an oracle that has been sent.
    fn get(&self, index: usize) -> (r: &[Fp128])
        requires
            self.is_valid(),
            index < self.sent(),
        ensures
            residues(r@) == self.table(index as int),
    {
        self.bit_tables[index].as_slice()
    }
}

/// Prover channel of the claim-reduced bridge.
#[derive(Debug, PartialEq, Eq)]
pub struct AkitaClaimReducedProverChannel {
    pub tables: CommittedTables,
}

impl AkitaClaimReducedProverChannel {
    /// Creates a prover channel.
    pub fn new(oracle_specs: Vec<OracleSpec>) -> (r: Self)
        ensures
            r.tables.is_valid(),
            r.tables.specs() == oracle_specs@,
            r.tables.sent() == 0,
    {
        AkitaClaimReducedProverChannel { tables: CommittedTables::new(oracle_specs) }
    }

    /// Takes the values of the next oracle and keeps its bit table, to be committed to.
    pub fn send_oracle(&mut self, values: &[BiniusScalar]) -> (r: AkitaClaimReducedOracle)
        requires
            old(self).tables.can_send(values@),
        ensures
            final(self).tables.follows_sending(&old(self).tables, values@),
            r.position() == old(self).tables.sent(),
    {
        AkitaClaimReducedOracle { index: self.tables.send(values) }
    }

    /// Returns the bit table of an oracle that has been sent.
    pub fn bit_table(&self, oracle: AkitaClaimReducedOracle) -> (r: &[Fp128])
        requires
            self.tables.is_valid(),
            oracle.position() < self.tables.sent(),
        ensures
            residues(r@) == self.tables.table(oracle.position() as int),
    {
        self.tables.get(oracle.index)
    }

    /// Proves a relation on an oracle that has been sent, for given challenges.
    ///
    /// Returns the claim, the tape of the honest prover and the value of the bit table at the final
    /// point.
    pub fn prove_oracle_relation(
        &self,
        oracle: AkitaClaimReducedOracle,
        message: &[BiniusScalar],
        transparent: &[BiniusScalar],
        challenges: &BridgeChallenges,
        cr_alpha: Fp128,
        reduction_challenges: &[Fp128],
    ) -> (r: Result<(BiniusScalar, ClaimReducedTape, Fp128), BatchedParityBridgeError>)
        requires
            self.tables.can_prove(oracle.position(), message@, transparent@),
            challenges.has_rounds(self.tables.rounds(oracle.position())),
            reduction_challenges@.len() == self.tables.rounds(oracle.position()),
        ensures
            match r {
                Ok((claim, tape, b_final)) => {
                    let rounds = self.tables.rounds(oracle.position());
                    let table = self.tables.table(oracle.position() as int);
                    &&& claim == linear_claim(message@, transparent@)
                    &&& sampled_with(tape.bridge, *challenges)
                    &&& tape.cr_alpha == cr_alpha
                    &&& tape.reduction.challenges@ == reduction_challenges@
                    &&& b_final@ == residue(evaluation(table, residues(reduction_challenges@)))
                    &&& is_honest_tape(tape.bridge, message@, transparent@, rounds)
                    &&& is_honest_reduction(tape, message@)
                    &&& tape.bridge.accepted(rounds, transparent@, claim)
                    &&& tape.reduction.accepted(tape.combined_claim(), rounds) == Some(
                        residue(b_final@ * tape.indicator()),
                    )
                    &&& is_invertible(tape.indicator()) ==> tape.accepted(
                        rounds,
                        transparent@,
                        claim,
                    )
                },
                Err(e) => reports_overflow(e, basis_products(transparent@), 1),
            },
    {
        let spec: OracleSpec = self.tables.queue.sent_spec(oracle.index);
        match prove_claim_reduced_relation(
            spec.log_msg_len,
            message,
            transparent,
            challenges,
            cr_alpha,
            reduction_challenges,
        ) {
            Ok((prover, tape, b_final)) => Ok((prover.claim, tape, b_final)),
            Err(e) => Err(e),
        }
    }
}

/// Prover channel of the succinct bridge to the Akita scheme.
#[derive(Debug, PartialEq, Eq)]
pub struct AkitaSuccinctProverChannel {
    pub tables: CommittedTables,
}

impl AkitaSuccinctProverChannel {
    /// Creates a prover channel.
    pub fn new(oracle_specs: Vec<OracleSpec>) -> (r: Self)
        ensures
            r.tables.is_valid(),
            r.tables.specs() == oracle_specs@,
            r.tables.sent() == 0,
    {
        AkitaSuccinctProverChannel { tables: CommittedTables::new(oracle_specs) }
    }

    /// Takes the values of the next oracle and keeps its bit table, to be committed to.
    pub fn send_oracle(&mut self, values: &[BiniusScalar]) -> (r: AkitaSuccinctOracle)
        requires
            old(self).tables.can_send(values@),
        ensures
            final(self).tables.follows_sending(&old(self).tables, values@),
            r.position() == old(self).tables.sent(),
    {
        AkitaSuccinctOracle { index: self.tables.send(values) }
    }

    /// Returns the bit table of an oracle that has been sent.
    pub fn bit_table(&self, oracle: AkitaSuccinctOracle) -> (r: &[Fp128])
        requires
            self.tables.is_valid(),
            oracle.position() < self.tables.sent(),
        ensures
            residues(r@) == self.tables.table(oracle.position() as int),
    {
        self.tables.get(oracle.index)
    }

    /// Proves a relation on an oracle that has been sent, for given challenges.
    ///
    /// Returns the claim and the tape of the honest prover.
    pub fn prove_oracle_relation(
        &self,
        oracle: AkitaSuccinctOracle,
        message: &[BiniusScalar],
        transparent: &[BiniusScalar],
        challenges: &BridgeChallenges,
    ) -> (r: Result<(BiniusScalar, BridgeTape), BatchedParityBridgeError>)
        requires
            self.tables.can_prove(oracle.position(), message@, transparent@),
            challenges.has_rounds(self.tables.rounds(oracle.position())),
        ensures
            match r {
                Ok((claim, tape)) => {
                    let rounds = self.tables.rounds(oracle.position());
                    &&& claim == linear_claim(message@, transparent@)
                    &&& sampled_with(tape, *challenges)
                    &&& is_honest_tape(tape, message@, transparent@, rounds)
                    &&& tape.accepted(rounds, transparent@, claim)
                },
                Err(e) => reports_overflow(e, basis_products(transparent@), 1),
            },
    {
        let spec: OracleSpec = self.tables.queue.sent_spec(oracle.index);
        match prove_succinct_relation(spec.log_msg_len, message, transparent, challenges) {
            Ok((prover, tape)) => Ok((prover.claim, tape)),
            Err(e) => Err(e),
        }
    }
}

/// Prover channel of the succinct bridge to the Hachi scheme.
#[derive(Debug, PartialEq, Eq)]
pub struct HachiSuccinctProverChannel {
    pub tables: CommittedTables,
}

impl HachiSuccinctProverChannel {
    /// Creates a prover channel.
    pub fn new(oracle_specs: Vec<OracleSpec>) -> (r: Self)
        ensures
            r.tables.is_valid(),
            r.tables.specs() == oracle_specs@,
            r.tables.sent() == 0,
    {
        HachiSuccinctProverChannel { tables: CommittedTables::new(oracle_specs) }
    }

    /// Takes the values of the next oracle and keeps its bit table, to be committed to.
    pub fn send_oracle(&mut self, values: &[BiniusScalar]) -> (r: HachiSuccinctOracle)
        requires
            old(self).tables.can_send(values@),
        ensures
            final(self).tables.follows_sending(&old(self).tables, values@),
            r.position() == old(self).tables.sent(),
    {
        HachiSuccinctOracle { index: self.tables.send(values) }
    }

    /// Returns the bit table of an oracle that has been sent.
    pub fn bit_table(&self, oracle: HachiSuccinctOracle) -> (r: &[Fp128])
        requires
            self.tables.is_valid(),
            oracle.position() < self.tables.sent(),
        ensures
            residues(r@) == self.tables.table(oracle.position() as int),
    {
        self.tables.get(oracle.index)
    }

    /// Proves a relation on an oracle that has been sent, for given challenges.
    ///
    /// Returns the claim and the tape of the honest prover.
    pub fn prove_oracle_relation(
        &self,
        oracle: HachiSuccinctOracle,
        message: &[BiniusScalar],
        transparent: &[BiniusScalar],
        challenges: &BridgeChallenges,
    ) -> (r: Result<(BiniusScalar, BridgeTape), BatchedParityBridgeError>)
        requires
            self.tables.can_prove(oracle.position(), message@, transparent@),
            challenges.has_rounds(self.tables.rounds(oracle.position())),
        ensures
            match r {
                Ok((claim, tape)) => {
                    let rounds = self.tables.rounds(oracle.position());
                    &&& claim == linear_claim(message@, transparent@)
                    &&& sampled_with(tape, *challenges)
                    &&& is_honest_tape(tape, message@, transparent@, rounds)
                    &&& tape.accepted(rounds, transparent@, claim)
                },
                Err(e) => reports_overflow(e, basis_products(transparent@), 1),
            },
    {
        let spec: OracleSpec = self.tables.queue.sent_spec(oracle.index);
        match prove_succinct_relation(spec.log_msg_len, message, transparent, challenges) {
            Ok((prover, tape)) => Ok((prover.claim, tape)),
            Err(e) => Err(e),
        }
    }
}

/// Prover channel of the full-opening bridge.
#[derive(Debug, PartialEq, Eq)]
pub struct HachiFullOpenProverChannel {
    pub queue: OracleQueue,
}

impl HachiFullOpenProverChannel {
    /// Creates a prover channel.
    pub fn new(oracle_specs: Vec<OracleSpec>) -> (r: Self)
        ensures
            r.queue.is_valid(),
            r.queue.specs() == oracle_specs@,
            r.queue.sent() == 0,
    {
        HachiFullOpenProverChannel { queue: OracleQueue::new(oracle_specs) }
    }

    /// Takes note that the values of the next oracle are sent.
    pub fn send_oracle(&mut self, values: &[BiniusScalar]) -> (r: HachiFullOpenOracle)
        requires
            old(self).queue.is_valid(),
            old(self).queue.sent() < old(self).queue.specs().len(),
            values@.len() == pow2(
                old(self).queue.specs()[old(self).queue.sent() as int].log_msg_len as nat,
            ),
        ensures
            final(self).queue.is_valid(),
            final(self).queue.specs() == old(self).queue.specs(),
            final(self).queue.sent() == old(self).queue.sent() + 1,
            r.position() == old(self).queue.sent(),
    {
        let (index, _) = self.queue.take();
        HachiFullOpenOracle { index }
    }
}

/// The message of the full-opening prover for a relation: the selected-bit sums.
///
/// An honest relation is accepted by the verifier, unless the public bounds of the sums overflow.
pub fn prove_full_open_relation(oracle: &[BiniusScalar], transparent: &[BiniusScalar]) -> (r: Result<
    (BiniusScalar, [u64; 128]),
    BatchedParityBridgeError,
>)
    requires
        oracle@.len() == transparent@.len(),
    ensures
        match r {
            Ok((claim, sums)) => {
                &&& claim == linear_claim(oracle@, transparent@)
                &&& holds_counts(sums@, selected_products(oracle@, transparent@), 1)
                &&& forall|bounds: Seq<u64>| #[trigger]
                    holds_counts(bounds, basis_products(transparent@), 1) ==> sums_checked(
                        sums@,
                        transparent@,
                        claim,
                    )
            },
            Err(e) => reports_overflow(e, selected_products(oracle@, transparent@), 1),
        },
{
    match prove_terminal_linear_claim(oracle, transparent) {
        Ok((claim, parity)) => {
            proof {
                assert forall|bounds: Seq<u64>| #[trigger]
                    holds_counts(bounds, basis_products(transparent@), 1) implies sums_checked(
                    parity.opened_sums@,
                    transparent@,
                    claim,
                ) by {
                    super::parity::law_honest_parities_hold(
                        oracle@,
                        transparent@,
                        parity.opened_sums@,
                        bounds,
                    );
                }
            }
            Ok((claim, parity.opened_sums))
        },
        Err(e) => Err(e),
    }
}

} // verus!
