//! The verifier's side of a sumcheck whose round polynomials are given by their values at the
//! first integers.

use vstd::prelude::*;

use super::error::{BatchedParityBridgeError, ChannelError};
use super::fp128::{congruent, residue, residues, Fp128};
use super::interpolation::{
    cubic_through, evaluate_cubic_from_0_1_2_3, evaluate_quadratic_from_0_1_2, quadratic_through,
    values_of,
};

verus! {

/// The value at `x` of the round polynomial with the given three or four values.
pub open spec fn through(e: Seq<int>, x: int) -> int {
    if e.len() == 3 {
        quadratic_through(e, x)
    } else {
        cubic_through(e, x)
    }
}

/// The residues of the values of all rounds.
pub open spec fn rounds_of<const N: usize>(rounds: Seq<[Fp128; N]>) -> Seq<Seq<int>> {
    Seq::new(rounds.len(), |k: int| values_of(rounds[k]))
}

/// The claim after the first `n` rounds, or nothing where the values at zero and one of a round do
/// not add up to the claim before it.
pub open spec fn claim_after(
    initial: int,
    rounds: Seq<Seq<int>>,
    challenges: Seq<int>,
    n: nat,
) -> Option<int>
    decreases n,
{
    if n == 0 {
        Some(initial)
    } else {
        let k = (n - 1) as nat;
        match claim_after(initial, rounds, challenges, k) {
            Some(claim) => if congruent(rounds[k as int][0] + rounds[k as int][1], claim) {
                Some(residue(through(rounds[k as int], challenges[k as int])))
            } else {
                None
            },
            None => None,
        }
    }
}

/// Once a round is wrong, there is no claim any more.
proof fn lemma_no_claim(
    initial: int,
    rounds: Seq<Seq<int>>,
    challenges: Seq<int>,
    n: nat,
    m: nat,
)
    requires
        n <= m,
        claim_after(initial, rounds, challenges, n) is None,
    ensures
        claim_after(initial, rounds, challenges, m) is None,
    decreases m,
{
    if n < m {
        lemma_no_claim(initial, rounds, challenges, n, (m - 1) as nat);
    }
}

/// The final claim of a sumcheck with as many rounds as challenges.
pub open spec fn final_claim(
    initial: int,
    rounds: Seq<Seq<int>>,
    challenges: Seq<int>,
) -> Option<int> {
    if rounds.len() == challenges.len() {
        claim_after(initial, rounds, challenges, rounds.len())
    } else {
        None
    }
}

/// An accepted sumcheck has a claim before every round and one after the last: the values at zero
/// and one of each round polynomial add up to the claim before it, and its value at the challenge is
/// the claim after it.
pub proof fn law_accepted_rounds_chain(
    initial: int,
    rounds: Seq<Seq<int>>,
    challenges: Seq<int>,
    claim: int,
) -> (claims: Seq<int>)
    requires
        final_claim(initial, rounds, challenges) == Some(claim),
    ensures
        rounds.len() == challenges.len(),
        claims.len() == rounds.len() + 1,
        claims[0] == initial,
        claims[rounds.len() as int] == claim,
        forall|k: int|
            0 <= k < rounds.len() ==> congruent(rounds[k][0] + rounds[k][1], #[trigger] claims[k])
                && claims[k + 1] == residue(
                if rounds[k].len() == 3 {
                    quadratic_through(rounds[k], challenges[k])
                } else {
                    cubic_through(rounds[k], challenges[k])
                },
            ),
{
    lemma_claims(initial, rounds, challenges, rounds.len())
}

proof fn lemma_claims(
    initial: int,
    rounds: Seq<Seq<int>>,
    challenges: Seq<int>,
    n: nat,
) -> (claims: Seq<int>)
    requires
        claim_after(initial, rounds, challenges, n) is Some,
    ensures
        claims.len() == n + 1,
        claims[0] == initial,
        claim_after(initial, rounds, challenges, n) == Some(claims[n as int]),
        forall|k: int|
            0 <= k < n ==> congruent(rounds[k][0] + rounds[k][1], #[trigger] claims[k]) && claims[k
                + 1] == residue(
                if rounds[k].len() == 3 {
                    quadratic_through(rounds[k], challenges[k])
                } else {
                    cubic_through(rounds[k], challenges[k])
                },
            ),
    decreases n,
{
    if n == 0 {
        seq![initial]
    } else {
        let before = lemma_claims(initial, rounds, challenges, (n - 1) as nat);
        let last = n - 1;
        let claims = before.push(residue(through(rounds[last], challenges[last])));
        assert forall|k: int| 0 <= k < n implies congruent(
            rounds[k][0] + rounds[k][1],
            #[trigger] claims[k],
        ) && claims[k + 1] == residue(
            if rounds[k].len() == 3 {
                quadratic_through(rounds[k], challenges[k])
            } else {
                cubic_through(rounds[k], challenges[k])
            },
        ) by {
            assert(claims[k] == before[k]);
            if k < last {
                assert(claims[k + 1] == before[k + 1]);
            }
        }
        claims
    }
}

/// A changed round polynomial is refused: where two sumchecks have the same claim, the same
/// challenges and the same rounds before round `k`, and the values at zero and one of round `k` do
/// not add up to the same in both, at most one of them is accepted.
pub proof fn law_changed_round_is_refused(
    initial: int,
    a: Seq<Seq<int>>,
    b: Seq<Seq<int>>,
    challenges: Seq<int>,
    k: int,
)
    requires
        final_claim(initial, a, challenges) is Some,
        0 <= k < a.len(),
        k < b.len(),
        forall|j: int| 0 <= j < k ==> a[j] == b[j],
        !congruent(a[k][0] + a[k][1], b[k][0] + b[k][1]),
    ensures
        final_claim(initial, b, challenges) is None,
{
    if final_claim(initial, b, challenges) is Some {
        let p = law_accepted_rounds_chain(
            initial,
            a,
            challenges,
            final_claim(initial, a, challenges)->Some_0,
        );
        let q = law_accepted_rounds_chain(
            initial,
            b,
            challenges,
            final_claim(initial, b, challenges)->Some_0,
        );
        if k > 0 {
            assert(congruent(a[k - 1][0] + a[k - 1][1], p[k - 1]));
            assert(congruent(b[k - 1][0] + b[k - 1][1], q[k - 1]));
            assert(p[k - 1 + 1] == q[k - 1 + 1]);
        }
        assert(p[k] == q[k]);
    }
}

/// An accepted tape has the expected claim, as many rounds and challenges as expected, and rounds
/// that are accepted for that claim.
pub proof fn law_accepted_product_tape(tape: ProductSumcheckTape, expected: int, num_rounds: nat)
    requires
        tape.accepted(expected, num_rounds) is Some,
    ensures
        tape.initial_claim@ == expected,
        tape.challenges@.len() == num_rounds,
        tape.proof.round_evals@.len() == num_rounds,
        final_claim(expected, rounds_of(tape.proof.round_evals@), residues(tape.challenges@))
            == tape.accepted(expected, num_rounds),
{
}

/// An accepted tape has the expected claim, as many rounds and challenges as expected, and rounds
/// that are accepted for that claim.
pub proof fn law_accepted_booleanity_tape(
    tape: BooleanitySumcheckTape,
    expected: int,
    num_rounds: nat,
)
    requires
        tape.accepted(expected, num_rounds) is Some,
    ensures
        tape.initial_claim@ == expected,
        tape.challenges@.len() == num_rounds,
        tape.proof.round_evals@.len() == num_rounds,
        final_claim(expected, rounds_of(tape.proof.round_evals@), residues(tape.challenges@))
            == tape.accepted(expected, num_rounds),
{
}

/// Degree-2 sumcheck proof.
///
/// This proves claims of the form `sum_x sum_j A_j(x) * B_j(x) = claim`. The final claim has to be
/// discharged by opening all multilinears at the challenges and checking that it is
/// `sum_j A_j(r) * B_j(r)`.
#[derive(Debug, Clone, PartialEq, Eq)]
pub struct ProductSumcheckProof {
    /// Each round stores `q(0), q(1), q(2)` for the quadratic round polynomial.
    pub round_evals: Vec<[Fp128; 3]>,
}

impl ProductSumcheckProof {
    /// Verify sumcheck round consistency and return the final claim.
    pub fn verify_rounds(&self, initial_claim: Fp128, challenges: &[Fp128]) -> (r: Result<
        Fp128,
        BatchedParityBridgeError,
    >)
        ensures
            match r {
                Ok(claim) => final_claim(
                    initial_claim@,
                    rounds_of(self.round_evals@),
                    residues(challenges@),
                ) == Some(claim@) && exists|claims: Seq<int>|
                    {
                        &&& #[trigger] claims.len() == self.round_evals@.len() + 1
                        &&& self.round_evals@.len() == challenges@.len()
                        &&& claims[0] == initial_claim@
                        &&& claims[challenges@.len() as int] == claim@
                        &&& forall|k: int|
                            0 <= k < challenges@.len() ==> congruent(
                                self.round_evals@[k][0]@ + self.round_evals@[k][1]@,
                                #[trigger] claims[k],
                            ) && claims[k + 1] == residue(
                                quadratic_through(values_of(self.round_evals@[k]), challenges@[k]@),
                            )
                    },
                Err(e) => e == BatchedParityBridgeError::InvalidSumcheck && final_claim(
                    initial_claim@,
                    rounds_of(self.round_evals@),
                    residues(challenges@),
                ) is None,
            },
    {
        if self.round_evals.len() != challenges.len() {
            return Err(BatchedParityBridgeError::InvalidSumcheck);
        }
        let mut claim: Fp128 = initial_claim;
        let ghost rounds = rounds_of(self.round_evals@);
        let ghost points = residues(challenges@);
        let mut i: usize = 0;
        while i < challenges.len()
            invariant
                i <= challenges@.len(),
                self.round_evals@.len() == challenges@.len(),
                rounds == rounds_of(self.round_evals@),
                points == residues(challenges@),
                claim_after(initial_claim@, rounds, points, i as nat) == Some(claim@),
            decreases challenges@.len() - i,
        {
            let round: [Fp128; 3] = self.round_evals[i];
            let total: Fp128 = round[0].add(round[1]);
            proof {
                claim.lemma_view();
            }
            if total != claim {
                proof {
                    assert(claim_after(initial_claim@, rounds, points, (i + 1) as nat) is None);
                    lemma_no_claim(initial_claim@, rounds, points, (i + 1) as nat, rounds.len());
                }
                return Err(BatchedParityBridgeError::InvalidSumcheck);
            }
            claim = evaluate_quadratic_from_0_1_2(round, challenges[i]);
            i = i + 1;
        }
        proof {
            let claims = law_accepted_rounds_chain(initial_claim@, rounds, points, claim@);
            assert(claims.len() == self.round_evals@.len() + 1);
            assert forall|k: int| 0 <= k < challenges@.len() implies congruent(
                self.round_evals@[k][0]@ + self.round_evals@[k][1]@,
                #[trigger] claims[k],
            ) && claims[k + 1] == residue(
                quadratic_through(values_of(self.round_evals@[k]), challenges@[k]@),
            ) by {
                assert(rounds[k] == values_of(self.round_evals@[k]));
                assert(congruent(rounds[k][0] + rounds[k][1], claims[k]));
            }
        }
        Ok(claim)
    }
}

/// Degree-3 sumcheck proof for weighted Booleanity.
///
/// This proves claims of the form `sum_x eq(rho, x) * B(x) * (B(x) - 1) = claim`. The final claim
/// has to be discharged by opening `B` at the challenges and checking that it is
/// `eq(rho, r) * B(r) * (B(r) - 1)`.
#[derive(Debug, Clone, PartialEq, Eq)]
pub struct WeightedBooleanitySumcheckProof {
    /// Each round stores `q(0), q(1), q(2), q(3)` for the cubic round polynomial.
    pub round_evals: Vec<[Fp128; 4]>,
}

impl WeightedBooleanitySumcheckProof {
    /// Verify sumcheck round consistency and return the final claim.
    pub fn verify_rounds(&self, initial_claim: Fp128, challenges: &[Fp128]) -> (r: Result<
        Fp128,
        BatchedParityBridgeError,
    >)
        ensures
            match r {
                Ok(claim) => final_claim(
                    initial_claim@,
                    rounds_of(self.round_evals@),
                    residues(challenges@),
                ) == Some(claim@) && exists|claims: Seq<int>|
                    {
                        &&& #[trigger] claims.len() == self.round_evals@.len() + 1
                        &&& self.round_evals@.len() == challenges@.len()
                        &&& claims[0] == initial_claim@
                        &&& claims[challenges@.len() as int] == claim@
                        &&& forall|k: int|
                            0 <= k < challenges@.len() ==> congruent(
                                self.round_evals@[k][0]@ + self.round_evals@[k][1]@,
                                #[trigger] claims[k],
                            ) && claims[k + 1] == residue(
                                cubic_through(values_of(self.round_evals@[k]), challenges@[k]@),
                            )
                    },
                Err(e) => e == BatchedParityBridgeError::InvalidSumcheck && final_claim(
                    initial_claim@,
                    rounds_of(self.round_evals@),
                    residues(challenges@),
                ) is None,
            },
    {
        if self.round_evals.len() != challenges.len() {
            return Err(BatchedParityBridgeError::InvalidSumcheck);
        }
        let mut claim: Fp128 = initial_claim;
        let ghost rounds = rounds_of(self.round_evals@);
        let ghost points = residues(challenges@);
        let mut i: usize = 0;
        while i < challenges.len()
            invariant
                i <= challenges@.len(),
                self.round_evals@.len() == challenges@.len(),
                rounds == rounds_of(self.round_evals@),
                points == residues(challenges@),
                claim_after(initial_claim@, rounds, points, i as nat) == Some(claim@),
            decreases challenges@.len() - i,
        {
            let round: [Fp128; 4] = self.round_evals[i];
            let total: Fp128 = round[0].add(round[1]);
            proof {
                claim.lemma_view();
            }
            if total != claim {
                proof {
                    assert(claim_after(initial_claim@, rounds, points, (i + 1) as nat) is None);
                    lemma_no_claim(initial_claim@, rounds, points, (i + 1) as nat, rounds.len());
                }
                return Err(BatchedParityBridgeError::InvalidSumcheck);
            }
            claim = evaluate_cubic_from_0_1_2_3(round, challenges[i]);
            i = i + 1;
        }
        proof {
            let claims = law_accepted_rounds_chain(initial_claim@, rounds, points, claim@);
            assert(claims.len() == self.round_evals@.len() + 1);
            assert forall|k: int| 0 <= k < challenges@.len() implies congruent(
                self.round_evals@[k][0]@ + self.round_evals@[k][1]@,
                #[trigger] claims[k],
            ) && claims[k + 1] == residue(
                cubic_through(values_of(self.round_evals@[k]), challenges@[k]@),
            ) by {
                assert(rounds[k] == values_of(self.round_evals@[k]));
                assert(congruent(rounds[k][0] + rounds[k][1], claims[k]));
            }
        }
        Ok(claim)
    }
}

/// What the verifier receives and samples in a product sumcheck.
#[derive(Debug, Clone, PartialEq, Eq)]
pub struct ProductSumcheckTape {
    /// The claim that the prover sent.
    pub initial_claim: Fp128,
    /// The round polynomials that the prover sent.
    pub proof: ProductSumcheckProof,
    /// The challenges, each sampled after the round polynomial with the same index was received.
    pub challenges: Vec<Fp128>,
}

/// What the verifier receives and samples in a Booleanity sumcheck.
#[derive(Debug, Clone, PartialEq, Eq)]
pub struct BooleanitySumcheckTape {
    /// The claim that the prover sent.
    pub initial_claim: Fp128,
    /// The round polynomials that the prover sent.
    pub proof: WeightedBooleanitySumcheckProof,
    /// The challenges, each sampled after the round polynomial with the same index was received.
    pub challenges: Vec<Fp128>,
}

impl ProductSumcheckTape {
    /// The final claim, where the received claim is the expected one, there are as many rounds as
    /// expected and all rounds are consistent.
    pub open spec fn accepted(&self, expected_initial_claim: int, num_rounds: nat) -> Option<int> {
        if self.initial_claim@ == expected_initial_claim && self.challenges@.len() == num_rounds {
            final_claim(
                expected_initial_claim,
                rounds_of(self.proof.round_evals@),
                residues(self.challenges@),
            )
        } else {
            None
        }
    }
}

impl BooleanitySumcheckTape {
    /// The final claim, where the received claim is the expected one, there are as many rounds as
    /// expected and all rounds are consistent.
    pub open spec fn accepted(&self, expected_initial_claim: int, num_rounds: nat) -> Option<int> {
        if self.initial_claim@ == expected_initial_claim && self.challenges@.len() == num_rounds {
            final_claim(
                expected_initial_claim,
                rounds_of(self.proof.round_evals@),
                residues(self.challenges@),
            )
        } else {
            None
        }
    }
}

/// Verify a product sumcheck from what was received and return the final claim.
pub fn verify_product_sumcheck_transcript(
    expected_initial_claim: Fp128,
    num_rounds: usize,
    tape: &ProductSumcheckTape,
) -> (r: Result<Fp128, ChannelError>)
    ensures
        match r {
            Ok(claim) => tape.accepted(expected_initial_claim@, num_rounds as nat) == Some(claim@),
            Err(e) => e == ChannelError::ProofEmpty && tape.accepted(
                expected_initial_claim@,
                num_rounds as nat,
            ) is None,
        },
{
    if tape.initial_claim != expected_initial_claim || tape.challenges.len() != num_rounds {
        return Err(ChannelError::ProofEmpty);
    }
    match tape.proof.verify_rounds(expected_initial_claim, tape.challenges.as_slice()) {
        Ok(claim) => Ok(claim),
        Err(_) => Err(ChannelError::ProofEmpty),
    }
}

/// Verify weighted Booleanity from what was received and return the final claim.
pub fn verify_weighted_booleanity_sumcheck_transcript(
    expected_initial_claim: Fp128,
    num_rounds: usize,
    tape: &BooleanitySumcheckTape,
) -> (r: Result<Fp128, ChannelError>)
    ensures
        match r {
            Ok(claim) => tape.accepted(expected_initial_claim@, num_rounds as nat) == Some(claim@),
            Err(e) => e == ChannelError::ProofEmpty && tape.accepted(
                expected_initial_claim@,
                num_rounds as nat,
            ) is None,
        },
{
    if tape.initial_claim != expected_initial_claim || tape.challenges.len() != num_rounds {
        return Err(ChannelError::ProofEmpty);
    }
    match tape.proof.verify_rounds(expected_initial_claim, tape.challenges.as_slice()) {
        Ok(claim) => Ok(claim),
        Err(_) => Err(ChannelError::ProofEmpty),
    }
}

/// Whether elements are the messages of a sumcheck: the claim, followed by the `width` values of
/// each round.
pub open spec fn holds_messages(
    scalars: Seq<int>,
    initial: int,
    rounds: Seq<Seq<int>>,
    width: int,
) -> bool {
    &&& scalars.len() == 1 + width * rounds.len()
    &&& scalars[0] == initial
    &&& forall|k: int, t: int|
        0 <= k < rounds.len() && 0 <= t < width ==> scalars[1 + width * k + t]
            == #[trigger] rounds[k][t]
}

/// Returns the elements of the messages of a product sumcheck: the claim, followed by the values of the
/// rounds.
pub fn product_messages(initial_claim: Fp128, proof: &ProductSumcheckProof) -> (r: Vec<Fp128>)
    ensures
        holds_messages(residues(r@), initial_claim@, rounds_of(proof.round_evals@), 3),
{
    let mut out: Vec<Fp128> = Vec::new();
    out.push(initial_claim);
    let ghost rounds = rounds_of(proof.round_evals@);
    let mut k: usize = 0;
    while k < proof.round_evals.len()
        invariant
            k <= proof.round_evals@.len(),
            rounds == rounds_of(proof.round_evals@),
            out@.len() == 1 + 3 * k,
            out@[0]@ == initial_claim@,
            forall|j: int, t: int|
                0 <= j < k && 0 <= t < 3 ==> out@[1 + 3 * j + t]@ == #[trigger] rounds[j][t],
        decreases proof.round_evals@.len() - k,
    {
        let ghost before = out@;
        let round: [Fp128; 3] = proof.round_evals[k];
        out.push(round[0]);
        out.push(round[1]);
        out.push(round[2]);
        proof {
            assert forall|j: int, t: int| 0 <= j < k + 1 && 0 <= t < 3 implies out@[1 + 3 * j
                + t]@ == #[trigger] rounds[j][t] by {
                if j < k {
                    assert(before[1 + 3 * j + t]@ == rounds[j][t]);
                    assert(out@[1 + 3 * j + t] == before[1 + 3 * j + t]);
                } else {
                    assert(rounds[j] == values_of(round));
                    assert(out@[1 + 3 * j + t] == round@[t]);
                }
            }
        }
        k = k + 1;
    }
    out
}

/// Returns the tape of a product sumcheck with the given messages and challenges.
pub fn product_tape(scalars: &[Fp128], challenges: Vec<Fp128>) -> (r: ProductSumcheckTape)
    requires
        scalars@.len() == 1 + 3 * challenges@.len(),
    ensures
        r.challenges@ == challenges@,
        r.proof.round_evals@.len() == challenges@.len(),
        holds_messages(
            residues(scalars@),
            r.initial_claim@,
            rounds_of(r.proof.round_evals@),
            3,
        ),
{
    let total: usize = scalars.len();
    let mut round_evals: Vec<[Fp128; 3]> = Vec::new();
    let mut p: usize = 1;
    let mut k: usize = 0;
    while k < challenges.len()
        invariant
            k <= challenges@.len(),
            total == scalars@.len(),
            total == 1 + 3 * challenges@.len(),
            p == 1 + 3 * k,
            round_evals@.len() == k,
            forall|j: int, t: int|
                0 <= j < k && 0 <= t < 3 ==> scalars@[1 + 3 * j + t]@ == #[trigger] rounds_of(
                    round_evals@,
                )[j][t],
        decreases challenges@.len() - k,
    {
        let ghost before = rounds_of(round_evals@);
        let round: [Fp128; 3] = [scalars[p], scalars[p + 1], scalars[p + 2]];
        round_evals.push(round);
        proof {
            let after = rounds_of(round_evals@);
            assert(round@[0] == scalars@[p as int] && round@[1] == scalars@[p + 1]);
            assert(round@[2] == scalars@[p + 2]);
            assert forall|j: int, t: int| 0 <= j < k + 1 && 0 <= t < 3 implies scalars@[1 + 3 * j
                + t]@ == #[trigger] after[j][t] by {
                if j < k {
                    assert(after[j] == before[j]);
                    assert(scalars@[1 + 3 * j + t]@ == before[j][t]);
                } else {
                    assert(after[j] == values_of(round));
                    if t == 0 {
                        assert(values_of(round)[0] == scalars@[p + 0]@);
                    } else if t == 1 {
                        assert(values_of(round)[1] == scalars@[p + 1]@);
                    } else if t == 2 {
                        assert(values_of(round)[2] == scalars@[p + 2]@);
                    }
                }
            }
        }
        p = p + 3;
        k = k + 1;
    }
    ProductSumcheckTape {
        initial_claim: scalars[0],
        proof: ProductSumcheckProof { round_evals },
        challenges,
    }
}

/// Returns the elements of the messages of a Booleanity sumcheck: the claim, followed by the values of the
/// rounds.
pub fn booleanity_messages(initial_claim: Fp128, proof: &WeightedBooleanitySumcheckProof) -> (r: Vec<Fp128>)
    ensures
        holds_messages(residues(r@), initial_claim@, rounds_of(proof.round_evals@), 4),
{
    let mut out: Vec<Fp128> = Vec::new();
    out.push(initial_claim);
    let ghost rounds = rounds_of(proof.round_evals@);
    let mut k: usize = 0;
    while k < proof.round_evals.len()
        invariant
            k <= proof.round_evals@.len(),
            rounds == rounds_of(proof.round_evals@),
            out@.len() == 1 + 4 * k,
            out@[0]@ == initial_claim@,
            forall|j: int, t: int|
                0 <= j < k && 0 <= t < 4 ==> out@[1 + 4 * j + t]@ == #[trigger] rounds[j][t],
        decreases proof.round_evals@.len() - k,
    {
        let ghost before = out@;
        let round: [Fp128; 4] = proof.round_evals[k];
        out.push(round[0]);
        out.push(round[1]);
        out.push(round[2]);
        out.push(round[3]);
        proof {
            assert forall|j: int, t: int| 0 <= j < k + 1 && 0 <= t < 4 implies out@[1 + 4 * j
                + t]@ == #[trigger] rounds[j][t] by {
                if j < k {
                    assert(before[1 + 4 * j + t]@ == rounds[j][t]);
                    assert(out@[1 + 4 * j + t] == before[1 + 4 * j + t]);
                } else {
                    assert(rounds[j] == values_of(round));
                    assert(out@[1 + 4 * j + t] == round@[t]);
                }
            }
        }
        k = k + 1;
    }
    out
}

/// Returns the tape of a Booleanity sumcheck with the given messages and challenges.
pub fn booleanity_tape(scalars: &[Fp128], challenges: Vec<Fp128>) -> (r: BooleanitySumcheckTape)
    requires
        scalars@.len() == 1 + 4 * challenges@.len(),
    ensures
        r.challenges@ == challenges@,
        r.proof.round_evals@.len() == challenges@.len(),
        holds_messages(
            residues(scalars@),
            r.initial_claim@,
            rounds_of(r.proof.round_evals@),
            4,
        ),
{
    let total: usize = scalars.len();
    let mut round_evals: Vec<[Fp128; 4]> = Vec::new();
    let mut p: usize = 1;
    let mut k: usize = 0;
    while k < challenges.len()
        invariant
            k <= challenges@.len(),
            total == scalars@.len(),
            total == 1 + 4 * challenges@.len(),
            p == 1 + 4 * k,
            round_evals@.len() == k,
            forall|j: int, t: int|
                0 <= j < k && 0 <= t < 4 ==> scalars@[1 + 4 * j + t]@ == #[trigger] rounds_of(
                    round_evals@,
                )[j][t],
        decreases challenges@.len() - k,
    {
        let ghost before = rounds_of(round_evals@);
        let round: [Fp128; 4] = [scalars[p], scalars[p + 1], scalars[p + 2], scalars[p + 3]];
        round_evals.push(round);
        proof {
            let after = rounds_of(round_evals@);
            assert(round@[0] == scalars@[p as int] && round@[1] == scalars@[p + 1]);
            assert(round@[2] == scalars@[p + 2] && round@[3] == scalars@[p + 3]);
            assert forall|j: int, t: int| 0 <= j < k + 1 && 0 <= t < 4 implies scalars@[1 + 4 * j
                + t]@ == #[trigger] after[j][t] by {
                if j < k {
                    assert(after[j] == before[j]);
                    assert(scalars@[1 + 4 * j + t]@ == before[j][t]);
                } else {
                    assert(after[j] == values_of(round));
                    if t == 0 {
                        assert(values_of(round)[0] == scalars@[p + 0]@);
                    } else if t == 1 {
                        assert(values_of(round)[1] == scalars@[p + 1]@);
                    } else if t == 2 {
                        assert(values_of(round)[2] == scalars@[p + 2]@);
                    } else if t == 3 {
                        assert(values_of(round)[3] == scalars@[p + 3]@);
                    }
                }
            }
        }
        p = p + 4;
        k = k + 1;
    }
    BooleanitySumcheckTape {
        initial_claim: scalars[0],
        proof: WeightedBooleanitySumcheckProof { round_evals },
        challenges,
    }
}

} // verus!
