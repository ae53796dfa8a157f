//! Booleanity of bit tables: product inputs, and the prover's side of the weighted sumcheck
//! `sum_x eq(rho, x) * B(x) * (B(x) - 1) = claim`.

use vstd::arithmetic::power2::{lemma2_to64, lemma_pow2_pos, lemma_pow2_unfold, pow2};
use vstd::prelude::*;

use super::error::BatchedParityBridgeError;
use super::fp128::{
    congruent, lemma_congruent, lemma_congruent_to_residue, lemma_modulus, lemma_residue,
    lemma_residue_of_small, residue, residues, Fp128, MODULUS,
};
use super::interpolation::{
    cubic_at, cubic_plus, first_values, law_cubic_interpolates, lemma_cubic_congruent,
    lemma_cubic_plus, values_of,
};
use super::masks::BitSliceOracle;
use super::product::{product_total, table_products, tables_of};
use super::rounds::{claim_after, final_claim, rounds_of, through, WeightedBooleanitySumcheckProof};
use super::tables::{
    all_congruent, copy_table, eq_product, fold_evals, law_eq_product_evaluates_indicator,
    lemma_fold_congruent, lemma_reduced, lemma_sum_congruent, multilinear_eq_evals, reduced,
};
use crate::field::Ring;
use crate::multilinear::{
    eq_table, evaluation, folded_by, folded_low, interpolated, law_fold_all_evaluates,
    law_fold_by_evaluates, lemma_eq_table_len, lemma_sum_take, lemma_sum_zeros,
    pointwise_times, sum,
};
use crate::powers::{is_power_of_two, is_two_power, lemma_exponents, log2_exact};

verus! {

/// What an entry contributes: zero where the bit is zero or one.
pub open spec fn weighted_term(bit: int, weight: int) -> int {
    weight * bit * (bit - 1)
}

/// What the entries of a table contribute.
pub open spec fn weighted_terms(bits: Seq<int>, weights: Seq<int>) -> Seq<int> {
    Seq::new(bits.len(), |i: int| weighted_term(bits[i], weights[i]))
}

/// The sum that a Booleanity sumcheck is about.
pub open spec fn weighted_total(bits: Seq<int>, weights: Seq<int>) -> int {
    sum(weighted_terms(bits, weights))
}

/// The value at `t` of the round polynomial: the sum that is left when the lowest variable is
/// fixed to `t`.
pub open spec fn weighted_round(bits: Seq<int>, weights: Seq<int>, t: int) -> int {
    weighted_total(folded_low(bits, t), folded_low(weights, t))
}

/// Congruent entries contribute congruently.
proof fn lemma_term_congruent(a: int, b: int, c: int, d: int)
    requires
        congruent(a, c),
        congruent(b, d),
    ensures
        congruent(weighted_term(a, b), weighted_term(c, d)),
{
    lemma_congruent(b, a, d, c);
    lemma_congruent(a, 1, c, 1);
    lemma_congruent(b * a, a - 1, d * c, c - 1);
}

/// Congruent tables have congruent sums.
proof fn lemma_weighted_congruent(a: Seq<int>, b: Seq<int>, c: Seq<int>, d: Seq<int>)
    requires
        all_congruent(a, c),
        all_congruent(b, d),
        a.len() == b.len(),
    ensures
        congruent(weighted_total(a, b), weighted_total(c, d)),
{
    let (p, q) = (weighted_terms(a, b), weighted_terms(c, d));
    assert forall|i: int| 0 <= i < p.len() implies #[trigger] congruent(p[i], q[i]) by {
        assert(congruent(a[i], c[i]) && congruent(b[i], d[i]));
        lemma_term_congruent(a[i], b[i], c[i], d[i]);
    }
    lemma_sum_congruent(p, q);
}

/// Returns the sum that a Booleanity sumcheck is about.
fn weighted_booleanity_sum(bits: &[Fp128], weights: &[Fp128]) -> (r: Fp128)
    requires
        bits@.len() == weights@.len(),
    ensures
        r@ == residue(weighted_total(residues(bits@), residues(weights@))),
{
    let one: Fp128 = Fp128::from_u64(1);
    let mut acc: Fp128 = Fp128::from_u64(0);
    let ghost terms = weighted_terms(residues(bits@), residues(weights@));
    proof {
        lemma_modulus();
        lemma_residue_of_small(0);
    }
    let mut i: usize = 0;
    while i < bits.len()
        invariant
            i <= bits@.len(),
            bits@.len() == weights@.len(),
            one@ == 1,
            terms == weighted_terms(residues(bits@), residues(weights@)),
            acc@ == residue(sum(terms.take(i as int))),
        decreases bits@.len() - i,
    {
        let (bit, weight) = (bits[i], weights[i]);
        let front: Fp128 = weight.mul(bit);
        let rest: Fp128 = bit.sub(one);
        let term: Fp128 = front.mul(rest);
        proof {
            lemma_sum_take(terms, i as int);
            lemma_congruent_to_residue(weight@ * bit@);
            lemma_congruent_to_residue(bit@ - 1);
            lemma_congruent(front@, rest@, weight@ * bit@, bit@ - 1);
            lemma_congruent_to_residue(front@ * rest@);
            lemma_congruent_to_residue(sum(terms.take(i as int)));
            lemma_congruent(acc@, term@, sum(terms.take(i as int)), terms[i as int]);
        }
        acc = acc.add(term);
        i = i + 1;
    }
    assert(terms.take(i as int) =~= terms);
    acc
}

/// Returns the value of the round polynomial at a small integer.
fn weighted_round_at(bits: &[Fp128], weights: &[Fp128], t: u64) -> (r: Fp128)
    requires
        bits@.len() == weights@.len(),
    ensures
        r@ == residue(weighted_round(residues(bits@), residues(weights@), t as int)),
{
    let mut b: Vec<Fp128> = copy_table(bits);
    let mut w: Vec<Fp128> = copy_table(weights);
    fold_evals(&mut b, Fp128::from_u64(t));
    fold_evals(&mut w, Fp128::from_u64(t));
    proof {
        let (x, y) = (
            folded_low(residues(bits@), t as int),
            folded_low(residues(weights@), t as int),
        );
        assert(residues(b@).len() == reduced(x).len() && residues(w@).len() == reduced(y).len());
        lemma_reduced(x);
        lemma_reduced(y);
        lemma_weighted_congruent(residues(b@), residues(w@), x, y);
    }
    weighted_booleanity_sum(b.as_slice(), w.as_slice())
}

/// Returns the values of the round polynomial at 0, 1, 2 and 3.
pub fn weighted_booleanity_round_evals(bits: &[Fp128], weights: &[Fp128]) -> (r: [Fp128; 4])
    requires
        bits@.len() == weights@.len(),
    ensures
        forall|t: int|
            0 <= t < 4 ==> (#[trigger] r[t])@ == residue(
                weighted_round(residues(bits@), residues(weights@), t),
            ),
{
    let e0: Fp128 = weighted_round_at(bits, weights, 0);
    let e1: Fp128 = weighted_round_at(bits, weights, 1);
    let e2: Fp128 = weighted_round_at(bits, weights, 2);
    let e3: Fp128 = weighted_round_at(bits, weights, 3);
    let r: [Fp128; 4] = [e0, e1, e2, e3];
    assert(r[0] == e0 && r[1] == e1 && r[2] == e2 && r[3] == e3);
    r
}

/// Checks that the table and the point of the weights fit together.
fn validate_weighted_booleanity_inputs(bit_table: &[Fp128], weight_point: &[Fp128]) -> (r: Result<
    (),
    BatchedParityBridgeError,
>)
    ensures
        match r {
            Ok(_) => bit_table@.len() == pow2(weight_point@.len()),
            Err(e) => e == BatchedParityBridgeError::InvalidSumcheck && bit_table@.len() != pow2(
                weight_point@.len(),
            ),
        },
{
    if !is_two_power(bit_table.len()) {
        return Err(BatchedParityBridgeError::InvalidSumcheck);
    }
    let log_len: usize = log2_exact(bit_table.len());
    proof {
        lemma_exponents(log_len as nat, weight_point@.len());
        lemma_exponents(weight_point@.len(), log_len as nat);
    }
    if log_len != weight_point.len() {
        return Err(BatchedParityBridgeError::InvalidSumcheck);
    }
    Ok(())
}

/// The state of the prover between two rounds of a Booleanity sumcheck.
#[derive(Debug, Clone, PartialEq, Eq)]
pub struct BooleanitySumcheckProver {
    /// The bit table, with the variables of the past rounds fixed.
    pub bits: Vec<Fp128>,
    /// The weights, with the variables of the past rounds fixed.
    pub weights: Vec<Fp128>,
}

impl BooleanitySumcheckProver {
    /// Whether the two tables have the same length, a power of two.
    pub open spec fn is_valid(&self) -> bool {
        &&& self.bits@.len() == self.weights@.len()
        &&& is_power_of_two(self.bits@.len() as int)
    }

    /// Starts a Booleanity sumcheck, if the point of the weights has as many coordinates as the
    /// table has variables.
    pub fn new(bit_table: &[Fp128], weight_point: &[Fp128]) -> (r: Result<
        Self,
        BatchedParityBridgeError,
    >)
        ensures
            match r {
                Ok(p) => p.is_valid() && bit_table@.len() == pow2(weight_point@.len()) && p.bits@
                    == bit_table@ && residues(p.weights@) == reduced(
                    eq_table(residues(weight_point@)),
                ),
                Err(e) => e == BatchedParityBridgeError::InvalidSumcheck && bit_table@.len()
                    != pow2(weight_point@.len()),
            },
    {
        match validate_weighted_booleanity_inputs(bit_table, weight_point) {
            Ok(_) => {
                assert(bit_table.len() <= usize::MAX);
                let weights: Vec<Fp128> = multilinear_eq_evals(weight_point);
                Ok(BooleanitySumcheckProver { bits: copy_table(bit_table), weights })
            },
            Err(e) => Err(e),
        }
    }

    /// Returns the number of rounds that are left.
    pub fn num_rounds(&self) -> (r: usize)
        requires
            self.is_valid(),
        ensures
            self.bits@.len() == pow2(r as nat),
    {
        log2_exact(self.bits.len())
    }

    /// Returns the sum that is claimed at this state.
    pub fn claim(&self) -> (r: Fp128)
        requires
            self.is_valid(),
        ensures
            r@ == residue(weighted_total(residues(self.bits@), residues(self.weights@))),
    {
        weighted_booleanity_sum(self.bits.as_slice(), self.weights.as_slice())
    }

    /// Returns the values of the next round polynomial at 0, 1, 2 and 3.
    pub fn round_evals(&self) -> (r: [Fp128; 4])
        requires
            self.is_valid(),
        ensures
            forall|t: int|
                0 <= t < 4 ==> (#[trigger] r[t])@ == residue(
                    weighted_round(residues(self.bits@), residues(self.weights@), t),
                ),
    {
        weighted_booleanity_round_evals(self.bits.as_slice(), self.weights.as_slice())
    }

    /// Fixes the variable of the round to the challenge.
    pub fn fold(&mut self, challenge: Fp128)
        requires
            old(self).is_valid(),
            old(self).bits@.len() >= 2,
        ensures
            final(self).is_valid(),
            2 * final(self).bits@.len() == old(self).bits@.len(),
            residues(final(self).bits@) == reduced(
                folded_low(residues(old(self).bits@), challenge@),
            ),
            residues(final(self).weights@) == reduced(
                folded_low(residues(old(self).weights@), challenge@),
            ),
    {
        proof {
            let n = choose|n: nat| self.bits@.len() == pow2(n);
            lemma2_to64();
            lemma_pow2_unfold(n);
            assert(self.bits@.len() / 2 == pow2((n - 1) as nat));
        }
        let ghost before = *self;
        fold_evals(&mut self.bits, challenge);
        fold_evals(&mut self.weights, challenge);
        proof {
            assert(residues(self.bits@).len() == before.bits@.len() / 2);
            assert(residues(self.weights@).len() == before.bits@.len() / 2);
        }
    }

    /// Returns the value of the bit table that is left when all variables are fixed.
    pub fn opening(&self) -> (r: Fp128)
        requires
            self.is_valid(),
        ensures
            r == self.bits@[0],
    {
        proof {
            let n = choose|n: nat| self.bits@.len() == pow2(n);
            lemma_pow2_pos(n);
        }
        self.bits[0]
    }
}

/// The values of a round polynomial at 0, 1, 2 and 3, reduced.
pub open spec fn honest_weighted_round(bits: Seq<int>, weights: Seq<int>) -> Seq<int> {
    Seq::new(4, |t: int| residue(weighted_round(bits, weights, t)))
}

/// The round polynomials of an honest prover: round `k` has the values at 0, 1, 2 and 3 of what is
/// left when the first `k` variables are fixed to the challenges.
pub open spec fn honest_weighted_rounds(
    rounds: Seq<Seq<int>>,
    bits: Seq<int>,
    weights: Seq<int>,
    challenges: Seq<int>,
) -> bool {
    &&& rounds.len() == challenges.len()
    &&& forall|k: int|
        0 <= k < rounds.len() ==> #[trigger] rounds[k] == honest_weighted_round(
            folded_by(bits, challenges.take(k)),
            folded_by(weights, challenges.take(k)),
        )
}

/// Prove randomly weighted Booleanity for one bit-table polynomial.
///
/// Returns the claim, the proof and the value of the bit table at the challenges.
pub fn prove_weighted_booleanity_sumcheck(
    bit_table: &[Fp128],
    weight_point: &[Fp128],
    challenges: &[Fp128],
) -> (r: Result<(Fp128, WeightedBooleanitySumcheckProof, Fp128), BatchedParityBridgeError>)
    ensures
        match r {
            Ok((claim, proof, opening)) => {
                let (bits, cs) = (residues(bit_table@), residues(challenges@));
                let weights = eq_table(residues(weight_point@));
                &&& bits.len() == pow2(weight_point@.len())
                &&& challenges@.len() == weight_point@.len()
                &&& claim@ == residue(weighted_total(bits, weights))
                &&& honest_weighted_rounds(rounds_of(proof.round_evals@), bits, weights, cs)
                &&& opening@ == residue(evaluation(bits, cs))
            },
            Err(e) => e == BatchedParityBridgeError::InvalidSumcheck && !(bit_table@.len() == pow2(
                weight_point@.len(),
            ) && challenges@.len() == weight_point@.len()),
        },
{
    let ghost (bits, cs) = (residues(bit_table@), residues(challenges@));
    let ghost weights = eq_table(residues(weight_point@));
    let mut prover: BooleanitySumcheckProver = match BooleanitySumcheckProver::new(
        bit_table,
        weight_point,
    ) {
        Ok(p) => p,
        Err(e) => {
            return Err(e);
        },
    };
    if challenges.len() != weight_point.len() {
        return Err(BatchedParityBridgeError::InvalidSumcheck);
    }
    let initial_claim: Fp128 = prover.claim();
    let mut round_evals: Vec<[Fp128; 4]> = Vec::with_capacity(challenges.len());
    let mut k: usize = 0;
    proof {
        assert(cs.take(0) =~= Seq::<int>::empty());
        lemma_eq_table_len(residues(weight_point@));
        lemma_reduced(weights);
        assert(all_congruent(residues(prover.bits@), bits));
        lemma_weighted_congruent(
            residues(prover.bits@),
            residues(prover.weights@),
            bits,
            weights,
        );
    }
    while k < challenges.len()
        invariant
            k <= challenges@.len(),
            bits == residues(bit_table@),
            cs == residues(challenges@),
            bits.len() == pow2(challenges@.len()),
            prover.is_valid(),
            prover.bits@.len() == pow2((challenges@.len() - k) as nat),
            all_congruent(residues(prover.bits@), folded_by(bits, cs.take(k as int))),
            all_congruent(residues(prover.weights@), folded_by(weights, cs.take(k as int))),
            round_evals@.len() == k,
            forall|i: int|
                0 <= i < k ==> values_of(#[trigger] round_evals@[i]) == honest_weighted_round(
                    folded_by(bits, cs.take(i)),
                    folded_by(weights, cs.take(i)),
                ),
        decreases challenges@.len() - k,
    {
        let ghost (b, w) = (residues(prover.bits@), residues(prover.weights@));
        let ghost (x, y) = (
            folded_by(bits, cs.take(k as int)),
            folded_by(weights, cs.take(k as int)),
        );
        let round: [Fp128; 4] = prover.round_evals();
        proof {
            assert forall|t: int| 0 <= t < 4 implies values_of(round)[t] == honest_weighted_round(
                x,
                y,
            )[t] by {
                lemma_fold_congruent(b, x, t, t);
                lemma_fold_congruent(w, y, t, t);
                lemma_weighted_congruent(
                    folded_low(b, t),
                    folded_low(w, t),
                    folded_low(x, t),
                    folded_low(y, t),
                );
                assert(round[t]@ == residue(weighted_round(b, w, t)));
            }
            assert(values_of(round) =~= honest_weighted_round(x, y));
            lemma_pow2_unfold((challenges@.len() - k) as nat);
            lemma_pow2_pos((challenges@.len() - k - 1) as nat);
        }
        round_evals.push(round);
        prover.fold(challenges[k]);
        proof {
            let c = challenges@[k as int]@;
            assert(cs.take(k + 1).drop_last() =~= cs.take(k as int));
            lemma_reduced_fold(b, x, c);
            lemma_reduced_fold(w, y, c);
        }
        k = k + 1;
    }
    let opening: Fp128 = prover.opening();
    proof {
        lemma2_to64();
        assert(cs.take(k as int) =~= cs);
        assert(rounds_of(round_evals@).len() == cs.len());
        law_fold_all_evaluates(bits, cs);
        assert(congruent(residues(prover.bits@)[0], folded_by(bits, cs)[0]));
        opening.lemma_view();
    }
    Ok((initial_claim, WeightedBooleanitySumcheckProof { round_evals }, opening))
}

/// Fixing a variable and reducing keeps tables congruent.
proof fn lemma_reduced_fold(a: Seq<int>, b: Seq<int>, c: int)
    requires
        all_congruent(a, b),
    ensures
        all_congruent(reduced(folded_low(a, c)), folded_low(b, c)),
{
    lemma_fold_congruent(a, b, c, c);
    let (p, q) = (folded_low(a, c), folded_low(b, c));
    lemma_reduced(p);
    assert forall|i: int| 0 <= i < p.len() implies #[trigger] congruent(reduced(p)[i], q[i]) by {
        assert(congruent(reduced(p)[i], p[i]));
        assert(congruent(p[i], q[i]));
    }
}

/// The coefficients of what a pair of entries contributes to a round polynomial.
spec fn pair_coeffs(b0: int, b1: int, w0: int, w1: int) -> Seq<int> {
    let (db, dw) = (b1 - b0, w1 - w0);
    let (p, q, r) = (b0 * (b0 - 1), (2 * b0 - 1) * db, db * db);
    seq![w0 * p, w0 * q + dw * p, w0 * r + dw * q, dw * r]
}

/// What a pair of entries contributes to a round polynomial.
proof fn lemma_pair(b0: int, b1: int, w0: int, w1: int, t: int)
    ensures
        weighted_term(interpolated(b0, b1, t), interpolated(w0, w1, t)) == cubic_at(
            pair_coeffs(b0, b1, w0, w1),
            t,
        ),
{
    let (db, dw) = (b1 - b0, w1 - w0);
    let (p, q, r) = (b0 * (b0 - 1), (2 * b0 - 1) * db, db * db);
    let (u, v) = (t * db, t * dw);
    let y = t * t;
    let b = b0 + u;
    // the two factors with the bit
    assert(b * (b - 1) == p + (2 * b0 - 1) * u + u * u) by (nonlinear_arith)
        requires
            b == b0 + u,
            p == b0 * (b0 - 1),
    ;
    assert((2 * b0 - 1) * u == q * t) by (nonlinear_arith)
        requires
            q == (2 * b0 - 1) * db,
            u == t * db,
    ;
    assert(u * u == r * y) by (nonlinear_arith)
        requires
            r == db * db,
            u == t * db,
            y == t * t,
    ;
    let g = p + q * t + r * y;
    let w = w0 + v;
    assert(w * b * (b - 1) == w * g) by (nonlinear_arith)
        requires
            b * (b - 1) == g,
    ;
    assert(w * g == w0 * g + v * g) by (nonlinear_arith)
        requires
            w == w0 + v,
    ;
    assert(w0 * g == w0 * p + (w0 * q) * t + (w0 * r) * y) by (nonlinear_arith)
        requires
            g == p + q * t + r * y,
    ;
    assert(v * g == dw * (t * g)) by (nonlinear_arith)
        requires
            v == t * dw,
    ;
    assert(t * g == p * t + q * y + r * (t * y)) by (nonlinear_arith)
        requires
            g == p + q * t + r * y,
            y == t * t,
    ;
    let z = t * y;
    let (f1, f2, f3) = (p * t, q * y, r * z);
    assert(dw * (f1 + f2 + f3) == dw * f1 + dw * f2 + dw * f3) by (nonlinear_arith);
    assert(dw * f1 == (dw * p) * t) by (nonlinear_arith)
        requires
            f1 == p * t,
    ;
    assert(dw * f2 == (dw * q) * y) by (nonlinear_arith)
        requires
            f2 == q * y,
    ;
    assert(dw * f3 == (dw * r) * z) by (nonlinear_arith)
        requires
            f3 == r * z,
    ;
    assert((w0 * q + dw * p) * t == (w0 * q) * t + (dw * p) * t) by (nonlinear_arith);
    assert((w0 * r + dw * q) * y == (w0 * r) * y + (dw * q) * y) by (nonlinear_arith);
}

/// The sum of the first terms with a variable fixed is a polynomial in the value of that variable,
/// of degree at most three.
proof fn lemma_terms_polynomial(bits: Seq<int>, weights: Seq<int>, n: nat) -> (c: Seq<int>)
    requires
        bits.len() == weights.len(),
        n <= bits.len() / 2,
    ensures
        c.len() == 4,
        forall|t: int| #[trigger]
            cubic_at(c, t) == sum(
                weighted_terms(folded_low(bits, t), folded_low(weights, t)).take(n as int),
            ),
    decreases n,
{
    if n == 0 {
        let c = seq![0int, 0, 0, 0];
        assert forall|t: int| #[trigger]
            cubic_at(c, t) == sum(
                weighted_terms(folded_low(bits, t), folded_low(weights, t)).take(n as int),
            ) by {
            assert(0 * t == 0 && 0 * (t * t) == 0 && 0 * (t * (t * t)) == 0) by (nonlinear_arith);
            assert(weighted_terms(folded_low(bits, t), folded_low(weights, t)).take(0) =~= Seq::<
                int,
            >::empty());
            assert(sum(Seq::<int>::empty()) == 0);
        }
        c
    } else {
        let k = n - 1;
        let d = lemma_terms_polynomial(bits, weights, k as nat);
        let (b0, b1) = (bits[2 * k], bits[2 * k + 1]);
        let (w0, w1) = (weights[2 * k], weights[2 * k + 1]);
        let e = pair_coeffs(b0, b1, w0, w1);
        let c = cubic_plus(d, e);
        assert forall|t: int| #[trigger]
            cubic_at(c, t) == sum(
                weighted_terms(folded_low(bits, t), folded_low(weights, t)).take(n as int),
            ) by {
            let p = weighted_terms(folded_low(bits, t), folded_low(weights, t));
            lemma_sum_take(p, k);
            lemma_pair(b0, b1, w0, w1, t);
            lemma_cubic_plus(d, e, t);
            assert(cubic_at(d, t) == sum(p.take(k)));
        }
        c
    }
}

/// A round polynomial is a polynomial of degree at most three.
pub proof fn law_weighted_round_is_cubic(bits: Seq<int>, weights: Seq<int>) -> (c: Seq<int>)
    requires
        bits.len() == weights.len(),
    ensures
        c.len() == 4,
        forall|t: int| #[trigger] cubic_at(c, t) == weighted_round(bits, weights, t),
{
    let n = bits.len() / 2;
    let c = lemma_terms_polynomial(bits, weights, n);
    assert forall|t: int| #[trigger] cubic_at(c, t) == weighted_round(bits, weights, t) by {
        let p = weighted_terms(folded_low(bits, t), folded_low(weights, t));
        assert(p.take(n as int) =~= p);
    }
    c
}

/// The sum of the first terms of tables of even length.
proof fn lemma_terms_halves(bits: Seq<int>, weights: Seq<int>, n: nat)
    requires
        bits.len() == weights.len(),
        2 * n <= bits.len(),
    ensures
        sum(weighted_terms(bits, weights).take(2 * n as int)) == sum(
            weighted_terms(folded_low(bits, 0), folded_low(weights, 0)).take(n as int),
        ) + sum(weighted_terms(folded_low(bits, 1), folded_low(weights, 1)).take(n as int)),
    decreases n,
{
    let p = weighted_terms(bits, weights);
    let p0 = weighted_terms(folded_low(bits, 0), folded_low(weights, 0));
    let p1 = weighted_terms(folded_low(bits, 1), folded_low(weights, 1));
    if n == 0 {
        assert(p.take(0) =~= Seq::<int>::empty());
        assert(p0.take(0) =~= Seq::<int>::empty());
        assert(p1.take(0) =~= Seq::<int>::empty());
        assert(sum(Seq::<int>::empty()) == 0);
    } else {
        let k = n - 1;
        lemma_terms_halves(bits, weights, k as nat);
        lemma_sum_take(p, 2 * k);
        lemma_sum_take(p, 2 * k + 1);
        lemma_sum_take(p0, k);
        lemma_sum_take(p1, k);
        assert(folded_low(bits, 0)[k] == bits[2 * k]);
        assert(folded_low(weights, 0)[k] == weights[2 * k]);
        assert(folded_low(bits, 1)[k] == bits[2 * k + 1]);
        assert(folded_low(weights, 1)[k] == weights[2 * k + 1]);
    }
}

/// The values of a round polynomial at zero and one add up to the claim of the round.
pub proof fn law_weighted_round_meets_claim(bits: Seq<int>, weights: Seq<int>)
    requires
        bits.len() == weights.len(),
        bits.len() % 2 == 0,
    ensures
        weighted_round(bits, weights, 0) + weighted_round(bits, weights, 1) == weighted_total(
            bits,
            weights,
        ),
{
    let n = bits.len() / 2;
    lemma_terms_halves(bits, weights, n);
    let p = weighted_terms(bits, weights);
    let p0 = weighted_terms(folded_low(bits, 0), folded_low(weights, 0));
    let p1 = weighted_terms(folded_low(bits, 1), folded_low(weights, 1));
    assert(p.take(2 * n as int) =~= p);
    assert(p0.take(n as int) =~= p0);
    assert(p1.take(n as int) =~= p1);
}

/// The polynomial through the values of an honest round is the round polynomial.
proof fn lemma_honest_weighted_round(bits: Seq<int>, weights: Seq<int>, x: int)
    requires
        bits.len() == weights.len(),
    ensures
        congruent(through(honest_weighted_round(bits, weights), x), weighted_round(bits, weights, x)),
{
    let c = law_weighted_round_is_cubic(bits, weights);
    let (e, f) = (honest_weighted_round(bits, weights), first_values(c, 4));
    assert(cubic_at(c, 0) == weighted_round(bits, weights, 0));
    assert(cubic_at(c, 1) == weighted_round(bits, weights, 1));
    assert(cubic_at(c, 2) == weighted_round(bits, weights, 2));
    assert(cubic_at(c, 3) == weighted_round(bits, weights, 3));
    lemma_congruent_to_residue(weighted_round(bits, weights, 0));
    lemma_congruent_to_residue(weighted_round(bits, weights, 1));
    lemma_congruent_to_residue(weighted_round(bits, weights, 2));
    lemma_congruent_to_residue(weighted_round(bits, weights, 3));
    lemma_cubic_congruent(e, f, x);
    law_cubic_interpolates(c, x);
    assert(cubic_at(c, x) == weighted_round(bits, weights, x));
}

/// After each round of an honest prover, the claim is the sum that is left.
proof fn lemma_honest_weighted_claims(
    bits: Seq<int>,
    weights: Seq<int>,
    challenges: Seq<int>,
    rounds: Seq<Seq<int>>,
    k: nat,
)
    requires
        bits.len() == weights.len(),
        bits.len() == pow2(challenges.len()),
        honest_weighted_rounds(rounds, bits, weights, challenges),
        k <= challenges.len(),
    ensures
        claim_after(residue(weighted_total(bits, weights)), rounds, challenges, k) == Some(
            residue(
                weighted_total(
                    folded_by(bits, challenges.take(k as int)),
                    folded_by(weights, challenges.take(k as int)),
                ),
            ),
        ),
    decreases k,
{
    if k == 0 {
        assert(challenges.take(0) =~= Seq::<int>::empty());
    } else {
        let i = k - 1;
        lemma_honest_weighted_claims(bits, weights, challenges, rounds, i as nat);
        let c = challenges[i];
        assert(challenges.take(k as int).drop_last() =~= challenges.take(i));
        let (b, w) = (folded_by(bits, challenges.take(i)), folded_by(weights, challenges.take(i)));
        let rest = challenges.skip(i);
        law_fold_by_evaluates(bits, challenges.take(i), rest);
        law_fold_by_evaluates(weights, challenges.take(i), rest);
        lemma_pow2_unfold(rest.len());
        law_weighted_round_meets_claim(b, w);
        let (q0, q1) = (weighted_round(b, w, 0), weighted_round(b, w, 1));
        lemma_congruent_to_residue(q0);
        lemma_congruent_to_residue(q1);
        lemma_congruent(residue(q0), residue(q1), q0, q1);
        lemma_residue(weighted_total(b, w));
        assert(rounds[i] == honest_weighted_round(b, w));
        lemma_honest_weighted_round(b, w, c);
    }
}

/// An honest Booleanity sumcheck is accepted, and leaves `eq(rho, r) * B(r) * (B(r) - 1)` at the
/// challenges `r` as its final claim.
pub proof fn law_booleanity_sumcheck_is_complete(
    bits: Seq<int>,
    weight_point: Seq<int>,
    challenges: Seq<int>,
    rounds: Seq<Seq<int>>,
)
    requires
        bits.len() == pow2(challenges.len()),
        weight_point.len() == challenges.len(),
        honest_weighted_rounds(rounds, bits, eq_table(weight_point), challenges),
    ensures
        final_claim(
            residue(weighted_total(bits, eq_table(weight_point))),
            rounds,
            challenges,
        ) == Some(
            residue(
                weighted_term(evaluation(bits, challenges), eq_product(weight_point, challenges)),
            ),
        ),
{
    let weights = eq_table(weight_point);
    lemma_eq_table_len(weight_point);
    lemma_honest_weighted_claims(bits, weights, challenges, rounds, challenges.len());
    assert(challenges.take(challenges.len() as int) =~= challenges);
    law_fold_all_evaluates(bits, challenges);
    law_fold_all_evaluates(weights, challenges);
    law_eq_product_evaluates_indicator(weight_point, challenges);
    let (b, w) = (evaluation(bits, challenges), evaluation(weights, challenges));
    let p = weighted_terms(seq![b], seq![w]);
    assert(p =~= seq![weighted_term(b, w)]);
    assert(p.drop_last() =~= Seq::<int>::empty());
    assert(sum(Seq::<int>::empty()) == 0);
}

/// Where all entries of a table are zero or one, the Booleanity sum is zero, whatever the weights.
pub proof fn law_booleanity_of_bits(bits: Seq<int>, weights: Seq<int>)
    requires
        forall|i: int| 0 <= i < bits.len() ==> 0 <= #[trigger] bits[i] < 2,
    ensures
        weighted_total(bits, weights) == 0,
{
    let p = weighted_terms(bits, weights);
    assert forall|i: int| 0 <= i < p.len() implies p[i] == 0 by {
        let (b, w) = (bits[i], weights[i]);
        assert(0 <= bits[i] < 2);
        assert(w * b * (b - 1) == 0) by (nonlinear_arith)
            requires
                b == 0 || b == 1,
        ;
    }
    lemma_sum_zeros(p);
}

/// The entries of a table, less one each.
pub open spec fn less_one(table: Seq<int>) -> Seq<int> {
    Seq::new(table.len(), |i: int| residue(table[i] - 1))
}

/// One more than an entry of the right table is the entry of the left one, so that its place among
/// the residues is before it, and the last one where the entry is zero.
pub proof fn law_right_table_is_one_less(table: Seq<int>, i: int)
    requires
        0 <= i < table.len(),
        0 <= table[i] < MODULUS,
    ensures
        less_one(table).len() == table.len(),
        less_one(table)[i] == if table[i] == 0 {
            MODULUS - 1
        } else {
            table[i] - 1
        },
{
    lemma_modulus();
}

/// Returns the entries of a table, less one each.
fn subtract_one(table: &[Fp128]) -> (r: Vec<Fp128>)
    ensures
        residues(r@) == less_one(residues(table@)),
{
    let one: Fp128 = Fp128::from_u64(1);
    let mut out: Vec<Fp128> = Vec::with_capacity(table.len());
    let mut i: usize = 0;
    while i < table.len()
        invariant
            i <= table@.len(),
            one@ == 1,
            out@.len() == i,
            forall|j: int| 0 <= j < i ==> (#[trigger] out@[j])@ == residue(table@[j]@ - 1),
        decreases table@.len() - i,
    {
        out.push(table[i].sub(one));
        i = i + 1;
    }
    assert(residues(out@) =~= less_one(residues(table@)));
    out
}

/// Build the Booleanity product-sumcheck input for bit-slice polynomials.
pub fn booleanity_sumcheck_inputs(bit_slices: &BitSliceOracle) -> (r: (
    Vec<Vec<Fp128>>,
    Vec<Vec<Fp128>>,
))
    ensures
        tables_of(r.0@) == tables_of(bit_slices.bit_polys@),
        r.1@.len() == bit_slices.bit_polys@.len(),
        forall|j: int|
            0 <= j < r.1@.len() ==> residues((#[trigger] r.1@[j])@) == less_one(
                residues(bit_slices.bit_polys@[j]@),
            ),
{
    let polys: &Vec<Vec<Fp128>> = &bit_slices.bit_polys;
    let mut lefts: Vec<Vec<Fp128>> = Vec::with_capacity(polys.len());
    let mut rights: Vec<Vec<Fp128>> = Vec::with_capacity(polys.len());
    let mut j: usize = 0;
    while j < polys.len()
        invariant
            j <= polys@.len(),
            lefts@.len() == j,
            rights@.len() == j,
            forall|i: int| 0 <= i < j ==> (#[trigger] lefts@[i])@ == polys@[i]@,
            forall|i: int|
                0 <= i < j ==> residues((#[trigger] rights@[i])@) == less_one(
                    residues(polys@[i]@),
                ),
        decreases polys@.len() - j,
    {
        lefts.push(copy_table(polys[j].as_slice()));
        rights.push(subtract_one(polys[j].as_slice()));
        j = j + 1;
    }
    proof {
        assert forall|i: int| 0 <= i < polys@.len() implies tables_of(lefts@)[i] == tables_of(
            polys@,
        )[i] by {
            assert(lefts@[i]@ == polys@[i]@);
        }
        assert(tables_of(lefts@) =~= tables_of(polys@));
    }
    (lefts, rights)
}

/// Build Booleanity product inputs for one flattened bit-table polynomial.
pub fn booleanity_table_sumcheck_inputs(bit_table: &[Fp128]) -> (r: (
    Vec<Vec<Fp128>>,
    Vec<Vec<Fp128>>,
))
    ensures
        tables_of(r.0@) == seq![residues(bit_table@)],
        tables_of(r.1@) == seq![less_one(residues(bit_table@))],
{
    let mut lefts: Vec<Vec<Fp128>> = Vec::with_capacity(1);
    let mut rights: Vec<Vec<Fp128>> = Vec::with_capacity(1);
    lefts.push(copy_table(bit_table));
    rights.push(subtract_one(bit_table));
    assert(tables_of(lefts@) =~= seq![residues(bit_table@)]);
    assert(tables_of(rights@) =~= seq![less_one(residues(bit_table@))]);
    (lefts, rights)
}

/// The Booleanity product of tables of bits is zero.
pub proof fn law_booleanity_product_of_bits(lefts: Seq<Seq<int>>, rights: Seq<Seq<int>>)
    requires
        lefts.len() == rights.len(),
        forall|j: int| 0 <= j < lefts.len() ==> #[trigger] rights[j] == less_one(lefts[j]),
        forall|j: int, i: int|
            0 <= j < lefts.len() && 0 <= i < lefts[j].len() ==> 0 <= #[trigger] lefts[j][i] < 2,
    ensures
        product_total(lefts, rights) == 0,
{
    let p = table_products(lefts, rights);
    assert forall|j: int| 0 <= j < p.len() implies p[j] == 0 by {
        assert(rights[j] == less_one(lefts[j]));
        let q = pointwise_times(lefts[j], rights[j]);
        assert forall|i: int| 0 <= i < q.len() implies q[i] == 0 by {
            let b = lefts[j][i];
            assert(0 <= lefts[j][i] < 2);
            lemma_modulus();
            lemma_residue_of_small(0);
            assert(b == 1 ==> less_one(lefts[j])[i] == 0);
            assert(0 * less_one(lefts[j])[i] == 0);
        }
        lemma_sum_zeros(q);
    }
    lemma_sum_zeros(p);
}

} // verus!
