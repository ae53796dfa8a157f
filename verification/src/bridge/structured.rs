//! Transparent relations with a structure that makes their tables cheap to evaluate.

use vstd::arithmetic::power2::{lemma2_to64, lemma_pow2_adds, pow2};
use vstd::prelude::*;

use super::error::BatchedParityBridgeError;
use super::fp128::{residue, residues, Fp128};
use super::masks::{evaluate_batched_selected_sum_table_mask, selected_mask};
use super::parity::{
    basis_products, bit_values, count_word, holds_counts, lemma_no_words, reports_overflow, tally,
    BiniusScalar,
};
use crate::field::Ring;
use crate::ghash::{mul_x, times_x_pow, B128};
use crate::multilinear::{
    block, block_evaluations, block_sums, eq_table, evaluation, law_eq_table_partitions_unity,
    law_evaluation_by_blocks, lemma_eq_table_len, lemma_sum_by_blocks, lemma_sum_scaled,
    pointwise_times, scaled, sum,
};
use crate::powers::lemma_pow2_monotone;

verus! {

/// Verifier-owned structured transparent relation.
///
/// The methods replace scans of the full transparent table, so an implementation must derive every
/// value from public state.
pub trait StructuredTransparentRelation {
    /// The number of variables of the relation.
    spec fn variables(&self) -> nat;

    /// The table of coefficients that the relation stands for.
    spec fn table(&self) -> Seq<B128>;

    /// Log2 of the number of coefficients in the relation.
    fn log_len(&self) -> (r: usize)
        ensures
            r == self.variables(),
    ;

    /// Evaluates the multilinear extension of the transparent relation over the binary field.
    fn eval_binius(&self, point: &[BiniusScalar]) -> (r: Result<
        BiniusScalar,
        BatchedParityBridgeError,
    >)
        ensures
            r matches Ok(e) ==> point@.len() == self.variables() && e == evaluation(
                self.table(),
                point@,
            ),
    ;

    /// Public upper bounds for each selected-bit parity sum.
    fn parity_sum_bounds(&self) -> (r: Result<[u64; 128], BatchedParityBridgeError>)
        ensures
            r matches Ok(bounds) ==> holds_counts(bounds@, basis_products(self.table()), 1),
    ;

    /// Evaluates the multilinear extension of the batched selected-bit mask over the prime field.
    fn eval_selected_mask(&self, alpha: Fp128, point: &[Fp128]) -> (r: Result<
        Fp128,
        BatchedParityBridgeError,
    >)
        ensures
            r matches Ok(e) ==> point@.len() == self.variables() + 7 && e@ == residue(
                evaluation(selected_mask(self.table(), alpha@), residues(point@)),
            ),
    ;
}

/// Structured relation for a constant transparent table.
#[derive(Debug, Clone, Copy, PartialEq, Eq)]
pub struct ConstantTransparentRelation {
    log_len: usize,
    coefficient: BiniusScalar,
}

/// The same value `n` times.
pub open spec fn repeated<A>(value: A, n: nat) -> Seq<A> {
    Seq::new(n, |i: int| value)
}

impl ConstantTransparentRelation {
    /// The coefficient that fills the table.
    pub closed spec fn value(&self) -> B128 {
        self.coefficient
    }

    /// Creates a relation with `2^log_len` copies of `coefficient`.
    pub fn new(log_len: usize, coefficient: BiniusScalar) -> (r: Self)
        ensures
            r.variables() == log_len,
            r.value() == coefficient,
    {
        ConstantTransparentRelation { log_len, coefficient }
    }
}

/// The multilinear extension of a constant table is constant.
pub proof fn law_constant_evaluation<F: Ring>(value: F, point: Seq<F>)
    ensures
        evaluation(repeated(value, pow2(point.len())), point) == value,
{
    let e = eq_table(point);
    lemma_eq_table_len(point);
    assert(pointwise_times(repeated(value, pow2(point.len())), e) =~= scaled(value, e));
    lemma_sum_scaled(value, e);
    law_eq_table_partitions_unity(point);
    F::law_times_one(value);
}

/// The sum of a repeated integer.
proof fn lemma_sum_repeated(value: int, n: nat)
    ensures
        sum(repeated(value, n)) == n * value,
    decreases n,
{
    if n > 0 {
        lemma_sum_repeated(value, (n - 1) as nat);
        assert(repeated(value, n).drop_last() =~= repeated(value, (n - 1) as nat));
        assert(n * value == (n - 1) * value + value) by (nonlinear_arith);
    } else {
        assert(0 * value == 0);
    }
}

/// The counts of a constant table are multiples of the counts of one coefficient.
pub proof fn law_constant_counts(value: B128, n: nat, k: int)
    ensures
        tally(basis_products(repeated(value, n)), k) == n * tally(basis_products(seq![value]), k),
{
    let all = bit_values(basis_products(repeated(value, n)), k);
    let one = bit_values(basis_products(seq![value]), k);
    lemma_sum_by_blocks(all, 128, n);
    assert(block_sums(all, 128, n) =~= repeated(sum(one), n)) by {
        assert forall|i: int| 0 <= i < n implies block_sums(all, 128, n)[i] == sum(one) by {
            assert forall|b: int| 0 <= b < 128 implies block(all, 128, i)[b] == one[b] by {
                let m = 128 * i + b;
                assert(m / 128 == i && m % 128 == b && b / 128 == 0 && b % 128 == b);
            }
            assert(block(all, 128, i) =~= one);
        }
    }
    lemma_sum_repeated(sum(one), n);
}

/// The multilinear extension of the mask of a constant table depends on the first seven
/// coordinates alone.
pub proof fn law_constant_mask(value: B128, alpha: int, low: Seq<int>, high: Seq<int>)
    requires
        low.len() == 7,
    ensures
        evaluation(selected_mask(repeated(value, pow2(high.len())), alpha), low + high)
            == evaluation(selected_mask(seq![value], alpha), low),
{
    let n = pow2(high.len());
    let mask = selected_mask(repeated(value, n), alpha);
    let one = selected_mask(seq![value], alpha);
    lemma2_to64();
    lemma_pow2_adds(7, high.len());
    law_evaluation_by_blocks(mask, low, high);
    let v = evaluation(one, low);
    assert(block_evaluations(mask, low, n) =~= repeated(v, n)) by {
        assert forall|i: int| 0 <= i < n implies block_evaluations(mask, low, n)[i] == v by {
            assert forall|b: int| 0 <= b < 128 implies block(mask, 128, i)[b] == one[b] by {
                let m = 128 * i + b;
                assert(m / 128 == i && m % 128 == b && b / 128 == 0 && b % 128 == b);
            }
            assert(block(mask, 128, i) =~= one);
        }
    }
    law_constant_evaluation(v, high);
}

impl StructuredTransparentRelation for ConstantTransparentRelation {
    closed spec fn variables(&self) -> nat {
        self.log_len as nat
    }

    open spec fn table(&self) -> Seq<B128> {
        repeated(self.value(), pow2(self.variables()))
    }

    fn log_len(&self) -> (r: usize) {
        self.log_len
    }

    fn eval_binius(&self, point: &[BiniusScalar]) -> (r: Result<
        BiniusScalar,
        BatchedParityBridgeError,
    >)
        ensures
            match r {
                Ok(e) => point@.len() == self.variables() && e == self.value(),
                Err(e) => point@.len() != self.variables() && e
                    == BatchedParityBridgeError::InvalidSumcheck,
            },
    {
        if point.len() != self.log_len {
            return Err(BatchedParityBridgeError::InvalidSumcheck);
        }
        proof {
            law_constant_evaluation(self.coefficient, point@);
        }
        Ok(self.coefficient)
    }

    fn parity_sum_bounds(&self) -> (r: Result<[u64; 128], BatchedParityBridgeError>)
        ensures
            match r {
                Ok(_) => self.variables() < 64,
                Err(e) => if self.variables() >= 64 {
                    e == BatchedParityBridgeError::InvalidSumcheck
                } else {
                    reports_overflow(
                        e,
                        basis_products(seq![self.value()]),
                        pow2(self.variables()) as int,
                    )
                },
            },
    {
        if self.log_len >= 64 {
            return Err(BatchedParityBridgeError::InvalidSumcheck);
        }
        let count: u64 = small_power(self.log_len);
        let ghost words = basis_products(seq![self.coefficient]);
        let mut bounds: [u64; 128] = [0;128];
        proof {
            lemma_no_words(words, bounds@, count as int);
        }
        let mut power: u128 = self.coefficient.val;
        let mut b: usize = 0;
        while b < 128
            invariant
                b <= 128,
                count == pow2(self.log_len as nat),
                words == basis_products(seq![self.coefficient]),
                holds_counts(bounds@, words.take(b as int), count as int),
                power == times_x_pow(self.coefficient.val, b as nat),
                self.log_len < 64,
            decreases 128 - b,
        {
            proof {
                assert(b as int / 128 == 0 && b as int % 128 == b);
                assert(words[b as int] == power);
            }
            match count_word(&mut bounds, power, count, Ghost(words), Ghost(b as int)) {
                Ok(_) => {},
                Err(e) => {
                    return Err(e);
                },
            }
            power = mul_x(power);
            b = b + 1;
        }
        proof {
            assert(words.take(128) =~= words);
            assert forall|k: int| 0 <= k < 128 implies #[trigger] bounds@[k] == 1 * tally(
                basis_products(self.table()),
                k,
            ) by {
                law_constant_counts(self.coefficient, pow2(self.log_len as nat), k);
                assert(bounds@[k] == count * tally(words, k));
            }
        }
        Ok(bounds)
    }

    fn eval_selected_mask(&self, alpha: Fp128, point: &[Fp128]) -> (r: Result<
        Fp128,
        BatchedParityBridgeError,
    >)
        ensures
            match r {
                Ok(_) => point@.len() == self.variables() + 7,
                Err(e) => point@.len() != self.variables() + 7 && e
                    == BatchedParityBridgeError::InvalidSumcheck,
            },
    {
        if point.len() < 7 || point.len() - 7 != self.log_len {
            return Err(BatchedParityBridgeError::InvalidSumcheck);
        }
        let mut low: Vec<Fp128> = Vec::with_capacity(7);
        let mut i: usize = 0;
        while i < 7
            invariant
                i <= 7,
                point@.len() >= 7,
                low@ == point@.take(i as int),
            decreases 7 - i,
        {
            low.push(point[i]);
            i = i + 1;
        }
        let coefficients: [B128; 1] = [self.coefficient];
        proof {
            lemma2_to64();
            assert(coefficients@ =~= seq![self.coefficient]);
            let high = residues(point@).skip(7);
            assert(residues(low@) + high =~= residues(point@));
            law_constant_mask(self.coefficient, alpha@, residues(low@), high);
        }
        evaluate_batched_selected_sum_table_mask(coefficients.as_slice(), alpha, low.as_slice())
    }
}

/// Returns `2^n`.
fn small_power(n: usize) -> (r: u64)
    requires
        n < 64,
    ensures
        r == pow2(n as nat),
{
    let mut out: u64 = 1;
    let mut k: usize = 0;
    proof {
        lemma2_to64();
    }
    while k < n
        invariant
            k <= n,
            n < 64,
            out == pow2(k as nat),
        decreases n - k,
    {
        proof {
            vstd::arithmetic::power2::lemma_pow2_unfold((k + 1) as nat);
            lemma_pow2_monotone((k + 1) as nat, 63);
            vstd::arithmetic::power2::lemma2_to64_rest();
        }
        out = 2 * out;
        k = k + 1;
    }
    out
}

} // verus!
