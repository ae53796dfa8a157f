//! Bit tables of oracles and the masks that select their bits.

use vstd::arithmetic::power2::{lemma2_to64, lemma_pow2_adds, pow2};
use vstd::prelude::*;

use super::error::BatchedParityBridgeError;
use super::fp128::{
    congruent, lemma_congruent, lemma_congruent_to_residue, lemma_modulus, lemma_residue_of_small,
    residue, residues, Fp128,
};
use super::parity::{
    basis_products, bit_value, bit_values, selected_products, tally, BiniusScalar,
};
use super::tables::{
    all_congruent, first_powers, lemma_dot_congruent, lemma_reduced, multilinear_eq_evals, powers,
    reduced, table_product,
};
use crate::field::Ring;
use crate::ghash::{bit, lemma_bit_xor, mul_x, times_x_pow, B128};
use crate::multilinear::{
    block, block_evaluations, column_of, column_sums, dot, eq_table, evaluation,
    law_evaluation_by_blocks, lemma_sum_exchange, lemma_sum_scaled, lemma_sum_take, pointwise_times,
    row_sums, scaled, sum,
};
use crate::powers::is_power;

verus! {

/// The bits of an oracle, flattened: entry `128 * i + b` is bit `b` of element `i`.
pub open spec fn bit_table(oracle: Seq<B128>) -> Seq<int> {
    Seq::new(128 * oracle.len(), |m: int| bit_value(oracle[m / 128].val, m % 128))
}

/// The bits of a word.
pub open spec fn word_bits(word: u128) -> Seq<int> {
    Seq::new(128, |k: int| bit_value(word, k))
}

/// The sum of `alpha^k` over the set bits `k` of a word.
pub open spec fn mask_value(word: u128, alpha: int) -> int {
    dot(first_powers(alpha, 128), word_bits(word))
}

/// The mask over the flattened bit table: entry `128 * i + b` is the batched value of the product
/// of coefficient `i` and `x^b`.
pub open spec fn selected_mask(transparent: Seq<B128>, alpha: int) -> Seq<int> {
    Seq::new(128 * transparent.len(), |m: int| mask_value(basis_products(transparent)[m], alpha))
}

/// Returns the sum of the powers that belong to the set bits of a word.
fn selected_sum_mask_value(word: u128, alpha_powers: &[Fp128], Ghost(alpha): Ghost<int>) -> (r:
    Fp128)
    requires
        residues(alpha_powers@) == reduced(first_powers(alpha, 128)),
    ensures
        r@ == residue(mask_value(word, alpha)),
{
    let ghost terms = pointwise_times(first_powers(alpha, 128), word_bits(word));
    let mut acc: Fp128 = Fp128::from_u64(0);
    proof {
        lemma_modulus();
        lemma_residue_of_small(0);
        assert(residues(alpha_powers@).len() == alpha_powers@.len());
        assert(reduced(first_powers(alpha, 128)).len() == 128);
    }
    let mut k: usize = 0;
    while k < 128
        invariant
            k <= 128,
            alpha_powers@.len() == 128,
            residues(alpha_powers@) == reduced(first_powers(alpha, 128)),
            terms == pointwise_times(first_powers(alpha, 128), word_bits(word)),
            acc@ == residue(sum(terms.take(k as int))),
        decreases 128 - k,
    {
        proof {
            lemma_sum_take(terms, k as int);
        }
        if (word >> (k as u128)) & 1 == 1 {
            let power: Fp128 = alpha_powers[k];
            proof {
                let p = first_powers(alpha, 128)[k as int];
                assert(residues(alpha_powers@)[k as int] == reduced(first_powers(alpha, 128))[k as int]);
                lemma_congruent_to_residue(p);
                lemma_congruent_to_residue(sum(terms.take(k as int)));
                lemma_congruent(acc@, power@, sum(terms.take(k as int)), p);
                assert(terms[k as int] == p * 1);
            }
            acc = acc.add(power);
        } else {
            assert(terms[k as int] == 0) by {
                let p = first_powers(alpha, 128)[k as int];
                assert(p * 0 == 0) by (nonlinear_arith);
            }
        }
        k = k + 1;
    }
    assert(terms.take(k as int) =~= terms);
    acc
}

/// Returns the mask values of the products of one coefficient with all powers of `x`.
fn coefficient_masks(coefficient: BiniusScalar, alpha_powers: &[Fp128], Ghost(alpha): Ghost<int>) -> (r:
    Vec<Fp128>)
    requires
        residues(alpha_powers@) == reduced(first_powers(alpha, 128)),
    ensures
        r@.len() == 128,
        forall|b: int|
            0 <= b < 128 ==> (#[trigger] r@[b])@ == residue(
                mask_value(times_x_pow(coefficient.val, b as nat), alpha),
            ),
{
    let mut out: Vec<Fp128> = Vec::with_capacity(128);
    let mut power: u128 = coefficient.val;
    let mut b: usize = 0;
    while b < 128
        invariant
            b <= 128,
            residues(alpha_powers@) == reduced(first_powers(alpha, 128)),
            power == times_x_pow(coefficient.val, b as nat),
            out@.len() == b,
            forall|i: int|
                0 <= i < b ==> (#[trigger] out@[i])@ == residue(
                    mask_value(times_x_pow(coefficient.val, i as nat), alpha),
                ),
        decreases 128 - b,
    {
        out.push(selected_sum_mask_value(power, alpha_powers, Ghost(alpha)));
        power = mul_x(power);
        b = b + 1;
    }
    out
}

/// Construct one selected-bit mask over the flattened bit table.
pub fn batched_selected_sum_table_mask(transparent: &[BiniusScalar], alpha: Fp128) -> (r: Vec<
    Fp128,
>)
    requires
        128 * transparent@.len() <= usize::MAX,
    ensures
        residues(r@) == reduced(selected_mask(transparent@, alpha@)),
{
    let alpha_powers: Vec<Fp128> = powers(alpha, 128);
    let ghost mask = selected_mask(transparent@, alpha@);
    let mut out: Vec<Fp128> = Vec::with_capacity(128 * transparent.len());
    let mut i: usize = 0;
    while i < transparent.len()
        invariant
            i <= transparent@.len(),
            residues(alpha_powers@) == reduced(first_powers(alpha@, 128)),
            mask == selected_mask(transparent@, alpha@),
            out@.len() == 128 * i,
            forall|m: int| 0 <= m < 128 * i ==> (#[trigger] out@[m])@ == residue(mask[m]),
        decreases transparent@.len() - i,
    {
        let mut masks: Vec<Fp128> = coefficient_masks(
            transparent[i],
            alpha_powers.as_slice(),
            Ghost(alpha@),
        );
        let ghost before = out@;
        let ghost row = masks@;
        out.append(&mut masks);
        proof {
            assert forall|m: int| 0 <= m < 128 * (i + 1) implies (#[trigger] out@[m])@ == residue(
                mask[m],
            ) by {
                if m < 128 * i {
                    assert(out@[m] == before[m]);
                } else {
                    let b = m - 128 * i;
                    assert(out@[m] == row[b]);
                    assert(m / 128 == i && m % 128 == b);
                }
            }
        }
        i = i + 1;
    }
    assert(residues(out@) =~= reduced(mask));
    out
}

/// Construct the selected-bit masks by input bit: entry `i` of mask `b` belongs to coefficient `i`
/// and `x^b`.
pub fn batched_selected_sum_masks(transparent: &[BiniusScalar], alpha: Fp128) -> (r: Vec<
    Vec<Fp128>,
>)
    ensures
        r@.len() == 128,
        forall|b: int| 0 <= b < 128 ==> (#[trigger] r@[b])@.len() == transparent@.len(),
        forall|b: int, i: int|
            0 <= b < 128 && 0 <= i < transparent@.len() ==> (#[trigger] r@[b]@[i])@ == residue(
                mask_value(times_x_pow(transparent@[i].val, b as nat), alpha@),
            ),
{
    let alpha_powers: Vec<Fp128> = powers(alpha, 128);
    let n: usize = transparent.len();
    let mut words: Vec<u128> = Vec::with_capacity(n);
    let mut i: usize = 0;
    while i < n
        invariant
            i <= n,
            n == transparent@.len(),
            words@.len() == i,
            forall|j: int| 0 <= j < i ==> #[trigger] words@[j] == transparent@[j].val,
        decreases n - i,
    {
        words.push(transparent[i].val);
        i = i + 1;
    }
    let mut masks: Vec<Vec<Fp128>> = Vec::with_capacity(128);
    let mut b: usize = 0;
    while b < 128
        invariant
            b <= 128,
            n == transparent@.len(),
            residues(alpha_powers@) == reduced(first_powers(alpha@, 128)),
            words@.len() == n,
            forall|j: int|
                0 <= j < n ==> #[trigger] words@[j] == times_x_pow(transparent@[j].val, b as nat),
            masks@.len() == b,
            forall|c: int| 0 <= c < b ==> (#[trigger] masks@[c])@.len() == n,
            forall|c: int, j: int|
                0 <= c < b && 0 <= j < n ==> (#[trigger] masks@[c]@[j])@ == residue(
                    mask_value(times_x_pow(transparent@[j].val, c as nat), alpha@),
                ),
        decreases 128 - b,
    {
        let mut mask: Vec<Fp128> = Vec::with_capacity(n);
        let mut next: Vec<u128> = Vec::with_capacity(n);
        let mut i: usize = 0;
        while i < n
            invariant
                i <= n,
                n == transparent@.len(),
                residues(alpha_powers@) == reduced(first_powers(alpha@, 128)),
                words@.len() == n,
                forall|j: int|
                    0 <= j < n ==> #[trigger] words@[j] == times_x_pow(
                        transparent@[j].val,
                        b as nat,
                    ),
                mask@.len() == i,
                next@.len() == i,
                forall|j: int|
                    0 <= j < i ==> (#[trigger] mask@[j])@ == residue(
                        mask_value(times_x_pow(transparent@[j].val, b as nat), alpha@),
                    ),
                forall|j: int|
                    0 <= j < i ==> #[trigger] next@[j] == times_x_pow(
                        transparent@[j].val,
                        (b + 1) as nat,
                    ),
            decreases n - i,
        {
            assert(words@[i as int] == times_x_pow(transparent@[i as int].val, b as nat));
            mask.push(selected_sum_mask_value(words[i], alpha_powers.as_slice(), Ghost(alpha@)));
            next.push(mul_x(words[i]));
            i = i + 1;
        }
        words = next;
        masks.push(mask);
        b = b + 1;
    }
    masks
}

/// Evaluate the flattened selected-bit mask without materializing its full table.
pub fn evaluate_batched_selected_sum_table_mask(
    transparent: &[BiniusScalar],
    alpha: Fp128,
    point: &[Fp128],
) -> (r: Result<Fp128, BatchedParityBridgeError>)
    ensures
        match r {
            Ok(e) => {
                &&& point@.len() >= 7
                &&& transparent@.len() == pow2((point@.len() - 7) as nat)
                &&& e@ == residue(
                    evaluation(selected_mask(transparent@, alpha@), residues(point@)),
                )
            },
            Err(e) => e == BatchedParityBridgeError::InvalidSumcheck && (point@.len() < 7
                || transparent@.len() != pow2((point@.len() - 7) as nat)),
        },
{
    if point.len() < 7 {
        return Err(BatchedParityBridgeError::InvalidSumcheck);
    }
    let log_transparent_len: usize = point.len() - 7;
    if !is_power(transparent.len(), log_transparent_len) {
        return Err(BatchedParityBridgeError::InvalidSumcheck);
    }
    assert(transparent.len() <= usize::MAX);
    let (low, high) = split_point(point);
    proof {
        lemma2_to64();
    }
    let bit_eq_evals: Vec<Fp128> = multilinear_eq_evals(low.as_slice());
    let transparent_eq_evals: Vec<Fp128> = multilinear_eq_evals(high.as_slice());
    let alpha_powers: Vec<Fp128> = powers(alpha, 128);
    let ghost mask = selected_mask(transparent@, alpha@);
    let ghost blocks = block_evaluations(mask, residues(low@), transparent@.len());
    let mut values: Vec<Fp128> = Vec::with_capacity(transparent.len());
    let mut i: usize = 0;
    while i < transparent.len()
        invariant
            i <= transparent@.len(),
            residues(alpha_powers@) == reduced(first_powers(alpha@, 128)),
            residues(bit_eq_evals@) == reduced(eq_table(residues(low@))),
            bit_eq_evals@.len() == 128,
            low@.len() == 7,
            pow2(7) == 128,
            mask == selected_mask(transparent@, alpha@),
            blocks == block_evaluations(mask, residues(low@), transparent@.len()),
            values@.len() == i,
            forall|j: int| 0 <= j < i ==> (#[trigger] values@[j])@ == residue(blocks[j]),
        decreases transparent@.len() - i,
    {
        let masks: Vec<Fp128> = coefficient_masks(
            transparent[i],
            alpha_powers.as_slice(),
            Ghost(alpha@),
        );
        let value: Fp128 = table_product(masks.as_slice(), bit_eq_evals.as_slice());
        proof {
            let row = block(mask, 128, i as int);
            assert forall|b: int| 0 <= b < 128 implies #[trigger] congruent(
                residues(masks@)[b],
                row[b],
            ) by {
                let m = 128 * i + b;
                assert(m / 128 == i && m % 128 == b);
                assert(masks@[b]@ == residue(row[b]));
                lemma_congruent_to_residue(row[b]);
            }
            lemma_reduced(eq_table(residues(low@)));
            lemma_dot_congruent(
                residues(masks@),
                residues(bit_eq_evals@),
                row,
                eq_table(residues(low@)),
            );
        }
        values.push(value);
        i = i + 1;
    }
    let eval: Fp128 = table_product(values.as_slice(), transparent_eq_evals.as_slice());
    proof {
        lemma_reduced(eq_table(residues(high@)));
        assert forall|j: int| 0 <= j < blocks.len() implies #[trigger] congruent(
            residues(values@)[j],
            blocks[j],
        ) by {
            assert(values@[j]@ == residue(blocks[j]));
            lemma_congruent_to_residue(blocks[j]);
        }
        lemma_dot_congruent(
            residues(values@),
            residues(transparent_eq_evals@),
            blocks,
            eq_table(residues(high@)),
        );
        lemma_pow2_adds(7, high@.len());
        law_evaluation_by_blocks(mask, residues(low@), residues(high@));
        assert(residues(low@) + residues(high@) =~= residues(point@));
    }
    Ok(eval)
}

/// Splits a point after seven coordinates.
fn split_point(point: &[Fp128]) -> (r: (Vec<Fp128>, Vec<Fp128>))
    requires
        point@.len() >= 7,
    ensures
        r.0@ == point@.take(7),
        r.1@ == point@.skip(7),
{
    let mut low: Vec<Fp128> = Vec::with_capacity(7);
    let mut high: Vec<Fp128> = Vec::with_capacity(point.len() - 7);
    let mut i: usize = 0;
    while i < point.len()
        invariant
            i <= point@.len(),
            low@ == point@.take(if i < 7 {
                i as int
            } else {
                7
            }),
            i >= 7 ==> high@ == point@.subrange(7, i as int),
            i < 7 ==> high@.len() == 0,
            point@.len() >= 7,
        decreases point@.len() - i,
    {
        if i < 7 {
            low.push(point[i]);
        } else {
            high.push(point[i]);
        }
        i = i + 1;
        proof {
            if i <= 7 {
                assert(low@ =~= point@.take(i as int));
            } else {
                assert(high@ =~= point@.subrange(7, i as int));
            }
            if i == 7 {
                assert(high@ =~= point@.subrange(7, 7));
            }
        }
    }
    assert(point@.subrange(7, i as int) =~= point@.skip(7));
    (low, high)
}

/// Integers as a sequence.
pub open spec fn counts_of(values: Seq<u64>) -> Seq<int> {
    Seq::new(values.len(), |k: int| values[k] as int)
}

/// Compute `sum_k alpha^k values[k]`.
pub fn batched_u64_sum(values: &[u64; 128], alpha: Fp128) -> (r: Fp128)
    ensures
        r@ == residue(dot(first_powers(alpha@, 128), counts_of(values@))),
{
    let alpha_powers: Vec<Fp128> = powers(alpha, 128);
    let mut scalars: Vec<Fp128> = Vec::with_capacity(128);
    let mut k: usize = 0;
    while k < 128
        invariant
            k <= 128,
            scalars@.len() == k,
            forall|j: int| 0 <= j < k ==> (#[trigger] scalars@[j])@ == values@[j],
        decreases 128 - k,
    {
        scalars.push(Fp128::from_u64(values[k]));
        k = k + 1;
    }
    proof {
        assert(residues(scalars@) =~= counts_of(values@));
        lemma_reduced(first_powers(alpha@, 128));
        assert(residues(alpha_powers@).len() == reduced(first_powers(alpha@, 128)).len());
        assert(all_congruent(counts_of(values@), counts_of(values@)));
        lemma_dot_congruent(
            residues(alpha_powers@),
            counts_of(values@),
            first_powers(alpha@, 128),
            counts_of(values@),
        );
    }
    table_product(alpha_powers.as_slice(), scalars.as_slice())
}

/// Evaluations of the 128 bit-slice multilinears for one oracle.
#[derive(Debug, Clone, PartialEq, Eq)]
pub struct BitSliceOracle {
    /// `bit_polys[j][i]` is bit `j` of oracle element `i`.
    pub bit_polys: Vec<Vec<Fp128>>,
}

impl BitSliceOracle {
    /// Whether there are 128 slices of the same length.
    pub open spec fn is_valid(&self) -> bool {
        &&& self.bit_polys@.len() == 128
        &&& forall|b: int|
            0 <= b < 128 ==> (#[trigger] self.bit_polys@[b])@.len() == self.bit_polys@[0]@.len()
    }

    /// Whether the slices hold the bits of an oracle.
    pub open spec fn holds(&self, oracle: Seq<B128>) -> bool {
        &&& self.is_valid()
        &&& self.bit_polys@[0]@.len() == oracle.len()
        &&& forall|b: int, i: int|
            0 <= b < 128 && 0 <= i < oracle.len() ==> (#[trigger] self.bit_polys@[b]@[i])@
                == bit_value(oracle[i].val, b)
    }

    /// The slices, flattened with the bit index as the low part of the index.
    pub open spec fn flattened(&self) -> Seq<Fp128> {
        Seq::new(
            128 * self.bit_polys@[0]@.len(),
            |m: int| self.bit_polys@[m % 128]@[m / 128],
        )
    }

    /// Build bit-slice polynomial evaluation tables from oracle values.
    pub fn from_binius_oracle(oracle: &[BiniusScalar]) -> (r: Self)
        ensures
            r.holds(oracle@),
    {
        let mut bit_polys: Vec<Vec<Fp128>> = Vec::with_capacity(128);
        let n: usize = oracle.len();
        let mut b: usize = 0;
        while b < 128
            invariant
                b <= 128,
                n == oracle@.len(),
                bit_polys@.len() == b,
                forall|c: int| 0 <= c < b ==> (#[trigger] bit_polys@[c])@.len() == n,
                forall|c: int, i: int|
                    0 <= c < b && 0 <= i < n ==> (#[trigger] bit_polys@[c]@[i])@ == bit_value(
                        oracle@[i].val,
                        c,
                    ),
            decreases 128 - b,
        {
            let mut poly: Vec<Fp128> = Vec::with_capacity(n);
            let mut i: usize = 0;
            while i < n
                invariant
                    i <= n,
                    b < 128,
                    n == oracle@.len(),
                    poly@.len() == i,
                    forall|j: int|
                        0 <= j < i ==> (#[trigger] poly@[j])@ == bit_value(
                            oracle@[j].val,
                            b as int,
                        ),
                decreases n - i,
            {
                if (oracle[i].val >> (b as u128)) & 1 == 1 {
                    poly.push(Fp128::from_u64(1));
                } else {
                    poly.push(Fp128::from_u64(0));
                }
                i = i + 1;
            }
            bit_polys.push(poly);
            b = b + 1;
        }
        BitSliceOracle { bit_polys }
    }

    /// Number of oracle elements.
    pub fn len(&self) -> (r: usize)
        ensures
            r == if self.bit_polys@.len() == 0 {
                0
            } else {
                self.bit_polys@[0]@.len()
            },
    {
        if self.bit_polys.len() == 0 {
            0
        } else {
            self.bit_polys[0].len()
        }
    }

    /// Returns true when there are no oracle elements.
    pub fn is_empty(&self) -> (r: bool)
        ensures
            r == (self.bit_polys@.len() == 0 || self.bit_polys@[0]@.len() == 0),
    {
        self.len() == 0
    }

    /// Flatten to one bit table with index `(oracle_index, bit_index)`.
    pub fn to_bit_table_evals(&self) -> (r: Vec<Fp128>)
        requires
            self.is_valid(),
            128 * self.bit_polys@[0]@.len() <= usize::MAX,
        ensures
            r@ == self.flattened(),
            forall|oracle: Seq<B128>| #[trigger]
                self.holds(oracle) ==> residues(r@) == bit_table(oracle),
    {
        let n: usize = self.len();
        let mut evals: Vec<Fp128> = Vec::with_capacity(128 * n);
        let mut i: usize = 0;
        while i < n
            invariant
                i <= n,
                self.is_valid(),
                n == self.bit_polys@[0]@.len(),
                evals@.len() == 128 * i,
                forall|m: int|
                    0 <= m < 128 * i ==> #[trigger] evals@[m] == self.bit_polys@[m % 128]@[m / 128],
            decreases n - i,
        {
            let mut b: usize = 0;
            while b < 128
                invariant
                    b <= 128,
                    i < n,
                    self.is_valid(),
                    n == self.bit_polys@[0]@.len(),
                    evals@.len() == 128 * i + b,
                    forall|m: int|
                        0 <= m < 128 * i + b ==> #[trigger] evals@[m] == self.bit_polys@[m
                            % 128]@[m / 128],
                decreases 128 - b,
            {
                assert(self.bit_polys@[b as int]@.len() == n);
                assert((128 * i + b) % 128 == b && (128 * i + b) / 128 == i as int);
                evals.push(self.bit_polys[b][i]);
                b = b + 1;
            }
            i = i + 1;
        }
        assert(evals@ =~= self.flattened());
        proof {
            assert forall|oracle: Seq<B128>| #[trigger] self.holds(oracle) implies residues(evals@)
                == bit_table(oracle) by {
                assert forall|m: int| 0 <= m < 128 * n implies residues(evals@)[m] == bit_table(
                    oracle,
                )[m] by {
                    assert(self.bit_polys@[m % 128]@[m / 128]@ == bit_value(
                        oracle[m / 128].val,
                        m % 128,
                    ));
                }
                assert(residues(evals@) =~= bit_table(oracle));
            }
        }
        evals
    }

    /// The one-hot positions of the bit table: for each entry, whether it is the bit zero or not.
    ///
    /// Reading the table with one more variable in front that selects `(1 - bit, bit)`, these are
    /// the positions of the ones.
    pub fn to_onehot_bit_table_indices(&self) -> (r: Vec<u8>)
        requires
            self.is_valid(),
            128 * self.bit_polys@[0]@.len() <= usize::MAX,
        ensures
            r@.len() == 128 * self.bit_polys@[0]@.len(),
            forall|m: int|
                0 <= m < r@.len() ==> #[trigger] r@[m] == (if self.flattened()[m]@ == 0 {
                    0u8
                } else {
                    1u8
                }),
    {
        let evals: Vec<Fp128> = self.to_bit_table_evals();
        let zero: Fp128 = Fp128::from_u64(0);
        let mut out: Vec<u8> = Vec::with_capacity(evals.len());
        let mut m: usize = 0;
        while m < evals.len()
            invariant
                m <= evals@.len(),
                zero@ == 0,
                evals@ == self.flattened(),
                out@.len() == m,
                forall|j: int|
                    0 <= j < m ==> #[trigger] out@[j] == (if self.flattened()[j]@ == 0 {
                        0u8
                    } else {
                        1u8
                    }),
            decreases evals@.len() - m,
        {
            if evals[m] == zero {
                out.push(0);
            } else {
                out.push(1);
            }
            m = m + 1;
        }
        out
    }
}

/// The batched selected-bit sums are the inner product of the bit table and the mask.
pub proof fn law_selected_sum(
    oracle: Seq<B128>,
    transparent: Seq<B128>,
    alpha: int,
    sums: Seq<u64>,
)
    requires
        oracle.len() == transparent.len(),
        sums.len() == 128,
        forall|k: int|
            0 <= k < 128 ==> #[trigger] sums[k] == tally(
                selected_products(oracle, transparent),
                k,
            ),
    ensures
        dot(bit_table(oracle), selected_mask(transparent, alpha)) == dot(
            first_powers(alpha, 128),
            counts_of(sums),
        ),
{
    let n = 128 * transparent.len();
    let bits = bit_table(oracle);
    let words = basis_products(transparent);
    let ps = first_powers(alpha, 128);
    let table = Seq::new(n, |m: int| scaled(bits[m], pointwise_times(ps, word_bits(words[m]))));
    assert forall|m: int| 0 <= m < n implies (#[trigger] table[m]).len() == 128 by {}
    lemma_sum_exchange(table, 128);
    assert(row_sums(table) =~= pointwise_times(bits, selected_mask(transparent, alpha))) by {
        assert forall|m: int| 0 <= m < n implies row_sums(table)[m] == bits[m] * selected_mask(
            transparent,
            alpha,
        )[m] by {
            lemma_sum_scaled(bits[m], pointwise_times(ps, word_bits(words[m])));
        }
    }
    assert(column_sums(table, 128) =~= pointwise_times(ps, counts_of(sums))) by {
        assert forall|k: int| 0 <= k < 128 implies column_sums(table, 128)[k] == ps[k]
            * counts_of(sums)[k] by {
            let selected = selected_products(oracle, transparent);
            let col = column_of(table, k);
            let chosen = bit_values(selected, k);
            assert(col =~= scaled(ps[k], chosen)) by {
                assert forall|m: int| 0 <= m < n implies col[m] == ps[k] * chosen[m] by {
                    lemma_bit_xor(0, 0, k);
                    let (a, p, c) = (bits[m], ps[k], bit_value(words[m], k));
                    assert(chosen[m] == a * c) by {
                        if bit(oracle[m / 128].val, m % 128) {
                            assert(1 * c == c);
                        } else {
                            assert(0 * c == 0);
                        }
                    }
                    assert(a * (p * c) == p * (a * c)) by (nonlinear_arith);
                }
            }
            lemma_sum_scaled(ps[k], chosen);
            assert(sums[k] == tally(selected, k));
        }
    }
}

} // verus!
