//! Rotations of lanes, bit-index weights and round constants as field values.

use vstd::arithmetic::power2::{lemma2_to64, lemma_pow2_unfold, pow2};
use vstd::prelude::*;

use super::trace::{bit_scalar, lane_bits, rotated_left, scalar_bit, RC};
use crate::field::{
    inverse_or_zero, lemma_cancel, lemma_inverse, lemma_inverse_is_unique, lemma_no_zero_divisors,
    lemma_one_times, lemma_times_zero, lemma_zero_plus, BinaryField, Field,
};
use crate::powers::power_of_two;
use crate::multilinear::{
    block, block_evaluations, dot, eq_ind_partial_eval, eq_table, evaluation,
    law_eq_table_partitions_unity, law_evaluation_by_blocks, lemma_eq_table_len,
    lemma_sum_rotated, lemma_sum_scaled, lemma_sum_take, lemma_sum_zeros, pointwise_times, rotated,
    scaled, sum,
};
use crate::words::word_bit;

verus! {

/// The number of variables that index a bit within a lane.
pub const LOG_BIT_INDEX_VARS: usize = 6;

/// The number of bits of a lane.
pub const BIT_INDEX_SIZE: usize = 64;

/// The bits of a word as field elements.
pub open spec fn word_scalars<F: Field>(word: u64) -> Seq<F> {
    Seq::new(64, |b: int| bit_scalar(word, b))
}

/// Compute the 64-entry rotation predicate vector for a fixed `alpha` and offset `k`.
///
/// Entry `c` equals `rot_k(alpha, c)`, the multilinear extension of the indicator
/// `1[<alpha> = <c> + k mod 64]`.
pub fn rot_k_eq_vector<F: Field>(alpha_bits: &[F; 6], k: u32) -> (r: [F; 64])
    ensures
        eq_table(alpha_bits@).len() == 64,
        forall|c: int| 0 <= c < 64 ==> #[trigger] r[c] == eq_table(alpha_bits@)[(c + k) % 64],
{
    proof {
        lemma2_to64();
        assert(usize::MAX >= 64);
    }
    let eq_vector = eq_ind_partial_eval(alpha_bits.as_slice());
    let shift: usize = (k % 64) as usize;
    let mut out: [F; 64] = [F::zero();64];
    let mut c: usize = 0;
    while c < 64
        invariant
            c <= 64,
            shift == k % 64,
            eq_vector@.len() == 64,
            forall|d: int| 0 <= d < c ==> #[trigger] out[d] == eq_vector@[(d + k) % 64],
        decreases 64 - c,
    {
        assert((c + shift) % 64 == (c + k) % 64);
        out[c] = eq_vector[(c + shift) % 64];
        c = c + 1;
    }
    out
}

/// The product of `z - p` over the first `n` points `p` of the bit-index domain but point `skip`.
pub open spec fn vanishing_except<F: BinaryField>(z: F, skip: int, n: nat) -> F
    decreases n,
{
    if n == 0 {
        F::one_spec()
    } else if n - 1 == skip {
        vanishing_except(z, skip, (n - 1) as nat)
    } else {
        vanishing_except(z, skip, (n - 1) as nat).times(z.minus(F::subspace_point(n - 1)))
    }
}

/// The Lagrange basis polynomial of point `i` of the bit-index domain, evaluated at `z`.
pub open spec fn lagrange_weight<F: BinaryField>(z: F, i: int) -> F {
    vanishing_except(z, i, 64).times(
        inverse_or_zero(vanishing_except(F::subspace_point(i), i, 64)),
    )
}

/// The Lagrange basis of the bit-index domain, evaluated at `z`.
pub open spec fn bit_weights_at<F: BinaryField>(z: F) -> Seq<F> {
    Seq::new(64, |i: int| lagrange_weight(z, i))
}

fn product_except<F: BinaryField>(z: F, skip: usize) -> (r: F)
    ensures
        r == vanishing_except(z, skip as int, 64),
{
    let mut acc: F = F::one();
    let mut j: usize = 0;
    while j < 64
        invariant
            j <= 64,
            acc == vanishing_except(z, skip as int, j as nat),
        decreases 64 - j,
    {
        if j != skip {
            acc = acc.mul(z.sub(F::subspace_element(j)));
        }
        j = j + 1;
    }
    acc
}

/// The reciprocals of the Lagrange denominators of the bit-index domain.
pub fn lagrange_denominators<F: BinaryField>() -> (r: [F; 64])
    ensures
        forall|i: int|
            0 <= i < 64 ==> #[trigger] r[i] == inverse_or_zero(
                vanishing_except(F::subspace_point(i), i, 64),
            ),
{
    let mut out: [F; 64] = [F::zero();64];
    // the domain is a subspace, so that the denominators repeat
    let mut last: F = F::zero();
    let mut last_inverse: F = F::zero();
    let mut i: usize = 0;
    while i < 64
        invariant
            i <= 64,
            last_inverse == inverse_or_zero(last),
            forall|j: int|
                0 <= j < i ==> #[trigger] out[j] == inverse_or_zero(
                    vanishing_except(F::subspace_point(j), j, 64),
                ),
        decreases 64 - i,
    {
        let denominator: F = product_except(F::subspace_element(i), i);
        if !denominator.is_equal(last) {
            last = denominator;
            last_inverse = denominator.invert_or_zero();
            proof {
                if denominator != F::zero_spec() {
                    lemma_inverse_is_unique(denominator, last_inverse);
                }
            }
        }
        out[i] = last_inverse;
        i = i + 1;
    }
    out
}

/// Computes the Lagrange basis vector from the reciprocals of its denominators.
pub fn weights_with_denominators<F: BinaryField>(z: F, denominators: &[F; 64]) -> (r: [F; 64])
    requires
        forall|i: int|
            0 <= i < 64 ==> #[trigger] denominators[i] == inverse_or_zero(
                vanishing_except(F::subspace_point(i), i, 64),
            ),
    ensures
        r@ == bit_weights_at(z),
{
    let mut out: [F; 64] = [F::zero();64];
    let mut i: usize = 0;
    while i < 64
        invariant
            i <= 64,
            forall|j: int|
                0 <= j < 64 ==> #[trigger] denominators[j] == inverse_or_zero(
                    vanishing_except(F::subspace_point(j), j, 64),
                ),
            forall|j: int| 0 <= j < i ==> #[trigger] out[j] == lagrange_weight(z, j),
        decreases 64 - i,
    {
        out[i] = product_except(z, i).mul(denominators[i]);
        i = i + 1;
    }
    assert(out@ =~= bit_weights_at(z));
    out
}

/// Compute the 64-point Lagrange basis vector for the fixed bit-index challenge `z_bit`.
pub fn bit_lagrange_weights<F: BinaryField>(z_bit: F) -> (r: [F; 64])
    ensures
        r@ == bit_weights_at(z_bit),
{
    let denominators = lagrange_denominators();
    weights_with_denominators(z_bit, &denominators)
}

/// Compute the 64-point Lagrange basis vector for the rotated view at `z_bit`.
///
/// This matches the same orientation as [`rotate_lane_table`]: the returned weight at index `bit`
/// is the coefficient applied to the unrotated input bit at that index.
pub fn rotated_bit_lagrange_weights<F: BinaryField>(z_bit: F, rotation: u32) -> (r: [F; 64])
    ensures
        r@ == rotated(bit_weights_at(z_bit), rotation as int),
{
    let weights = bit_lagrange_weights(z_bit);
    rotate_bit_lagrange_weights(&weights, rotation)
}

/// Rotate precomputed bit-index Lagrange weights using the same orientation as
/// [`rotate_lane_table`].
pub fn rotate_bit_lagrange_weights<F: Field>(weights: &[F; 64], rotation: u32) -> (r: [F; 64])
    ensures
        r@ == rotated(weights@, rotation as int),
{
    let shift: usize = (rotation % 64) as usize;
    let mut out: [F; 64] = [F::zero();64];
    let mut bit: usize = 0;
    while bit < 64
        invariant
            bit <= 64,
            shift == rotation % 64,
            forall|b: int| 0 <= b < bit ==> #[trigger] out[b] == weights[(b + rotation) % 64],
        decreases 64 - bit,
    {
        assert((bit + shift) % 64 == (bit + rotation) % 64);
        out[bit] = weights[(bit + shift) % 64];
        bit = bit + 1;
    }
    assert(out@ =~= rotated(weights@, rotation as int));
    out
}

/// A lane table with the bits of each 64-entry block rotated by `k`.
pub open spec fn rotated_blocks<F>(lane: Seq<F>, k: int) -> Seq<F> {
    Seq::new(lane.len(), |i: int| lane[64 * (i / 64) + (i % 64 + 64 - k % 64) % 64])
}

/// Rotate a lane table in place by `k` bits within each 64-entry instance block.
pub fn permute_lane_table_inplace<F: Field>(lane: &mut Vec<F>, k: u32)
    requires
        exists|n: nat| old(lane)@.len() == pow2(n) && n >= 6,
    ensures
        final(lane)@ == rotated_blocks(old(lane)@, k as int),
{
    let rotated_lane = rotate_lane_table(lane.as_slice(), k);
    *lane = rotated_lane;
}

/// A power of two of at least six variables consists of whole blocks.
pub proof fn lemma_whole_blocks(n: nat)
    requires
        n >= 6,
    ensures
        pow2(n) % 64 == 0,
        pow2(n) == 64 * pow2((n - 6) as nat),
        pow2(n) >= 64,
    decreases n,
{
    lemma2_to64();
    if n > 6 {
        lemma_pow2_unfold(n);
        lemma_pow2_unfold((n - 6) as nat);
        lemma_whole_blocks((n - 1) as nat);
    }
}

/// Return a rotated copy of a lane table.
pub fn rotate_lane_table<F: Field>(lane: &[F], k: u32) -> (r: Vec<F>)
    requires
        exists|n: nat| lane@.len() == pow2(n) && n >= 6,
    ensures
        r@ == rotated_blocks(lane@, k as int),
{
    proof {
        let n = choose|n: nat| lane@.len() == pow2(n) && n >= 6;
        lemma_whole_blocks(n);
    }
    let shift: usize = (k % 64) as usize;
    let mut out: Vec<F> = Vec::with_capacity(lane.len());
    let ghost expected = rotated_blocks(lane@, k as int);
    let mut i: usize = 0;
    while i < lane.len()
        invariant
            i <= lane@.len(),
            lane@.len() % 64 == 0,
            shift == k % 64,
            expected == rotated_blocks(lane@, k as int),
            out@ == expected.take(i as int),
        decreases lane@.len() - i,
    {
        let start: usize = i - i % 64;
        let bit: usize = (i % 64 + 64 - shift) % 64;
        assert(start + bit < lane@.len());
        out.push(lane[start + bit]);
        i = i + 1;
    }
    assert(expected.take(i as int) =~= expected);
    out
}

/// Rotating a word moves bit `b - k` to position `b`.
pub proof fn lemma_rotated_bit(word: u64, k: u32, b: int)
    requires
        0 <= b < 64,
    ensures
        word_bit(rotated_left(word, k), b) == word_bit(word, (b + 64 - k % 64) % 64),
{
    let j = b as u64;
    let s = (k % 64) as u64;
    if s != 0 {
        let t = ((b + 64 - k % 64) % 64) as u64;
        assert((((word << s) | (word >> ((64 - s) as u64))) >> j) & 1 == (word >> t) & 1)
            by (bit_vector)
            requires
                0 < s < 64,
                j < 64,
                t == (j + 64 - s) % 64,
        ;
    }
}

/// Rotating the table of a lane gives the table of the rotated words.
pub proof fn law_rotated_table_is_table_of_rotated_words<F: Field>(
    states: Seq<Seq<u64>>,
    rotated_states: Seq<Seq<u64>>,
    lane: int,
    k: u32,
)
    requires
        states.len() == rotated_states.len(),
        forall|i: int|
            0 <= i < states.len() ==> #[trigger] rotated_states[i][lane] == rotated_left(
                states[i][lane],
                k,
            ),
    ensures
        rotated_blocks(lane_bits::<F>(states, lane), k as int) == lane_bits::<F>(
            rotated_states,
            lane,
        ),
{
    let table = lane_bits::<F>(states, lane);
    assert forall|i: int| 0 <= i < 64 * states.len() implies rotated_blocks(table, k as int)[i]
        == lane_bits::<F>(rotated_states, lane)[i] by {
        let b = (i % 64 + 64 - k as int % 64) % 64;
        let from = 64 * (i / 64) + b;
        assert(from / 64 == i / 64 && from % 64 == b);
        assert(rotated_states[i / 64][lane] == rotated_left(states[i / 64][lane], k));
        lemma_rotated_bit(states[i / 64][lane], k, i % 64);
    }
    assert(rotated_blocks(table, k as int) =~= lane_bits::<F>(rotated_states, lane));
}

/// Rotating the weights by `k` has the same effect as rotating the values by `k` the other way.
pub proof fn lemma_dot_rotated<F: Field>(values: Seq<F>, weights: Seq<F>, k: int)
    requires
        values.len() == 64,
        weights.len() == 64,
        0 <= k,
    ensures
        dot(values, rotated(weights, k)) == dot(rotated_blocks(values, k), weights),
{
    let s = k % 64;
    let products = pointwise_times(rotated_blocks(values, k), weights);
    assert forall|i: int| 0 <= i < 64 implies pointwise_times(values, rotated(weights, k))[i]
        == rotated(products, s)[i] by {
        let j = (i + s) % 64;
        assert((i + k) % 64 == j);
        assert((j + 64 - s) % 64 == i);
    }
    assert(pointwise_times(values, rotated(weights, k)) =~= rotated(products, s));
    lemma_sum_rotated(products, s);
}

/// The rotated weights applied to the bits of a word are the weights applied to the bits of the
/// rotated word.
pub proof fn law_rotated_weights_match_rotated_word<F: Field>(word: u64, weights: Seq<F>, k: u32)
    requires
        weights.len() == 64,
    ensures
        dot(word_scalars::<F>(word), rotated(weights, k as int)) == dot(
            word_scalars::<F>(rotated_left(word, k)),
            weights,
        ),
{
    lemma_dot_rotated(word_scalars::<F>(word), weights, k as int);
    assert forall|b: int| 0 <= b < 64 implies rotated_blocks(word_scalars::<F>(word), k as int)[b]
        == word_scalars::<F>(rotated_left(word, k))[b] by {
        lemma_rotated_bit(word, k, b);
    }
    assert(rotated_blocks(word_scalars::<F>(word), k as int) =~= word_scalars::<F>(
        rotated_left(word, k),
    ));
}

proof fn lemma_vanishing_at_other_point<F: BinaryField>(k: int, skip: int, n: nat)
    requires
        0 <= k < n,
        k != skip,
    ensures
        vanishing_except(F::subspace_point(k), skip, n) == F::zero_spec(),
    decreases n,
{
    let z = F::subspace_point(k);
    let rest = vanishing_except(z, skip, (n - 1) as nat);
    if n - 1 == k {
        F::law_minus(z, z);
        F::law_plus_commutes(z.minus(z), z);
        F::law_plus_zero(z);
        lemma_cancel(z, z.minus(z), F::zero_spec());
        lemma_times_zero(rest);
    } else {
        lemma_vanishing_at_other_point::<F>(k, skip, (n - 1) as nat);
        if n - 1 != skip {
            lemma_times_zero(z.minus(F::subspace_point(n - 1)));
        }
    }
}

proof fn lemma_vanishing_at_own_point<F: BinaryField>(k: int, n: nat)
    requires
        0 <= k < 64,
        n <= 64,
    ensures
        vanishing_except(F::subspace_point(k), k, n) != F::zero_spec(),
    decreases n,
{
    if n == 0 {
        F::law_zero_is_not_one();
    } else {
        let z = F::subspace_point(k);
        lemma_vanishing_at_own_point::<F>(k, (n - 1) as nat);
        if n - 1 != k {
            let p = F::subspace_point(n - 1);
            F::law_subspace_points_differ(k, n - 1);
            F::law_minus(z, p);
            lemma_zero_plus(p);
            if vanishing_except(z, k, n) == F::zero_spec() {
                lemma_no_zero_divisors(vanishing_except(z, k, (n - 1) as nat), z.minus(p));
            }
        }
    }
}

/// At a point of the bit-index domain the weights are the indicator of that point.
pub proof fn law_weights_at_domain_point<F: BinaryField>(k: int, i: int)
    requires
        0 <= k < 64,
        0 <= i < 64,
    ensures
        bit_weights_at(F::subspace_point(k))[i] == if i == k {
            F::one_spec()
        } else {
            F::zero_spec()
        },
{
    let denominator = vanishing_except(F::subspace_point(i), i, 64);
    lemma_vanishing_at_own_point::<F>(i, 64);
    lemma_inverse(denominator);
    if i != k {
        lemma_vanishing_at_other_point::<F>(k, i, 64);
        lemma_times_zero(inverse_or_zero(denominator));
    }
}

proof fn lemma_sum_of_single<F: Field>(s: Seq<F>, k: int)
    requires
        0 <= k < s.len(),
        forall|i: int| 0 <= i < s.len() && i != k ==> s[i] == F::zero_spec(),
    ensures
        sum(s) == s[k],
    decreases s.len(),
{
    let rest = s.drop_last();
    if s.len() - 1 == k {
        lemma_sum_zeros(rest);
        lemma_zero_plus(s[k]);
    } else {
        lemma_sum_of_single(rest, k);
        F::law_plus_zero(s[k]);
    }
}

/// At a point of the bit-index domain the weights pick the value at that point.
pub proof fn law_weights_select<F: BinaryField>(values: Seq<F>, k: int)
    requires
        values.len() == 64,
        0 <= k < 64,
    ensures
        dot(values, bit_weights_at(F::subspace_point(k))) == values[k],
{
    let w = bit_weights_at(F::subspace_point(k));
    let products = pointwise_times(values, w);
    assert forall|i: int| 0 <= i < 64 implies products[i] == if i == k {
        values[k]
    } else {
        F::zero_spec()
    } by {
        law_weights_at_domain_point::<F>(k, i);
        F::law_times_one(values[i]);
        lemma_times_zero(values[i]);
    }
    lemma_sum_of_single(products, k);
}

/// The bits of a round constant, repeated for each instance of a batch.
pub open spec fn round_constant_bits<F: Field>(round: int, instances: nat) -> Seq<F> {
    Seq::new(64 * instances, |i: int| bit_scalar(RC[round], i % 64))
}

/// Build the multilinear table for a Keccak round constant.
///
/// The table has 6 low bit-index variables and `log_h` high batch variables.
/// The value is constant across the batch dimension.
pub fn round_constant_table<F: Field>(round: usize, log_h: usize) -> (r: Vec<F>)
    requires
        round < 24,
        64 * pow2(log_h as nat) <= usize::MAX,
    ensures
        r@ == round_constant_bits::<F>(round as int, pow2(log_h as nat)),
{
    let instances: usize = power_of_two(log_h);
    let rc: u64 = RC[round];
    let ghost expected = round_constant_bits::<F>(round as int, pow2(log_h as nat));
    let mut out: Vec<F> = Vec::with_capacity(64 * instances);
    let mut i: usize = 0;
    while i < 64 * instances
        invariant
            round < 24,
            rc == RC[round as int],
            64 * instances <= usize::MAX,
            instances == pow2(log_h as nat),
            i <= 64 * instances,
            expected == round_constant_bits::<F>(round as int, pow2(log_h as nat)),
            out@ == expected.take(i as int),
        decreases 64 * instances - i,
    {
        let value: F = scalar_bit(rc, i % 64);
        out.push(value);
        i = i + 1;
    }
    assert(expected.take(i as int) =~= expected);
    out
}

/// Evaluate a round constant table at a scalar point without building the full table.
pub fn round_constant_eval<F: Field>(round: usize, point: &[F]) -> (r: F)
    requires
        round < 24,
        point@.len() >= 6,
    ensures
        r == dot(word_scalars::<F>(RC[round as int]), eq_table(point@.take(6))),
{
    let mut low: Vec<F> = Vec::with_capacity(6);
    let mut j: usize = 0;
    while j < 6
        invariant
            j <= 6,
            point@.len() >= 6,
            low@ == point@.take(j as int),
        decreases 6 - j,
    {
        low.push(point[j]);
        j = j + 1;
    }
    proof {
        lemma2_to64();
        assert(usize::MAX >= 64);
    }
    let eq_vector = eq_ind_partial_eval(low.as_slice());
    weighted_bits(RC[round], eq_vector.as_slice())
}

/// Returns the sum of the weights of the set bits of a word.
pub fn weighted_bits<F: Field>(word: u64, weights: &[F]) -> (r: F)
    requires
        weights@.len() == 64,
    ensures
        r == dot(word_scalars::<F>(word), weights@),
{
    let ghost terms = pointwise_times(word_scalars::<F>(word), weights@);
    let mut acc: F = F::zero();
    let mut bit: usize = 0;
    while bit < 64
        invariant
            bit <= 64,
            weights@.len() == 64,
            terms == pointwise_times(word_scalars::<F>(word), weights@),
            acc == sum(terms.take(bit as int)),
        decreases 64 - bit,
    {
        proof {
            lemma_sum_take(terms, bit as int);
            lemma_one_times(weights@[bit as int]);
            lemma_times_zero(weights@[bit as int]);
            F::law_plus_zero(acc);
        }
        if (word >> (bit as u64)) & 1 == 1 {
            acc = acc.add(weights[bit]);
        }
        bit = bit + 1;
    }
    assert(terms.take(64) =~= terms);
    acc
}

/// Evaluate the 64-bit round-constant word at the univariate bit challenge `z_bit`.
pub fn round_constant_univariate_eval<F: BinaryField>(round: usize, z_bit: F) -> (r: F)
    requires
        round < 24,
    ensures
        r == dot(word_scalars::<F>(RC[round as int]), bit_weights_at(z_bit)),
{
    let bit_weights = bit_lagrange_weights(z_bit);
    round_constant_from_bit_weights(round, &bit_weights)
}

/// Evaluate the 64-bit round-constant word against precomputed bit-index weights.
pub fn round_constant_from_bit_weights<F: Field>(round: usize, bit_weights: &[F; 64]) -> (r: F)
    requires
        round < 24,
    ensures
        r == dot(word_scalars::<F>(RC[round as int]), bit_weights@),
{
    weighted_bits(RC[round], bit_weights.as_slice())
}

/// The table of a round constant evaluates to the value that depends on the bit-index coordinates
/// alone.
pub proof fn law_round_constant_eval_matches_table<F: Field>(round: int, point: Seq<F>)
    requires
        0 <= round < 24,
        point.len() >= 6,
    ensures
        evaluation(
            round_constant_bits::<F>(round, pow2((point.len() - 6) as nat)),
            point,
        ) == dot(word_scalars::<F>(RC[round]), eq_table(point.take(6))),
{
    let (low, high) = (point.take(6), point.skip(6));
    let n = pow2(high.len());
    let table = round_constant_bits::<F>(round, n);
    let value = dot(word_scalars::<F>(RC[round]), eq_table(low));
    assert(point =~= low + high);
    lemma_whole_blocks(point.len());
    lemma2_to64();
    law_evaluation_by_blocks(table, low, high);
    lemma_eq_table_len(high);
    let blocks = block_evaluations(table, low, n);
    assert forall|j: int| 0 <= j < n implies blocks[j] == value by {
        assert forall|i: int| 0 <= i < 64 implies block(table, 64, j)[i] == bit_scalar::<F>(
            RC[round],
            i,
        ) by {
            assert((64 * j + i) % 64 == i);
        }
        assert(block(table, 64, j) =~= word_scalars::<F>(RC[round]));
    }
    assert(pointwise_times(blocks, eq_table(high)) =~= scaled(value, eq_table(high)));
    lemma_sum_scaled(value, eq_table(high));
    law_eq_table_partitions_unity(high);
    F::law_times_one(value);
}

} // verus!
