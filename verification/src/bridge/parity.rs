//! Linear claims over the binary field as parities of selected bits.
//!
//! For a claim `y = sum_i t_i * w_i`, each bit of `y` is the parity of a sum of bits of the `w_i`:
//! those bits `b` for which the product of `t_i` and the power `x^b` has that bit set.

use vstd::prelude::*;

use super::error::BatchedParityBridgeError;
use crate::field::{Field, Ring};
use crate::ghash::{
    bit, lemma_bit_xor, lemma_equal_bits, lemma_times_basis, mul_x, partial_product, times_x_pow, B128,
};
use crate::multilinear::{block, block_sums, lemma_sum_by_blocks, lemma_sum_take, sum};

verus! {

/// Scalar field of the linear claims.
pub type BiniusScalar = B128;

/// Number of Boolean coordinates in one scalar.
pub const BINIUS_SCALAR_BITS: usize = 128;

/// Bit `k` of a word as a number.
pub open spec fn bit_value(x: u128, k: int) -> int {
    if bit(x, k) {
        1
    } else {
        0
    }
}

/// The sum of `t_i * w_i` over the common indices of the two sequences.
pub open spec fn linear_claim(oracle: Seq<B128>, transparent: Seq<B128>) -> B128 {
    sum(linear_terms(oracle, transparent))
}

/// The products `t_i * w_i` at the common indices of the two sequences.
pub open spec fn linear_terms(oracle: Seq<B128>, transparent: Seq<B128>) -> Seq<B128> {
    Seq::new(
        if oracle.len() < transparent.len() {
            oracle.len()
        } else {
            transparent.len()
        },
        |i: int| transparent[i].times(oracle[i]),
    )
}

/// The products of all coefficients with all powers of `x`: entry `128 * i + b` belongs to
/// coefficient `i` and `x^b`.
pub open spec fn basis_products(transparent: Seq<B128>) -> Seq<u128> {
    Seq::new(
        128 * transparent.len(),
        |m: int| times_x_pow(transparent[m / 128].val, (m % 128) as nat),
    )
}

/// The entries of `basis_products` are the products of the coefficients and the basis elements.
pub proof fn law_basis_products(transparent: Seq<B128>, i: int, b: nat)
    requires
        0 <= i < transparent.len(),
        b < 128,
    ensures
        basis_products(transparent)[128 * i + b] == transparent[i].times(
            B128 { val: 1u128 << (b as u128) },
        ).val,
{
    let m = 128 * i + b;
    assert(m / 128 == i && m % 128 == b);
    lemma_times_basis(transparent[i].val, b);
}

/// The products that belong to the set bits of an oracle, and zero for the others.
pub open spec fn selected_products(oracle: Seq<B128>, transparent: Seq<B128>) -> Seq<u128> {
    Seq::new(
        128 * transparent.len(),
        |m: int|
            if bit(oracle[m / 128].val, m % 128) {
                basis_products(transparent)[m]
            } else {
                0
            },
    )
}

/// Bit `k` of each word.
pub open spec fn bit_values(words: Seq<u128>, k: int) -> Seq<int> {
    Seq::new(words.len(), |m: int| bit_value(words[m], k))
}

/// The number of words with bit `k` set.
pub open spec fn tally(words: Seq<u128>, k: int) -> int {
    sum(bit_values(words, k))
}

/// Whether counting the words with multiplicity `count` first exceeds 64 bits at word `m`, and
/// there at no lower bit than `k`.
pub open spec fn first_overflow(words: Seq<u128>, count: int, m: int, k: int) -> bool {
    &&& 0 <= m < words.len()
    &&& 0 <= k < 128
    &&& count * tally(words.take(m + 1), k) > u64::MAX
    &&& forall|j: int| 0 <= j < k ==> count * #[trigger] tally(words.take(m + 1), j) <= u64::MAX
    &&& forall|j: int| 0 <= j < 128 ==> count * #[trigger] tally(words.take(m), j) <= u64::MAX
}

/// A longer prefix adds one more bit.
proof fn lemma_tally_take(words: Seq<u128>, m: int, k: int)
    requires
        0 <= m < words.len(),
    ensures
        tally(words.take(m + 1), k) == tally(words.take(m), k) + bit_value(words[m], k),
{
    let all = bit_values(words, k);
    assert(bit_values(words.take(m), k) =~= all.take(m));
    assert(bit_values(words.take(m + 1), k) =~= all.take(m + 1));
    lemma_sum_take(all, m);
}

/// Counts are not negative, and grow with the prefix.
proof fn lemma_tally_grows(words: Seq<u128>, m: int, n: int, k: int)
    requires
        0 <= m <= n <= words.len(),
    ensures
        0 <= tally(words.take(m), k) <= tally(words.take(n), k),
    decreases n,
{
    if n == 0 {
        assert(bit_values(words.take(0), k) =~= Seq::<int>::empty());
        assert(sum(Seq::<int>::empty()) == 0);
    } else if m < n {
        lemma_tally_grows(words, m, n - 1, k);
        lemma_tally_take(words, n - 1, k);
    } else {
        lemma_tally_grows(words, n - 1, n - 1, k);
        lemma_tally_take(words, n - 1, k);
    }
}

/// Returns bit `k` of a scalar.
fn bit_at(value: BiniusScalar, k: usize) -> (r: u64)
    requires
        k < 128,
    ensures
        r == bit_value(value.val, k as int),
{
    if (value.val >> (k as u128)) & 1 == 1 {
        1
    } else {
        0
    }
}

/// Adds `count` to the counters of the set bits of a word, from the lowest bit up.
///
/// Where a counter overflows, its bit is reported and the counters from there on are unchanged.
fn add_output_bits_scaled(accumulator: &mut [u64; 128], value: u128, count: u64) -> (r: Result<
    (),
    BatchedParityBridgeError,
>)
    ensures
        match r {
            Ok(_) => forall|k: int|
                0 <= k < 128 ==> #[trigger] final(accumulator)[k] == old(accumulator)[k] + count
                    * bit_value(value, k),
            Err(e) => {
                &&& e matches BatchedParityBridgeError::BoundOverflow { bit: n }
                &&& e->BoundOverflow_bit < 128
                &&& bit(value, e->BoundOverflow_bit as int)
                &&& old(accumulator)[e->BoundOverflow_bit as int] + count > u64::MAX
                &&& forall|k: int|
                    0 <= k < e->BoundOverflow_bit ==> #[trigger] old(accumulator)[k] + count
                        * bit_value(value, k) <= u64::MAX
            },
        },
{
    let ghost start = accumulator@;
    let mut n: usize = 0;
    while n < 128
        invariant
            n <= 128,
            start == old(accumulator)@,
            forall|k: int|
                0 <= k < n ==> #[trigger] accumulator@[k] == start[k] + count * bit_value(value, k),
            forall|k: int| n <= k < 128 ==> #[trigger] accumulator@[k] == start[k],
        decreases 128 - n,
    {
        let ghost before = accumulator@;
        if (value >> (n as u128)) & 1 == 1 {
            if accumulator[n] > u64::MAX - count {
                proof {
                    assert(before[n as int] == start[n as int]);
                    assert forall|k: int| 0 <= k < n implies #[trigger] old(accumulator)[k] + count
                        * bit_value(value, k) <= u64::MAX by {
                        assert(before[k] == start[k] + count * bit_value(value, k));
                    }
                }
                return Err(BatchedParityBridgeError::BoundOverflow { bit: n });
            }
            let next: u64 = accumulator[n] + count;
            accumulator[n] = next;
        }
        proof {
            assert(count * 1 == count && count * 0 == 0) by (nonlinear_arith);
            assert forall|k: int| 0 <= k < n + 1 implies #[trigger] accumulator@[k] == start[k] + count
                * bit_value(value, k) by {
                if k < n {
                    assert(accumulator@[k] == before[k]);
                } else {
                    assert(before[n as int] == start[n as int]);
                }
            }
            assert forall|k: int| n + 1 <= k < 128 implies #[trigger] accumulator@[k] == start[k] by {
                assert(accumulator@[k] == before[k]);
            }
        }
        n = n + 1;
    }
    Ok(())
}

/// Whether counters hold the counts of words with multiplicity `count`.
pub open spec fn holds_counts(counters: Seq<u64>, words: Seq<u128>, count: int) -> bool {
    &&& counters.len() == 128
    &&& forall|k: int| 0 <= k < 128 ==> #[trigger] counters[k] == count * tally(words, k)
}

/// Whether an error reports the first overflow in counting words with multiplicity `count`.
pub open spec fn reports_overflow(
    e: BatchedParityBridgeError,
    words: Seq<u128>,
    count: int,
) -> bool {
    exists|m: int, k: int|
        #![trigger first_overflow(words, count, m, k)]
        first_overflow(words, count, m, k) && e == BatchedParityBridgeError::BoundOverflow {
            bit: k as usize,
        }
}

/// Counts one more word.
pub(crate) fn count_word(
    counters: &mut [u64; 128],
    value: u128,
    count: u64,
    Ghost(words): Ghost<Seq<u128>>,
    Ghost(m): Ghost<int>,
) -> (r: Result<(), BatchedParityBridgeError>)
    requires
        0 <= m < words.len(),
        value == words[m],
        holds_counts(old(counters)@, words.take(m), count as int),
    ensures
        match r {
            Ok(_) => holds_counts(final(counters)@, words.take(m + 1), count as int),
            Err(e) => reports_overflow(e, words, count as int),
        },
{
    proof {
        assert forall|k: int| 0 <= k < 128 implies count * #[trigger] tally(words.take(m + 1), k)
            == counters@[k] + count * bit_value(value, k) by {
            lemma_tally_take(words, m, k);
            let (a, b) = (tally(words.take(m), k), bit_value(value, k));
            assert(count * (a + b) == count * a + count * b) by (nonlinear_arith);
            assert(counters@[k] == count * a);
        }
    }
    let ghost start = counters@;
    match add_output_bits_scaled(counters, value, count) {
        Ok(_) => {
            proof {
                assert forall|k: int| 0 <= k < 128 implies #[trigger] counters@[k] == count * tally(
                    words.take(m + 1),
                    k,
                ) by {
                    assert(counters[k] == start[k] + count * bit_value(value, k));
                }
            }
            Ok(())
        },
        Err(e) => {
            proof {
                let n = e->BoundOverflow_bit as int;
                assert(count * 1 == count) by (nonlinear_arith);
                assert(count * tally(words.take(m + 1), n) == start[n] + count * bit_value(
                    value,
                    n,
                ));
                assert forall|j: int| 0 <= j < n implies count * #[trigger] tally(
                    words.take(m + 1),
                    j,
                ) <= u64::MAX by {
                    assert(start[j] + count * bit_value(value, j) <= u64::MAX);
                }
                assert forall|j: int| 0 <= j < 128 implies count * #[trigger] tally(
                    words.take(m),
                    j,
                ) <= u64::MAX by {
                    assert(start[j] == count * tally(words.take(m), j));
                }
                assert(first_overflow(words, count as int, m, n));
            }
            Err(e)
        },
    }
}

/// The counts of no words are zero.
pub proof fn lemma_no_words(words: Seq<u128>, counters: Seq<u64>, count: int)
    requires
        counters.len() == 128,
        forall|k: int| 0 <= k < 128 ==> #[trigger] counters[k] == 0,
    ensures
        holds_counts(counters, words.take(0), count),
{
    assert forall|k: int| 0 <= k < 128 implies #[trigger] counters[k] == count * tally(
        words.take(0),
        k,
    ) by {
        assert(bit_values(words.take(0), k) =~= Seq::<int>::empty());
        assert(sum(Seq::<int>::empty()) == 0);
        assert(count * 0 == 0) by (nonlinear_arith);
    }
}

/// Public upper bounds for each parity sum, derived only from transparent coefficients.
pub fn parity_sum_bounds(transparent: &[BiniusScalar]) -> (r: Result<
    [u64; 128],
    BatchedParityBridgeError,
>)
    ensures
        match r {
            Ok(bounds) => holds_counts(bounds@, basis_products(transparent@), 1),
            Err(e) => reports_overflow(e, basis_products(transparent@), 1),
        },
{
    let ghost words = basis_products(transparent@);
    let mut bounds: [u64; 128] = [0;128];
    proof {
        lemma_no_words(words, bounds@, 1);
    }
    let mut i: usize = 0;
    while i < transparent.len()
        invariant
            i <= transparent@.len(),
            words == basis_products(transparent@),
            holds_counts(bounds@, words.take(128 * i), 1),
        decreases transparent@.len() - i,
    {
        let mut power: u128 = transparent[i].val;
        let mut b: usize = 0;
        while b < 128
            invariant
                b <= 128,
                i < transparent@.len(),
                words == basis_products(transparent@),
                holds_counts(bounds@, words.take(128 * i + b), 1),
                power == times_x_pow(transparent@[i as int].val, b as nat),
            decreases 128 - b,
        {
            proof {
                let m = 128 * i + b;
                assert(m / 128 == i && m % 128 == b);
                assert(words[m] == power);
            }
            match count_word(&mut bounds, power, 1, Ghost(words), Ghost(128 * i + b)) {
                Ok(_) => {},
                Err(e) => {
                    return Err(e);
                },
            }
            power = mul_x(power);
            b = b + 1;
        }
        i = i + 1;
    }
    assert(words.take(128 * i as int) =~= words);
    Ok(bounds)
}

/// The selected-bit sums of an oracle.
fn parity_sums(oracle: &[BiniusScalar], transparent: &[BiniusScalar]) -> (r: Result<
    [u64; 128],
    BatchedParityBridgeError,
>)
    requires
        oracle@.len() == transparent@.len(),
    ensures
        match r {
            Ok(sums) => holds_counts(sums@, selected_products(oracle@, transparent@), 1),
            Err(e) => reports_overflow(e, selected_products(oracle@, transparent@), 1),
        },
{
    let ghost words = selected_products(oracle@, transparent@);
    let mut sums: [u64; 128] = [0;128];
    proof {
        lemma_no_words(words, sums@, 1);
    }
    let mut i: usize = 0;
    while i < transparent.len()
        invariant
            i <= transparent@.len(),
            oracle@.len() == transparent@.len(),
            words == selected_products(oracle@, transparent@),
            holds_counts(sums@, words.take(128 * i), 1),
        decreases transparent@.len() - i,
    {
        let witness: u128 = oracle[i].val;
        let mut power: u128 = transparent[i].val;
        let mut b: usize = 0;
        while b < 128
            invariant
                b <= 128,
                i < transparent@.len(),
                oracle@.len() == transparent@.len(),
                words == selected_products(oracle@, transparent@),
                witness == oracle@[i as int].val,
                holds_counts(sums@, words.take(128 * i + b), 1),
                power == times_x_pow(transparent@[i as int].val, b as nat),
            decreases 128 - b,
        {
            proof {
                let m = 128 * i + b;
                assert(m / 128 == i && m % 128 == b);
                assert(basis_products(transparent@)[m] == power);
            }
            if (witness >> (b as u128)) & 1 == 1 {
                match count_word(&mut sums, power, 1, Ghost(words), Ghost(128 * i + b)) {
                    Ok(_) => {},
                    Err(e) => {
                        return Err(e);
                    },
                }
            } else {
                proof {
                    assert forall|k: int| 0 <= k < 128 implies #[trigger] sums@[k] == 1 * tally(
                        words.take(128 * i + b + 1),
                        k,
                    ) by {
                        lemma_tally_take(words, 128 * i + b, k);
                        lemma_bit_xor(0, 0, k);
                        assert(sums@[k] == 1 * tally(words.take(128 * i + b), k));
                    }
                }
            }
            power = mul_x(power);
            b = b + 1;
        }
        i = i + 1;
    }
    assert(words.take(128 * i as int) =~= words);
    Ok(sums)
}

/// Compute the terminal linear-opening claim.
pub fn terminal_linear_claim(oracle: &[BiniusScalar], transparent: &[BiniusScalar]) -> (r:
    BiniusScalar)
    ensures
        r == linear_claim(oracle@, transparent@),
{
    let n: usize = if oracle.len() < transparent.len() {
        oracle.len()
    } else {
        transparent.len()
    };
    let ghost terms = linear_terms(oracle@, transparent@);
    let mut acc: B128 = B128::zero();
    let mut i: usize = 0;
    while i < n
        invariant
            i <= n,
            n <= oracle@.len(),
            n <= transparent@.len(),
            terms == linear_terms(oracle@, transparent@),
            terms.len() == n,
            acc == sum(terms.take(i as int)),
        decreases n - i,
    {
        proof {
            lemma_sum_take(terms, i as int);
        }
        acc = acc.add(transparent[i].mul(oracle[i]));
        i = i + 1;
    }
    assert(terms.take(i as int) =~= terms);
    acc
}

/// Batched parity proof for one terminal linear-opening claim.
///
/// For a claim `y = sum_i t_i * w_i`, each output bit is a parity of selected witness bits. This
/// proof carries the integer openings `S_k` of those selected-bit sums. Since each `S_k` is range
/// checked, `S_k mod 2 == y_k` can be checked directly.
#[derive(Debug, Clone, Copy, PartialEq, Eq)]
pub struct BatchedParityBridgeProof {
    /// Integer selected-bit sums, one per output bit.
    pub opened_sums: [u64; 128],
}

/// Whether a sum is within its bound and has the parity of its bit of the claim.
pub open spec fn parity_holds(sums: Seq<u64>, bounds: Seq<u64>, claim: B128, k: int) -> bool {
    sums[k] <= bounds[k] && sums[k] % 2 == bit_value(claim.val, k)
}

/// Whether all sums are within their bounds and have the parities of the bits of the claim.
pub open spec fn parities_hold(sums: Seq<u64>, bounds: Seq<u64>, claim: B128) -> bool {
    forall|k: int| 0 <= k < 128 ==> #[trigger] parity_holds(sums, bounds, claim, k)
}

/// Whether sums are within the bounds of the coefficients and have the parities of a claim.
pub open spec fn sums_checked(sums: Seq<u64>, transparent: Seq<B128>, claim: B128) -> bool {
    exists|bounds: Seq<u64>| #[trigger]
        holds_counts(bounds, basis_products(transparent), 1) && parities_hold(sums, bounds, claim)
}

/// Whether an error says why sums are not accepted: a bound of the coefficients overflows, or a
/// check fails.
pub open spec fn sums_refused(
    e: BatchedParityBridgeError,
    sums: Seq<u64>,
    transparent: Seq<B128>,
    claim: B128,
) -> bool {
    reports_overflow(e, basis_products(transparent), 1) || exists|bounds: Seq<u64>, n: int|
        #[trigger] holds_counts(bounds, basis_products(transparent), 1) && #[trigger] reports_parity(
            e,
            sums,
            bounds,
            claim,
            n,
        )
}

/// Whether the public bounds of the sums of coefficients fit in 64 bits.
pub open spec fn bounds_fit(transparent: Seq<B128>) -> bool {
    forall|k: int| 0 <= k < 128 ==> #[trigger] tally(basis_products(transparent), k) <= u64::MAX
}

/// Whether bit `n` is the first one whose check fails, and the error says how.
pub open spec fn reports_parity(
    e: BatchedParityBridgeError,
    sums: Seq<u64>,
    bounds: Seq<u64>,
    claim: B128,
    n: int,
) -> bool {
    &&& 0 <= n < 128
    &&& forall|k: int| 0 <= k < n ==> #[trigger] parity_holds(sums, bounds, claim, k)
    &&& !parity_holds(sums, bounds, claim, n)
    &&& e == if sums[n] > bounds[n] {
        BatchedParityBridgeError::SumOutOfRange {
            bit: n as usize,
            sum: sums[n],
            bound: bounds[n],
        }
    } else {
        BatchedParityBridgeError::BatchedParityCheckFailed
    }
}

impl BatchedParityBridgeProof {
    /// Verify the 128 parity equations against given public bounds.
    pub fn verify_with_bounds(&self, bounds: &[u64; 128], claim: BiniusScalar) -> (r: Result<
        (),
        BatchedParityBridgeError,
    >)
        ensures
            match r {
                Ok(_) => parities_hold(self.opened_sums@, bounds@, claim),
                Err(e) => exists|n: int| #[trigger]
                    reports_parity(e, self.opened_sums@, bounds@, claim, n),
            },
    {
        let mut n: usize = 0;
        while n < 128
            invariant
                n <= 128,
                forall|k: int|
                    0 <= k < n ==> #[trigger] parity_holds(
                        self.opened_sums@,
                        bounds@,
                        claim,
                        k,
                    ),
            decreases 128 - n,
        {
            let sum: u64 = self.opened_sums[n];
            let bound: u64 = bounds[n];
            if sum > bound {
                let e = BatchedParityBridgeError::SumOutOfRange { bit: n, sum, bound };
                assert(reports_parity(e, self.opened_sums@, bounds@, claim, n as int));
                return Err(e);
            }
            if sum % 2 != bit_at(claim, n) {
                let e = BatchedParityBridgeError::BatchedParityCheckFailed;
                assert(reports_parity(e, self.opened_sums@, bounds@, claim, n as int));
                return Err(e);
            }
            n = n + 1;
        }
        Ok(())
    }

    /// Verify the 128 parity equations using public integer bounds.
    pub fn verify(&self, transparent: &[BiniusScalar], claim: BiniusScalar) -> (r: Result<
        (),
        BatchedParityBridgeError,
    >)
        ensures
            match r {
                Ok(_) => sums_checked(self.opened_sums@, transparent@, claim),
                Err(e) => sums_refused(e, self.opened_sums@, transparent@, claim),
            },
    {
        match parity_sum_bounds(transparent) {
            Ok(bounds) => {
                let r = self.verify_with_bounds(&bounds, claim);
                proof {
                    assert(holds_counts(bounds@, basis_products(transparent@), 1));
                }
                r
            },
            Err(e) => Err(e),
        }
    }
}

/// Prove the terminal linear claim using the batched parity bridge.
///
/// Returns the claim and the selected-bit sums of the oracle.
pub fn prove_terminal_linear_claim(oracle: &[BiniusScalar], transparent: &[BiniusScalar]) -> (r:
    Result<(BiniusScalar, BatchedParityBridgeProof), BatchedParityBridgeError>)
    ensures
        match r {
            Ok((claim, proof)) => {
                &&& oracle@.len() == transparent@.len()
                &&& claim == linear_claim(oracle@, transparent@)
                &&& holds_counts(
                    proof.opened_sums@,
                    selected_products(oracle@, transparent@),
                    1,
                )
            },
            Err(e) => if oracle@.len() != transparent@.len() {
                e == BatchedParityBridgeError::LengthMismatch {
                    oracle_len: oracle@.len() as usize,
                    transparent_len: transparent@.len() as usize,
                }
            } else {
                reports_overflow(e, selected_products(oracle@, transparent@), 1)
            },
        },
{
    if oracle.len() != transparent.len() {
        return Err(
            BatchedParityBridgeError::LengthMismatch {
                oracle_len: oracle.len(),
                transparent_len: transparent.len(),
            },
        );
    }
    let claim: B128 = terminal_linear_claim(oracle, transparent);
    match parity_sums(oracle, transparent) {
        Ok(opened_sums) => Ok((claim, BatchedParityBridgeProof { opened_sums })),
        Err(e) => Err(e),
    }
}

/// Counters that hold all counts exist exactly where no count overflows: then no overflow is
/// reported.
pub proof fn law_counts_exclude_overflow(
    counters: Seq<u64>,
    words: Seq<u128>,
    e: BatchedParityBridgeError,
)
    requires
        holds_counts(counters, words, 1),
    ensures
        !reports_overflow(e, words, 1),
{
    assert forall|m: int, k: int| !(#[trigger] first_overflow(words, 1, m, k)) by {
        if first_overflow(words, 1, m, k) {
            lemma_tally_grows(words, m + 1, words.len() as int, k);
            assert(words.take(words.len() as int) =~= words);
            assert(counters[k] == 1 * tally(words, k));
        }
    }
}

/// The bits `k` of the products of a coefficient with the powers of `x` that belong to the first
/// `n` bits of a word.
spec fn selected_bits(w: u128, t: u128, k: int, n: nat) -> Seq<int> {
    Seq::new(
        n,
        |b: int|
            if bit(w, b) {
                bit_value(times_x_pow(t, b as nat), k)
            } else {
                0
            },
    )
}

/// A bit of a product is the parity of selected bits.
proof fn lemma_product_bit(w: u128, t: u128, k: int, n: nat)
    requires
        0 <= k < 128,
        n <= 128,
    ensures
        bit_value(partial_product(w, t, n), k) == sum(selected_bits(w, t, k, n)) % 2,
    decreases n,
{
    lemma_bit_xor(0, 0, k);
    if n == 0 {
        assert(selected_bits(w, t, k, n) =~= Seq::<int>::empty());
        assert(sum(Seq::<int>::empty()) == 0);
    } else {
        let m = (n - 1) as nat;
        lemma_product_bit(w, t, k, m);
        assert(selected_bits(w, t, k, n).drop_last() =~= selected_bits(w, t, k, m));
        lemma_bit_xor(partial_product(w, t, m), times_x_pow(t, m), k);
    }
}

/// Integers with the same parities have sums with the same parity.
proof fn lemma_sum_parity(a: Seq<int>, b: Seq<int>)
    requires
        a.len() == b.len(),
        forall|i: int| 0 <= i < a.len() ==> #[trigger] a[i] % 2 == b[i] % 2,
    ensures
        sum(a) % 2 == sum(b) % 2,
    decreases a.len(),
{
    if a.len() > 0 {
        let (c, d) = (a.drop_last(), b.drop_last());
        assert forall|i: int| 0 <= i < c.len() implies #[trigger] c[i] % 2 == d[i] % 2 by {
            assert(a[i] % 2 == b[i] % 2);
        }
        lemma_sum_parity(c, d);
        assert(a[a.len() - 1] % 2 == b[a.len() - 1] % 2);
    }
}

/// A bit of a sum of scalars is the parity of the bits of the summands.
proof fn lemma_sum_bit(s: Seq<B128>, k: int)
    requires
        0 <= k < 128,
    ensures
        bit_value(sum(s).val, k) == sum(bit_values(values_of_scalars(s), k)) % 2,
    decreases s.len(),
{
    lemma_bit_xor(0, 0, k);
    let bits = bit_values(values_of_scalars(s), k);
    if s.len() == 0 {
        assert(bits =~= Seq::<int>::empty());
        assert(sum(Seq::<int>::empty()) == 0);
    } else {
        lemma_sum_bit(s.drop_last(), k);
        assert(bits.drop_last() =~= bit_values(values_of_scalars(s.drop_last()), k));
        lemma_bit_xor(sum(s.drop_last()).val, s.last().val, k);
    }
}

/// The words of scalars.
spec fn values_of_scalars(s: Seq<B128>) -> Seq<u128> {
    Seq::new(s.len(), |i: int| s[i].val)
}

/// Each selected-bit sum has the parity of its bit of the linear claim.
pub proof fn law_sums_have_parities_of_claim(oracle: Seq<B128>, transparent: Seq<B128>, k: int)
    requires
        oracle.len() == transparent.len(),
        0 <= k < 128,
    ensures
        tally(selected_products(oracle, transparent), k) % 2 == bit_value(
            linear_claim(oracle, transparent).val,
            k,
        ),
{
    let n = transparent.len();
    let words = selected_products(oracle, transparent);
    let all = bit_values(words, k);
    lemma_sum_by_blocks(all, 128, n);
    let parts = block_sums(all, 128, n);
    let terms = linear_terms(oracle, transparent);
    lemma_sum_bit(terms, k);
    let bits = bit_values(values_of_scalars(terms), k);
    assert forall|i: int| 0 <= i < n implies #[trigger] parts[i] % 2 == bits[i] % 2 by {
        let (w, t) = (oracle[i].val, transparent[i].val);
        lemma_product_bit(w, t, k, 128);
        B128::law_times_commutes(transparent[i], oracle[i]);
        lemma_bit_xor(0, 0, k);
        assert forall|b: int| 0 <= b < 128 implies block(all, 128, i)[b] == selected_bits(
            w,
            t,
            k,
            128,
        )[b] by {
            let m = 128 * i + b;
            assert(m / 128 == i && m % 128 == b);
            assert(words[m] == if bit(w, b) {
                times_x_pow(t, b as nat)
            } else {
                0
            });
        }
        assert(block(all, 128, i) =~= selected_bits(w, t, k, 128));
    }
    lemma_sum_parity(parts, bits);
}

/// Each selected-bit sum is at most its public bound.
pub proof fn law_sums_within_bounds(oracle: Seq<B128>, transparent: Seq<B128>, k: int)
    requires
        oracle.len() == transparent.len(),
        0 <= k < 128,
    ensures
        0 <= tally(selected_products(oracle, transparent), k) <= tally(
            basis_products(transparent),
            k,
        ),
{
    let (a, b) = (selected_products(oracle, transparent), basis_products(transparent));
    let (x, y) = (bit_values(a, k), bit_values(b, k));
    lemma_bit_xor(0, 0, k);
    lemma_sum_at_most(x, y);
}

proof fn lemma_sum_at_most(x: Seq<int>, y: Seq<int>)
    requires
        x.len() == y.len(),
        forall|i: int| 0 <= i < x.len() ==> 0 <= #[trigger] x[i] <= y[i],
    ensures
        0 <= sum(x) <= sum(y),
    decreases x.len(),
{
    if x.len() > 0 {
        let (a, b) = (x.drop_last(), y.drop_last());
        assert forall|i: int| 0 <= i < a.len() implies 0 <= #[trigger] a[i] <= b[i] by {
            assert(0 <= x[i] <= y[i]);
        }
        lemma_sum_at_most(a, b);
        assert(0 <= x[x.len() - 1] <= y[x.len() - 1]);
    }
}

/// The sums of an honest proof hold for its claim: whatever the bounds and the sums, as long as
/// they are the right counts, the proof is accepted.
pub proof fn law_honest_parities_hold(
    oracle: Seq<B128>,
    transparent: Seq<B128>,
    sums: Seq<u64>,
    bounds: Seq<u64>,
)
    requires
        oracle.len() == transparent.len(),
        holds_counts(sums, selected_products(oracle, transparent), 1),
        holds_counts(bounds, basis_products(transparent), 1),
    ensures
        parities_hold(sums, bounds, linear_claim(oracle, transparent)),
{
    assert forall|k: int| 0 <= k < 128 implies #[trigger] parity_holds(
        sums,
        bounds,
        linear_claim(oracle, transparent),
        k,
    ) by {
        law_sums_have_parities_of_claim(oracle, transparent, k);
        law_sums_within_bounds(oracle, transparent, k);
        assert(sums[k] == 1 * tally(selected_products(oracle, transparent), k));
        assert(bounds[k] == 1 * tally(basis_products(transparent), k));
    }
}

/// Only the linear claim of an oracle is accepted with the selected-bit sums of that oracle.
pub proof fn law_accepted_claim_is_linear_claim(
    oracle: Seq<B128>,
    transparent: Seq<B128>,
    sums: Seq<u64>,
    bounds: Seq<u64>,
    claim: B128,
)
    requires
        oracle.len() == transparent.len(),
        holds_counts(sums, selected_products(oracle, transparent), 1),
        parities_hold(sums, bounds, claim),
    ensures
        claim == linear_claim(oracle, transparent),
{
    let right = linear_claim(oracle, transparent);
    assert forall|k: int| 0 <= k < 128 implies #[trigger] bit(claim.val, k) == bit(right.val, k) by {
        law_sums_have_parities_of_claim(oracle, transparent, k);
        assert(parity_holds(sums, bounds, claim, k));
        assert(sums[k] == 1 * tally(selected_products(oracle, transparent), k));
    }
    lemma_equal_bits(claim.val, right.val);
}

/// Where the public bounds do not overflow, neither do the selected-bit sums.
pub proof fn law_bounds_exclude_overflow_of_sums(
    oracle: Seq<B128>,
    transparent: Seq<B128>,
    bounds: Seq<u64>,
    e: BatchedParityBridgeError,
)
    requires
        oracle.len() == transparent.len(),
        holds_counts(bounds, basis_products(transparent), 1),
    ensures
        !reports_overflow(e, selected_products(oracle, transparent), 1),
{
    let words = selected_products(oracle, transparent);
    assert forall|m: int, k: int| !(#[trigger] first_overflow(words, 1, m, k)) by {
        if first_overflow(words, 1, m, k) {
            lemma_tally_grows(words, m + 1, words.len() as int, k);
            assert(words.take(words.len() as int) =~= words);
            law_sums_within_bounds(oracle, transparent, k);
            assert(bounds[k] == 1 * tally(basis_products(transparent), k));
        }
    }
}

/// The public bounds, where they fit in 64 bits.
proof fn lemma_bounds_exist(transparent: Seq<B128>) -> (bounds: Seq<u64>)
    requires
        bounds_fit(transparent),
    ensures
        holds_counts(bounds, basis_products(transparent), 1),
{
    let words = basis_products(transparent);
    let bounds = Seq::new(128, |k: int| tally(words, k) as u64);
    assert forall|k: int| 0 <= k < 128 implies #[trigger] bounds[k] == 1 * tally(words, k) by {
        lemma_tally_grows(words, 0, words.len() as int, k);
        assert(words.take(words.len() as int) =~= words);
        assert(bit_values(words.take(0), k) =~= Seq::<int>::empty());
        assert(tally(words, k) <= u64::MAX);
    }
    bounds
}

/// The public bounds fit in 64 bits where there are less than `2^57` coefficients.
pub proof fn law_short_bounds_fit(transparent: Seq<B128>)
    requires
        128 * transparent.len() <= u64::MAX,
    ensures
        bounds_fit(transparent),
{
    let words = basis_products(transparent);
    assert forall|k: int| 0 <= k < 128 implies #[trigger] tally(words, k) <= u64::MAX by {
        let ones = Seq::new(words.len(), |m: int| 1int);
        lemma_sum_at_most(bit_values(words, k), ones);
        lemma_sum_of_ones(words.len());
    }
}

proof fn lemma_sum_of_ones(n: nat)
    ensures
        sum(Seq::new(n, |m: int| 1int)) == n,
    decreases n,
{
    let ones = Seq::new(n, |m: int| 1int);
    if n > 0 {
        assert(ones.drop_last() =~= Seq::new((n - 1) as nat, |m: int| 1int));
        lemma_sum_of_ones((n - 1) as nat);
    }
}

/// The proof of a claim is accepted: where the public bounds fit in 64 bits, proving the linear
/// claim of an oracle does not overflow, the sums that it gives are accepted for that claim, and
/// there is no error with which they could be refused.
pub proof fn law_proved_claim_is_accepted(
    oracle: Seq<B128>,
    transparent: Seq<B128>,
    sums: Seq<u64>,
    e: BatchedParityBridgeError,
)
    requires
        oracle.len() == transparent.len(),
        bounds_fit(transparent),
    ensures
        !reports_overflow(e, selected_products(oracle, transparent), 1),
        holds_counts(sums, selected_products(oracle, transparent), 1) ==> {
            &&& sums_checked(sums, transparent, linear_claim(oracle, transparent))
            &&& !sums_refused(e, sums, transparent, linear_claim(oracle, transparent))
        },
{
    let claim = linear_claim(oracle, transparent);
    let words = basis_products(transparent);
    let bounds = lemma_bounds_exist(transparent);
    law_bounds_exclude_overflow_of_sums(oracle, transparent, bounds, e);
    law_counts_exclude_overflow(bounds, words, e);
    if holds_counts(sums, selected_products(oracle, transparent), 1) {
        assert forall|other: Seq<u64>, n: int|
            #[trigger] holds_counts(other, words, 1) implies !(#[trigger] reports_parity(
            e,
            sums,
            other,
            claim,
            n,
        )) by {
            law_honest_parities_hold(oracle, transparent, sums, other);
            if 0 <= n < 128 {
                assert(parity_holds(sums, other, claim, n));
            }
        }
        law_honest_parities_hold(oracle, transparent, sums, bounds);
    }
}

/// With the sums of an oracle, no claim but its linear claim is accepted.
pub proof fn law_other_claims_are_refused(
    oracle: Seq<B128>,
    transparent: Seq<B128>,
    sums: Seq<u64>,
    claim: B128,
)
    requires
        oracle.len() == transparent.len(),
        holds_counts(sums, selected_products(oracle, transparent), 1),
        claim != linear_claim(oracle, transparent),
    ensures
        !sums_checked(sums, transparent, claim),
{
    assert forall|bounds: Seq<u64>| #[trigger]
        holds_counts(bounds, basis_products(transparent), 1) implies !parities_hold(
        sums,
        bounds,
        claim,
    ) by {
        if parities_hold(sums, bounds, claim) {
            law_accepted_claim_is_linear_claim(oracle, transparent, sums, bounds, claim);
        }
    }
}

/// Counting overflows first at one word and one bit.
pub proof fn law_first_overflow_is_unique(
    words: Seq<u128>,
    count: int,
    m: int,
    k: int,
    n: int,
    l: int,
)
    requires
        count > 0,
        first_overflow(words, count, m, k),
        first_overflow(words, count, n, l),
    ensures
        m == n,
        k == l,
        0 <= m < words.len(),
        0 <= k < 128,
{
    if m < n {
        lemma_overflow_stays(words, count, m + 1, n, k);
    } else if n < m {
        lemma_overflow_stays(words, count, n + 1, m, l);
    }
}

proof fn lemma_overflow_stays(words: Seq<u128>, count: int, m: int, n: int, k: int)
    requires
        count > 0,
        0 <= m <= n <= words.len(),
        count * tally(words.take(m), k) > u64::MAX,
    ensures
        count * tally(words.take(n), k) > u64::MAX,
{
    lemma_tally_grows(words, m, n, k);
    let (a, b) = (tally(words.take(m), k), tally(words.take(n), k));
    assert(count * a <= count * b) by (nonlinear_arith)
        requires
            count > 0,
            a <= b,
    ;
}

} // verus!
