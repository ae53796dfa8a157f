//! Sums over a field, equality indicators and multilinear extensions of value tables.
//!
//! Variables are ordered from low to high: bit `j` of a table index belongs to coordinate `j` of a
//! point.

use vstd::arithmetic::power2::{lemma2_to64, lemma_pow2_adds, lemma_pow2_unfold, pow2};
use vstd::prelude::*;

use crate::field::{
    lemma_minus_self, lemma_one_times, lemma_plus_exchange, lemma_plus_times, lemma_times_zero,
    lemma_zero_plus, Field, Ring,
};

verus! {

/// The sum of the elements of a sequence.
pub open spec fn sum<F: Ring>(s: Seq<F>) -> F
    decreases s.len(),
{
    if s.len() == 0 {
        F::zero_spec()
    } else {
        sum(s.drop_last()).plus(s.last())
    }
}

/// The elementwise sum of two sequences.
pub open spec fn pointwise_plus<F: Ring>(a: Seq<F>, b: Seq<F>) -> Seq<F> {
    Seq::new(a.len(), |i: int| a[i].plus(b[i]))
}

/// The elementwise product of two sequences.
pub open spec fn pointwise_times<F: Ring>(a: Seq<F>, b: Seq<F>) -> Seq<F> {
    Seq::new(a.len(), |i: int| a[i].times(b[i]))
}

/// The product of each element and a factor.
pub open spec fn scaled<F: Ring>(c: F, a: Seq<F>) -> Seq<F> {
    Seq::new(a.len(), |i: int| c.times(a[i]))
}

/// The inner product of two sequences.
pub open spec fn dot<F: Ring>(a: Seq<F>, b: Seq<F>) -> F {
    sum(pointwise_times(a, b))
}

/// A sequence of zeros.
pub open spec fn zeros<F: Ring>(n: nat) -> Seq<F> {
    Seq::new(n, |i: int| F::zero_spec())
}

/// The sum of a longer prefix adds one more element.
pub proof fn lemma_sum_take<F: Ring>(s: Seq<F>, n: int)
    requires
        0 <= n < s.len(),
    ensures
        sum(s.take(n + 1)) == sum(s.take(n)).plus(s[n]),
{
    assert(s.take(n + 1).drop_last() =~= s.take(n));
}

/// A sum of zeros is zero.
pub proof fn lemma_sum_zeros<F: Ring>(s: Seq<F>)
    requires
        forall|i: int| 0 <= i < s.len() ==> s[i] == F::zero_spec(),
    ensures
        sum(s) == F::zero_spec(),
    decreases s.len(),
{
    if s.len() > 0 {
        lemma_sum_zeros(s.drop_last());
        F::law_plus_zero(F::zero_spec());
    }
}

/// The sum of an elementwise sum is the sum of the sums.
pub proof fn lemma_sum_plus<F: Ring>(a: Seq<F>, b: Seq<F>)
    requires
        a.len() == b.len(),
    ensures
        sum(pointwise_plus(a, b)) == sum(a).plus(sum(b)),
    decreases a.len(),
{
    if a.len() == 0 {
        F::law_plus_zero(F::zero_spec());
    } else {
        let (c, d) = (a.drop_last(), b.drop_last());
        lemma_sum_plus(c, d);
        assert(pointwise_plus(a, b).drop_last() =~= pointwise_plus(c, d));
        lemma_plus_exchange(sum(c), sum(d), a.last(), b.last());
    }
}

/// A factor can be taken out of a sum.
pub proof fn lemma_sum_scaled<F: Ring>(c: F, a: Seq<F>)
    ensures
        sum(scaled(c, a)) == c.times(sum(a)),
    decreases a.len(),
{
    if a.len() == 0 {
        lemma_times_zero(c);
    } else {
        lemma_sum_scaled(c, a.drop_last());
        assert(scaled(c, a).drop_last() =~= scaled(c, a.drop_last()));
        F::law_distributes(c, sum(a.drop_last()), a.last());
    }
}

/// The sum of a concatenation is the sum of the sums.
pub proof fn lemma_sum_concat<F: Ring>(a: Seq<F>, b: Seq<F>)
    ensures
        sum(a + b) == sum(a).plus(sum(b)),
    decreases b.len(),
{
    if b.len() == 0 {
        assert(a + b =~= a);
        F::law_plus_zero(sum(a));
    } else {
        assert((a + b).drop_last() =~= a + b.drop_last());
        lemma_sum_concat(a, b.drop_last());
        F::law_plus_associates(sum(a), sum(b.drop_last()), b.last());
    }
}

/// The sequence that starts at position `k` and goes round.
pub open spec fn rotated<A>(s: Seq<A>, k: int) -> Seq<A> {
    Seq::new(s.len(), |i: int| s[(i + k) % (s.len() as int)])
}

/// The sum of a sequence does not depend on where one starts to go round it.
pub proof fn lemma_sum_rotated<F: Ring>(s: Seq<F>, k: int)
    requires
        0 <= k < s.len(),
    ensures
        sum(rotated(s, k)) == sum(s),
{
    let (a, b) = (s.take(k), s.skip(k));
    let n = s.len() as int;
    assert forall|i: int| 0 <= i < n implies rotated(s, k)[i] == (b + a)[i] by {
        if i < n - k {
            assert((i + k) % n == i + k) by (nonlinear_arith)
                requires
                    0 <= i + k < n,
            ;
        } else {
            assert((i + k) % n == i + k - n) by (nonlinear_arith)
                requires
                    n <= i + k < 2 * n,
            ;
        }
    }
    assert(rotated(s, k) =~= b + a);
    assert(s =~= a + b);
    lemma_sum_concat(a, b);
    lemma_sum_concat(b, a);
    F::law_plus_commutes(sum(a), sum(b));
}

/// The sums of the rows of a table with `n` columns.
pub open spec fn row_sums<F: Ring>(table: Seq<Seq<F>>) -> Seq<F> {
    Seq::new(table.len(), |i: int| sum(table[i]))
}

/// The sums of the columns of a table with `n` columns.
pub open spec fn column_sums<F: Ring>(table: Seq<Seq<F>>, n: nat) -> Seq<F> {
    Seq::new(n, |j: int| sum(column_of(table, j)))
}

/// Column `j` of a table.
pub open spec fn column_of<F: Ring>(table: Seq<Seq<F>>, j: int) -> Seq<F> {
    Seq::new(table.len(), |i: int| table[i][j])
}

/// Adding up a table by rows or by columns gives the same sum.
pub proof fn lemma_sum_exchange<F: Ring>(table: Seq<Seq<F>>, n: nat)
    requires
        forall|i: int| 0 <= i < table.len() ==> (#[trigger] table[i]).len() == n,
    ensures
        sum(row_sums(table)) == sum(column_sums(table, n)),
    decreases table.len(),
{
    if table.len() == 0 {
        assert forall|j: int| 0 <= j < n implies column_sums(table, n)[j] == F::zero_spec() by {
            assert(column_of(table, j) =~= Seq::<F>::empty());
        }
        lemma_sum_zeros(column_sums(table, n));
    } else {
        let rest = table.drop_last();
        lemma_sum_exchange(rest, n);
        assert(row_sums(table).drop_last() =~= row_sums(rest));
        assert(column_sums(table, n) =~= pointwise_plus(column_sums(rest, n), table.last())) by {
            assert forall|j: int| 0 <= j < n implies column_sums(table, n)[j] == column_sums(
                rest,
                n,
            )[j].plus(table.last()[j]) by {
                assert(column_of(table, j).drop_last() =~= column_of(rest, j));
            }
        }
        lemma_sum_plus(column_sums(rest, n), table.last());
    }
}

/// The inner product is commutative.
pub proof fn lemma_dot_commutes<F: Ring>(a: Seq<F>, b: Seq<F>)
    requires
        a.len() == b.len(),
    ensures
        dot(a, b) == dot(b, a),
{
    assert forall|i: int| 0 <= i < a.len() implies pointwise_times(a, b)[i] == pointwise_times(
        b,
        a,
    )[i] by {
        F::law_times_commutes(a[i], b[i]);
    }
    assert(pointwise_times(a, b) =~= pointwise_times(b, a));
}

/// The inner product is additive in its first argument.
pub proof fn lemma_dot_plus<F: Ring>(a: Seq<F>, b: Seq<F>, c: Seq<F>)
    requires
        a.len() == b.len(),
        a.len() == c.len(),
    ensures
        dot(pointwise_plus(a, b), c) == dot(a, c).plus(dot(b, c)),
{
    let (ac, bc) = (pointwise_times(a, c), pointwise_times(b, c));
    assert forall|i: int| 0 <= i < a.len() implies pointwise_times(pointwise_plus(a, b), c)[i]
        == pointwise_plus(ac, bc)[i] by {
        lemma_plus_times(a[i], b[i], c[i]);
    }
    assert(pointwise_times(pointwise_plus(a, b), c) =~= pointwise_plus(ac, bc));
    lemma_sum_plus(ac, bc);
}

/// The inner product is homogeneous in its first argument.
pub proof fn lemma_dot_scaled<F: Ring>(c: F, a: Seq<F>, b: Seq<F>)
    requires
        a.len() == b.len(),
    ensures
        dot(scaled(c, a), b) == c.times(dot(a, b)),
{
    let ab = pointwise_times(a, b);
    assert forall|i: int| 0 <= i < a.len() implies pointwise_times(scaled(c, a), b)[i] == scaled(
        c,
        ab,
    )[i] by {
        F::law_times_associates(c, a[i], b[i]);
    }
    assert(pointwise_times(scaled(c, a), b) =~= scaled(c, ab));
    lemma_sum_scaled(c, ab);
}

/// The equality indicator of a point on all vertices of the hypercube: entry `i` is the product,
/// over the coordinates `j`, of `point[j]` where bit `j` of `i` is set and of `1 - point[j]` where
/// it is clear.
pub open spec fn eq_table<F: Ring>(point: Seq<F>) -> Seq<F>
    decreases point.len(),
{
    if point.len() == 0 {
        seq![F::one_spec()]
    } else {
        let t = eq_table(point.drop_last());
        let r = point.last();
        scaled(F::one_spec().minus(r), t) + scaled(r, t)
    }
}

/// The equality indicator has one entry per vertex.
pub proof fn lemma_eq_table_len<F: Ring>(point: Seq<F>)
    ensures
        eq_table(point).len() == pow2(point.len()),
    decreases point.len(),
{
    if point.len() == 0 {
        lemma2_to64();
    } else {
        lemma_eq_table_len(point.drop_last());
        lemma_pow2_unfold(point.len());
    }
}

/// The entries of the equality indicator add up to one.
pub proof fn law_eq_table_partitions_unity<F: Ring>(point: Seq<F>)
    ensures
        sum(eq_table(point)) == F::one_spec(),
    decreases point.len(),
{
    let one = F::one_spec();
    if point.len() == 0 {
        assert(eq_table(point).drop_last() =~= Seq::<F>::empty());
        assert(sum(Seq::<F>::empty()) == F::zero_spec());
        lemma_zero_plus(one);
    } else {
        let t = eq_table(point.drop_last());
        let r = point.last();
        law_eq_table_partitions_unity(point.drop_last());
        lemma_sum_concat(scaled(one.minus(r), t), scaled(r, t));
        lemma_sum_scaled(one.minus(r), t);
        lemma_sum_scaled(r, t);
        F::law_times_one(one.minus(r));
        F::law_times_one(r);
        F::law_minus(one, r);
    }
}

/// The equality indicator of a point is the product of the indicators of its low and high
/// coordinates.
pub proof fn law_eq_table_splits<F: Ring>(low: Seq<F>, high: Seq<F>, i: int, j: int)
    requires
        0 <= i < pow2(low.len()),
        0 <= j < pow2(high.len()),
    ensures
        0 <= i + pow2(low.len()) * j < pow2((low.len() + high.len()) as nat),
        eq_table(low + high)[i + pow2(low.len()) * j] == eq_table(low)[i].times(eq_table(high)[j]),
    decreases high.len(),
{
    let n = pow2(low.len()) as int;
    lemma_eq_table_len(low);
    lemma_eq_table_len(high);
    lemma_eq_table_len(low + high);
    if high.len() == 0 {
        lemma2_to64();
        assert(low + high =~= low);
        F::law_times_one(eq_table(low)[i]);
    } else {
        let rest = high.drop_last();
        let half = pow2(rest.len()) as int;
        lemma_pow2_unfold(high.len());
        lemma_pow2_unfold((low.len() + high.len()) as nat);
        lemma_eq_table_len(rest);
        lemma_eq_table_len(low + rest);
        assert((low + high).drop_last() =~= low + rest);
        lemma_pow2_adds(low.len(), rest.len());
        let t = eq_table(low + rest);
        let r = high.last();
        let k = if j < half {
            j
        } else {
            j - half
        };
        let c = if j < half {
            F::one_spec().minus(r)
        } else {
            r
        };
        law_eq_table_splits(low, rest, i, k);
        assert(n * j == n * k + (if j < half {
            0
        } else {
            n * half
        })) by (nonlinear_arith)
            requires
                j == k + (if j < half {
                    0
                } else {
                    half
                }),
        ;
        assert(eq_table(low + high)[i + n * j] == c.times(t[i + n * k]));
        assert(eq_table(high)[j] == c.times(eq_table(rest)[k]));
        let (x, y) = (eq_table(low)[i], eq_table(rest)[k]);
        // c (x y) == x (c y)
        F::law_times_associates(c, x, y);
        F::law_times_commutes(c, x);
        F::law_times_associates(x, c, y);
    }
}

/// The multilinear extension of a table, evaluated at a point.
pub open spec fn evaluation<F: Ring>(table: Seq<F>, point: Seq<F>) -> F {
    dot(table, eq_table(point))
}

/// Block `j` of a sequence that is cut into blocks of length `m`.
pub open spec fn block<A>(s: Seq<A>, m: nat, j: int) -> Seq<A> {
    Seq::new(m, |i: int| s[m * j + i])
}

/// The sums of the first `n` blocks of length `m`.
pub open spec fn block_sums<F: Ring>(s: Seq<F>, m: nat, n: nat) -> Seq<F> {
    Seq::new(n, |j: int| sum(block(s, m, j)))
}

/// A sum can be taken block by block.
pub proof fn lemma_sum_by_blocks<F: Ring>(s: Seq<F>, m: nat, n: nat)
    requires
        s.len() == m * n,
    ensures
        sum(s) == sum(block_sums(s, m, n)),
    decreases n,
{
    if n == 0 {
        assert(m * n == 0) by (nonlinear_arith)
            requires
                n == 0,
        ;
    } else {
        let k = (n - 1) as nat;
        assert(m * n == m * k + m) by (nonlinear_arith)
            requires
                n == k + 1,
        ;
        let rest = s.take((m * k) as int);
        lemma_sum_by_blocks(rest, m, k);
        let last = block(s, m, k as int);
        assert(s =~= rest + last);
        lemma_sum_concat(rest, last);
        assert(block_sums(s, m, n).drop_last() =~= block_sums(rest, m, k)) by {
            assert forall|j: int| 0 <= j < k implies block(s, m, j) == block(rest, m, j) by {
                assert(m * j + m <= m * k) by (nonlinear_arith)
                    requires
                        j + 1 <= k,
                ;
                assert(block(s, m, j) =~= block(rest, m, j));
            }
        }
    }
}

/// The values of the blocks of a table at the low coordinates of a point.
pub open spec fn block_evaluations<F: Ring>(table: Seq<F>, low: Seq<F>, n: nat) -> Seq<F> {
    Seq::new(n, |j: int| dot(block(table, pow2(low.len()), j), eq_table(low)))
}

/// A multilinear extension can be evaluated at the low coordinates of a point first, block by
/// block, and then at the high ones.
pub proof fn law_evaluation_by_blocks<F: Ring>(table: Seq<F>, low: Seq<F>, high: Seq<F>)
    requires
        table.len() == pow2((low.len() + high.len()) as nat),
    ensures
        evaluation(table, low + high) == evaluation(
            block_evaluations(table, low, pow2(high.len())),
            high,
        ),
{
    let m = pow2(low.len());
    let n = pow2(high.len());
    lemma_pow2_adds(low.len(), high.len());
    lemma_eq_table_len(low);
    lemma_eq_table_len(high);
    lemma_eq_table_len(low + high);
    let products = pointwise_times(table, eq_table(low + high));
    lemma_sum_by_blocks(products, m, n);
    let blocks = block_evaluations(table, low, n);
    assert forall|j: int| 0 <= j < n implies block_sums(products, m, n)[j] == blocks[j].times(
        eq_table(high)[j],
    ) by {
        let b = block(table, m, j);
        let c = eq_table(high)[j];
        let terms = pointwise_times(b, eq_table(low));
        assert forall|i: int| 0 <= i < m implies block(products, m, j)[i] == scaled(c, terms)[i] by {
            law_eq_table_splits(low, high, i, j);
            assert(m * j + i == i + m * j);
            let (x, y) = (b[i], eq_table(low)[i]);
            F::law_times_associates(x, y, c);
            F::law_times_commutes(x.times(y), c);
        }
        assert(block(products, m, j) =~= scaled(c, terms));
        lemma_sum_scaled(c, terms);
        F::law_times_commutes(c, sum(terms));
    }
    assert(block_sums(products, m, n) =~= pointwise_times(blocks, eq_table(high)));
}

/// The table with its highest variable fixed to `c`.
pub open spec fn folded_high<F: Ring>(table: Seq<F>, c: F) -> Seq<F> {
    Seq::new(
        table.len() / 2,
        |i: int| interpolated(table[i], table[i + table.len() / 2], c),
    )
}

/// The value at `c` of the line through `lo` at zero and `hi` at one.
pub open spec fn interpolated<F: Ring>(lo: F, hi: F, c: F) -> F {
    lo.plus(c.times(hi.minus(lo)))
}

/// A point on a line is the weighted mean of its values at zero and one.
pub proof fn lemma_interpolated<F: Ring>(lo: F, hi: F, c: F)
    ensures
        interpolated(lo, hi, c) == F::one_spec().minus(c).times(lo).plus(c.times(hi)),
{
    let one = F::one_spec();
    let m = one.minus(c);
    let d = hi.minus(lo);
    // c * hi == c * d + c * lo
    F::law_minus(hi, lo);
    F::law_distributes(c, d, lo);
    // lo == m * lo + c * lo
    F::law_minus(one, c);
    lemma_plus_times(m, c, lo);
    lemma_one_times(lo);
    // lo + c * d == (m * lo + c * lo) + c * d == m * lo + (c * lo + c * d)
    F::law_plus_associates(m.times(lo), c.times(lo), c.times(d));
    F::law_plus_commutes(c.times(lo), c.times(d));
}

/// Folding the highest variable is evaluating the multilinear extension at it.
pub proof fn law_fold_high_evaluates<F: Ring>(table: Seq<F>, point: Seq<F>, c: F)
    requires
        table.len() == pow2((point.len() + 1) as nat),
    ensures
        folded_high(table, c).len() == pow2(point.len()),
        evaluation(folded_high(table, c), point) == evaluation(table, point.push(c)),
{
    let n = pow2(point.len()) as int;
    lemma_pow2_unfold((point.len() + 1) as nat);
    lemma_eq_table_len(point);
    let e = eq_table(point);
    let one = F::one_spec();
    let m = one.minus(c);
    assert(point.push(c).drop_last() =~= point);
    let folded = folded_high(table, c);
    let lo = table.take(n);
    let hi = table.skip(n);
    assert(folded =~= pointwise_plus(scaled(m, lo), scaled(c, hi))) by {
        assert forall|i: int| 0 <= i < n implies folded[i] == m.times(lo[i]).plus(
            c.times(hi[i]),
        ) by {
            lemma_interpolated(table[i], table[i + n], c);
        }
    }
    lemma_dot_plus(scaled(m, lo), scaled(c, hi), e);
    lemma_dot_scaled(m, lo, e);
    lemma_dot_scaled(c, hi, e);
    // the other side
    let me = scaled(m, e);
    let ce = scaled(c, e);
    assert(pointwise_times(table, me + ce) =~= pointwise_times(lo, me) + pointwise_times(hi, ce));
    lemma_sum_concat(pointwise_times(lo, me), pointwise_times(hi, ce));
    lemma_dot_commutes(lo, me);
    lemma_dot_commutes(hi, ce);
    lemma_dot_scaled(m, e, lo);
    lemma_dot_scaled(c, e, hi);
    lemma_dot_commutes(e, lo);
    lemma_dot_commutes(e, hi);
}

/// The table with its lowest variable fixed to `c`.
pub open spec fn folded_low<F: Ring>(table: Seq<F>, c: F) -> Seq<F> {
    Seq::new(table.len() / 2, |i: int| interpolated(table[2 * i], table[2 * i + 1], c))
}

/// The table with its lowest variables fixed one after the other.
pub open spec fn folded_by<F: Ring>(table: Seq<F>, point: Seq<F>) -> Seq<F>
    decreases point.len(),
{
    if point.len() == 0 {
        table
    } else {
        folded_low(folded_by(table, point.drop_last()), point.last())
    }
}

/// Folding the lowest variable is evaluating the multilinear extension at it.
pub proof fn law_fold_low_evaluates<F: Ring>(table: Seq<F>, c: F, rest: Seq<F>)
    requires
        table.len() == pow2((rest.len() + 1) as nat),
    ensures
        folded_low(table, c).len() == pow2(rest.len()),
        evaluation(folded_low(table, c), rest) == evaluation(table, seq![c] + rest),
{
    let low = seq![c];
    let one = F::one_spec();
    let m = one.minus(c);
    lemma2_to64();
    lemma_pow2_unfold((rest.len() + 1) as nat);
    law_evaluation_by_blocks(table, low, rest);
    assert(low.drop_last() =~= Seq::<F>::empty());
    assert(eq_table(low) =~= seq![m, c]) by {
        assert(eq_table(Seq::<F>::empty()) == seq![one]);
        F::law_times_one(m);
        F::law_times_one(c);
    }
    let n = pow2(rest.len());
    let blocks = block_evaluations(table, low, n);
    assert forall|j: int| 0 <= j < n implies blocks[j] == folded_low(table, c)[j] by {
        let (lo, hi) = (table[2 * j], table[2 * j + 1]);
        let products = pointwise_times(block(table, 2, j), eq_table(low));
        assert(products =~= seq![lo.times(m), hi.times(c)]);
        let first = seq![lo.times(m)];
        assert(products.drop_last() =~= first);
        assert(first.drop_last() =~= Seq::<F>::empty());
        assert(sum(Seq::<F>::empty()) == F::zero_spec());
        assert(sum(first) == F::zero_spec().plus(lo.times(m)));
        lemma_zero_plus(lo.times(m));
        assert(sum(products) == lo.times(m).plus(hi.times(c)));
        F::law_times_commutes(lo, m);
        F::law_times_commutes(hi, c);
        lemma_interpolated(lo, hi, c);
    }
    assert(blocks =~= folded_low(table, c));
}

/// Folding the lowest variables one after the other is evaluating the multilinear extension at
/// them.
pub proof fn law_fold_by_evaluates<F: Ring>(table: Seq<F>, point: Seq<F>, rest: Seq<F>)
    requires
        table.len() == pow2((point.len() + rest.len()) as nat),
    ensures
        folded_by(table, point).len() == pow2(rest.len()),
        evaluation(folded_by(table, point), rest) == evaluation(table, point + rest),
    decreases point.len(),
{
    if point.len() == 0 {
        assert(point + rest =~= rest);
    } else {
        let (front, c) = (point.drop_last(), point.last());
        law_fold_by_evaluates(table, front, seq![c] + rest);
        assert(front + (seq![c] + rest) =~= point + rest);
        law_fold_low_evaluates(folded_by(table, front), c, rest);
    }
}

/// Folding all variables leaves the value of the multilinear extension at the point.
pub proof fn law_fold_all_evaluates<F: Ring>(table: Seq<F>, point: Seq<F>)
    requires
        table.len() == pow2(point.len()),
    ensures
        folded_by(table, point) == seq![evaluation(table, point)],
{
    let none = Seq::<F>::empty();
    law_fold_by_evaluates(table, point, none);
    assert(point + none =~= point);
    lemma2_to64();
    let f = folded_by(table, point);
    assert(eq_table(none) == seq![F::one_spec()]);
    let products = pointwise_times(f, eq_table(none));
    F::law_times_one(f[0]);
    assert(products =~= seq![f[0]]);
    assert(products.drop_last() =~= none);
    assert(sum(none) == F::zero_spec());
    lemma_zero_plus(f[0]);
    assert(f =~= seq![evaluation(table, point)]);
}

/// Returns the inner product of two vectors of the same length.
pub fn inner_product<F: Field>(a: &[F], b: &[F]) -> (r: F)
    requires
        a@.len() == b@.len(),
    ensures
        r == dot(a@, b@),
{
    let mut acc: F = F::zero();
    let ghost terms = pointwise_times(a@, b@);
    let mut i: usize = 0;
    while i < a.len()
        invariant
            a@.len() == b@.len(),
            i <= a@.len(),
            terms == pointwise_times(a@, b@),
            acc == sum(terms.take(i as int)),
        decreases a@.len() - i,
    {
        proof {
            lemma_sum_take(terms, i as int);
        }
        acc = acc.add(a[i].mul(b[i]));
        i = i + 1;
    }
    assert(terms.take(i as int) =~= terms);
    acc
}

/// Returns the equality indicator of a point on all vertices of the hypercube.
pub fn eq_ind_partial_eval<F: Field>(point: &[F]) -> (r: Vec<F>)
    requires
        pow2(point@.len()) <= usize::MAX,
    ensures
        r@ == eq_table(point@),
        r@.len() == pow2(point@.len()),
{
    let mut table: Vec<F> = Vec::new();
    table.push(F::one());
    assert(point@.take(0) =~= Seq::<F>::empty());
    assert(table@ =~= eq_table(point@.take(0)));
    let mut k: usize = 0;
    while k < point.len()
        invariant
            k <= point@.len(),
            table@ == eq_table(point@.take(k as int)),
        decreases point@.len() - k,
    {
        let r: F = point[k];
        let m: F = F::one().sub(r);
        let ghost t = table@;
        let n: usize = table.len();
        let mut low: Vec<F> = Vec::with_capacity(n);
        let mut high: Vec<F> = Vec::with_capacity(n);
        let mut i: usize = 0;
        while i < n
            invariant
                i <= n,
                table@ == t,
                t.len() == n,
                m == F::one_spec().minus(r),
                low@ == scaled(m, t).take(i as int),
                high@ == scaled(r, t).take(i as int),
            decreases n - i,
        {
            low.push(m.mul(table[i]));
            high.push(r.mul(table[i]));
            i = i + 1;
        }
        low.append(&mut high);
        table = low;
        k = k + 1;
        assert(scaled(m, t).take(n as int) =~= scaled(m, t));
        assert(scaled(r, t).take(n as int) =~= scaled(r, t));
        assert(point@.take(k as int).drop_last() =~= point@.take(k - 1));
        assert(table@ =~= eq_table(point@.take(k as int)));
    }
    assert(point@.take(k as int) =~= point@);
    proof {
        lemma_eq_table_len(point@);
    }
    table
}

/// Returns the multilinear extension of a table, evaluated at a point.
pub fn evaluate<F: Field>(table: &[F], point: &[F]) -> (r: F)
    requires
        table@.len() == pow2(point@.len()),
    ensures
        r == evaluation(table@, point@),
{
    assert(table.len() <= usize::MAX);
    let weights = eq_ind_partial_eval(point);
    inner_product(table, weights.as_slice())
}

/// Fixes the highest variable of a table to `c`.
pub fn fold_highest_var_inplace<F: Field>(table: &mut Vec<F>, c: F)
    ensures
        final(table)@ == folded_high(old(table)@, c),
{
    let n: usize = table.len() / 2;
    let mut out: Vec<F> = Vec::with_capacity(n);
    let mut i: usize = 0;
    while i < n
        invariant
            i <= n,
            n == table@.len() / 2,
            table@.len() <= usize::MAX,
            table@ == old(table)@,
            out@ == folded_high(table@, c).take(i as int),
        decreases n - i,
    {
        let lo: F = table[i];
        out.push(lo.add(c.mul(table[i + n].sub(lo))));
        i = i + 1;
    }
    assert(folded_high(table@, c).take(n as int) =~= folded_high(table@, c));
    *table = out;
}

/// At a vertex of the hypercube a multilinear polynomial has the entry of its table with the
/// coordinates of the vertex as the bits of its index, the lowest first.
pub proof fn law_evaluation_at_vertex<F: Ring>(table: Seq<F>, point: Seq<F>, i: int)
    requires
        table.len() == pow2(point.len()),
        0 <= i < table.len(),
        forall|k: int|
            0 <= k < point.len() ==> #[trigger] point[k] == if (i / pow2(k as nat) as int) % 2 == 1 {
                F::one_spec()
            } else {
                F::zero_spec()
            },
    ensures
        evaluation(table, point) == table[i],
    decreases point.len(),
{
    lemma2_to64();
    if point.len() == 0 {
        assert(eq_table(point) =~= seq![F::one_spec()]);
        let products = pointwise_times(table, eq_table(point));
        assert(products.drop_last() =~= Seq::<F>::empty());
        assert(sum(Seq::<F>::empty()) == F::zero_spec());
        F::law_times_one(table[0]);
        lemma_zero_plus(table[0]);
    } else {
        let c = point[0];
        let rest = point.skip(1);
        let folded = folded_low(table, c);
        lemma_pow2_unfold(point.len());
        assert(seq![c] + rest =~= point);
        law_fold_low_evaluates(table, c, rest);
        assert forall|k: int| 0 <= k < rest.len() implies #[trigger] rest[k] == if ((i / 2) / pow2(
            k as nat,
        ) as int) % 2 == 1 {
            F::one_spec()
        } else {
            F::zero_spec()
        } by {
            lemma_pow2_unfold((k + 1) as nat);
            vstd::arithmetic::power2::lemma_pow2_pos(k as nat);
            vstd::arithmetic::div_mod::lemma_div_denominator(i, 2, pow2(k as nat) as int);
            assert(2 * pow2(k as nat) == pow2((k + 1) as nat));
            assert(point[k + 1] == rest[k]);
        }
        law_evaluation_at_vertex(folded, rest, i / 2);
        let (lo, hi) = (table[2 * (i / 2)], table[2 * (i / 2) + 1]);
        assert(folded[i / 2] == interpolated(lo, hi, c));
        lemma_interpolated(lo, hi, c);
        assert(i / 1 == i);
        assert(point[0] == if (i / pow2(0) as int) % 2 == 1 {
            F::one_spec()
        } else {
            F::zero_spec()
        });
        let (zero, one) = (F::zero_spec(), F::one_spec());
        lemma_minus_self(one);
        lemma_times_zero(lo);
        lemma_times_zero(hi);
        lemma_one_times(lo);
        lemma_one_times(hi);
        lemma_zero_plus(hi);
        F::law_plus_zero(lo);
        F::law_minus(one, zero);
        F::law_plus_zero(one.minus(zero));
    }
}

} // verus!
