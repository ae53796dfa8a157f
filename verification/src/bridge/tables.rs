//! Tables of elements of the prime field and their multilinear extensions.
//!
//! The contracts speak of the tables over the integers that the residues of the elements make, and
//! reduce at the end.

use vstd::arithmetic::power::{lemma_pow0, lemma_pow_adds, lemma_pow1, pow};
use vstd::arithmetic::power2::pow2;
use vstd::prelude::*;

use super::fp128::{
    congruent, lemma_congruent, lemma_congruent_to_residue, lemma_modulus, lemma_residue_of_small,
    residue, residues, Fp128,
};
use crate::field::Ring;
use crate::multilinear::{
    dot, eq_table, evaluation, folded_low, interpolated, lemma_eq_table_len, lemma_dot_commutes,
    lemma_dot_scaled, lemma_sum_concat, lemma_sum_take, pointwise_times, scaled, sum,
};

verus! {

/// The residues of the integers of a sequence.
pub open spec fn reduced(s: Seq<int>) -> Seq<int> {
    Seq::new(s.len(), |i: int| residue(s[i]))
}

/// Whether two sequences are congruent element by element.
pub open spec fn all_congruent(a: Seq<int>, b: Seq<int>) -> bool {
    &&& a.len() == b.len()
    &&& forall|i: int| 0 <= i < a.len() ==> #[trigger] congruent(a[i], b[i])
}

/// Reducing a sequence keeps the residue classes.
pub proof fn lemma_reduced(x: Seq<int>)
    ensures
        all_congruent(reduced(x), x),
{
    assert forall|i: int| 0 <= i < x.len() implies #[trigger] congruent(reduced(x)[i], x[i]) by {
        lemma_congruent_to_residue(x[i]);
    }
}

/// Congruent sequences have congruent sums.
pub proof fn lemma_sum_congruent(a: Seq<int>, b: Seq<int>)
    requires
        all_congruent(a, b),
    ensures
        congruent(sum(a), sum(b)),
    decreases a.len(),
{
    if a.len() > 0 {
        let (c, d) = (a.drop_last(), b.drop_last());
        assert forall|i: int| 0 <= i < c.len() implies #[trigger] congruent(c[i], d[i]) by {
            assert(congruent(a[i], b[i]));
        }
        lemma_sum_congruent(c, d);
        assert(congruent(a[a.len() - 1], b[a.len() - 1]));
        lemma_congruent(sum(c), a.last(), sum(d), b.last());
    }
}

/// Congruent sequences have congruent inner products.
pub proof fn lemma_dot_congruent(a: Seq<int>, b: Seq<int>, c: Seq<int>, d: Seq<int>)
    requires
        all_congruent(a, c),
        all_congruent(b, d),
        a.len() == b.len(),
    ensures
        congruent(dot(a, b), dot(c, d)),
{
    let (p, q) = (pointwise_times(a, b), pointwise_times(c, d));
    assert forall|i: int| 0 <= i < p.len() implies #[trigger] congruent(p[i], q[i]) by {
        assert(congruent(a[i], c[i]) && congruent(b[i], d[i]));
        lemma_congruent(a[i], b[i], c[i], d[i]);
    }
    lemma_sum_congruent(p, q);
}

/// Lines through congruent values have congruent values.
pub proof fn lemma_interpolated_congruent(lo: int, hi: int, x: int, a: int, b: int, y: int)
    requires
        congruent(lo, a),
        congruent(hi, b),
        congruent(x, y),
    ensures
        congruent(interpolated(lo, hi, x), interpolated(a, b, y)),
{
    lemma_congruent(hi, lo, b, a);
    lemma_congruent(x, hi - lo, y, b - a);
    lemma_congruent(lo, x * (hi - lo), a, y * (b - a));
}

/// Congruent tables fold to congruent tables.
pub proof fn lemma_fold_congruent(a: Seq<int>, b: Seq<int>, x: int, y: int)
    requires
        all_congruent(a, b),
        congruent(x, y),
    ensures
        all_congruent(folded_low(a, x), folded_low(b, y)),
{
    let (c, d) = (folded_low(a, x), folded_low(b, y));
    assert forall|i: int| 0 <= i < c.len() implies #[trigger] congruent(c[i], d[i]) by {
        assert(congruent(a[2 * i], b[2 * i]) && congruent(a[2 * i + 1], b[2 * i + 1]));
        lemma_interpolated_congruent(a[2 * i], a[2 * i + 1], x, b[2 * i], b[2 * i + 1], y);
    }
}

/// Returns a copy of a table.
pub fn copy_table(table: &[Fp128]) -> (r: Vec<Fp128>)
    ensures
        r@ == table@,
{
    let mut out: Vec<Fp128> = Vec::with_capacity(table.len());
    let mut i: usize = 0;
    while i < table.len()
        invariant
            i <= table@.len(),
            out@ == table@.take(i as int),
        decreases table@.len() - i,
    {
        out.push(table[i]);
        i = i + 1;
    }
    assert(table@.take(i as int) =~= table@);
    out
}

/// Fixes the lowest variable of a table to a challenge.
pub fn fold_evals(evals: &mut Vec<Fp128>, challenge: Fp128)
    ensures
        residues(final(evals)@) == reduced(folded_low(residues(old(evals)@), challenge@)),
{
    let half: usize = evals.len() / 2;
    let mut out: Vec<Fp128> = Vec::with_capacity(half);
    let ghost table = residues(evals@);
    let ghost folded = folded_low(table, challenge@);
    let mut i: usize = 0;
    while i < half
        invariant
            i <= half,
            half == evals@.len() / 2,
            evals@.len() <= usize::MAX,
            evals@ == old(evals)@,
            table == residues(evals@),
            folded == folded_low(table, challenge@),
            out@.len() == i,
            forall|k: int| 0 <= k < i ==> (#[trigger] out@[k])@ == residue(folded[k]),
        decreases half - i,
    {
        let lo: Fp128 = evals[2 * i];
        let hi: Fp128 = evals[2 * i + 1];
        let delta: Fp128 = hi.sub(lo);
        let step: Fp128 = challenge.mul(delta);
        proof {
            lemma_congruent_to_residue(hi@ - lo@);
            lemma_congruent(challenge@, delta@, challenge@, hi@ - lo@);
            lemma_congruent_to_residue(challenge@ * delta@);
            lemma_congruent(lo@, step@, lo@, challenge@ * (hi@ - lo@));
        }
        out.push(lo.add(step));
        i = i + 1;
    }
    *evals = out;
    assert(residues(evals@) =~= reduced(folded));
}

/// Returns the equality indicator of a point on all vertices of the hypercube.
pub fn multilinear_eq_evals(point: &[Fp128]) -> (r: Vec<Fp128>)
    requires
        pow2(point@.len()) <= usize::MAX,
    ensures
        residues(r@) == reduced(eq_table(residues(point@))),
        r@.len() == pow2(point@.len()),
{
    let mut evals: Vec<Fp128> = Vec::new();
    evals.push(Fp128::from_u64(1));
    let ghost all = residues(point@);
    proof {
        lemma_modulus();
        lemma_residue_of_small(1);
        assert(all.take(0) =~= Seq::<int>::empty());
        assert(residues(evals@) =~= reduced(eq_table(all.take(0))));
    }
    let mut k: usize = 0;
    while k < point.len()
        invariant
            k <= point@.len(),
            all == residues(point@),
            residues(evals@) == reduced(eq_table(all.take(k as int))),
        decreases point@.len() - k,
    {
        let c: Fp128 = point[k];
        let m: Fp128 = Fp128::from_u64(1).sub(c);
        let ghost table = eq_table(all.take(k as int));
        let ghost low_half = scaled(1 - c@, table);
        let ghost high_half = scaled(c@, table);
        let n: usize = evals.len();
        let mut low: Vec<Fp128> = Vec::with_capacity(n);
        let mut high: Vec<Fp128> = Vec::with_capacity(n);
        let mut i: usize = 0;
        proof {
            assert(residues(evals@).len() == reduced(table).len());
            lemma_congruent_to_residue(1 - c@);
        }
        while i < n
            invariant
                i <= n,
                n == evals@.len(),
                n == table.len(),
                residues(evals@) == reduced(table),
                congruent(m@, 1 - c@),
                low_half == scaled(1 - c@, table),
                high_half == scaled(c@, table),
                low@.len() == i,
                high@.len() == i,
                forall|j: int| 0 <= j < i ==> (#[trigger] low@[j])@ == residue(low_half[j]),
                forall|j: int| 0 <= j < i ==> (#[trigger] high@[j])@ == residue(high_half[j]),
            decreases n - i,
        {
            proof {
                assert(residues(evals@)[i as int] == reduced(table)[i as int]);
                lemma_congruent_to_residue(table[i as int]);
                lemma_congruent(m@, evals@[i as int]@, 1 - c@, table[i as int]);
                lemma_congruent(c@, evals@[i as int]@, c@, table[i as int]);
            }
            low.push(m.mul(evals[i]));
            high.push(c.mul(evals[i]));
            i = i + 1;
        }
        proof {
            assert(residues(evals@).len() == reduced(table).len());
            assert(all.take(k + 1).drop_last() =~= all.take(k as int));
        }
        low.append(&mut high);
        evals = low;
        k = k + 1;
        assert(residues(evals@) =~= reduced(eq_table(all.take(k as int))));
    }
    proof {
        assert(all.take(k as int) =~= all);
        lemma_eq_table_len(all);
        assert(residues(evals@).len() == reduced(eq_table(all)).len());
    }
    evals
}

/// The first powers of an integer.
pub open spec fn first_powers(x: int, n: nat) -> Seq<int> {
    Seq::new(n, |i: int| pow(x, i as nat))
}

/// Returns the first powers of an element.
pub fn powers(base: Fp128, len: usize) -> (r: Vec<Fp128>)
    ensures
        residues(r@) == reduced(first_powers(base@, len as nat)),
{
    let mut out: Vec<Fp128> = Vec::with_capacity(len);
    let mut current: Fp128 = Fp128::from_u64(1);
    let mut k: usize = 0;
    proof {
        lemma_pow0(base@);
        lemma_modulus();
        lemma_residue_of_small(1);
    }
    while k < len
        invariant
            k <= len,
            current@ == residue(pow(base@, k as nat)),
            out@.len() == k,
            forall|j: int| 0 <= j < k ==> (#[trigger] out@[j])@ == residue(pow(base@, j as nat)),
        decreases len - k,
    {
        out.push(current);
        proof {
            lemma_pow_adds(base@, k as nat, 1);
            lemma_pow1(base@);
            lemma_congruent_to_residue(pow(base@, k as nat));
            lemma_congruent(current@, base@, pow(base@, k as nat), base@);
        }
        current = current.mul(base);
        k = k + 1;
    }
    assert(residues(out@) =~= reduced(first_powers(base@, len as nat)));
    out
}

/// Returns the inner product of two tables of the same length.
pub fn table_product(a: &[Fp128], b: &[Fp128]) -> (r: Fp128)
    requires
        a@.len() == b@.len(),
    ensures
        r@ == residue(dot(residues(a@), residues(b@))),
{
    let mut acc: Fp128 = Fp128::from_u64(0);
    let ghost terms = pointwise_times(residues(a@), residues(b@));
    proof {
        lemma_modulus();
        lemma_residue_of_small(0);
    }
    let mut i: usize = 0;
    while i < a.len()
        invariant
            a@.len() == b@.len(),
            i <= a@.len(),
            terms == pointwise_times(residues(a@), residues(b@)),
            acc@ == residue(sum(terms.take(i as int))),
        decreases a@.len() - i,
    {
        let term: Fp128 = a[i].mul(b[i]);
        proof {
            lemma_sum_take(terms, i as int);
            lemma_congruent_to_residue(terms[i as int]);
            lemma_congruent_to_residue(sum(terms.take(i as int)));
            lemma_congruent(acc@, term@, sum(terms.take(i as int)), terms[i as int]);
        }
        acc = acc.add(term);
        i = i + 1;
    }
    assert(terms.take(i as int) =~= terms);
    acc
}

/// The product of the values of the equality indicator in each coordinate.
pub open spec fn eq_product(left: Seq<int>, right: Seq<int>) -> int
    decreases left.len(),
{
    if left.len() == 0 {
        1
    } else {
        let (a, b) = (left.last(), right.last());
        eq_product(left.drop_last(), right.drop_last()) * ((1 - a) * (1 - b) + a * b)
    }
}

/// The equality polynomial of two points is the multilinear extension of the indicator of one of
/// them, evaluated at the other.
pub proof fn law_eq_product_evaluates_indicator(left: Seq<int>, right: Seq<int>)
    requires
        left.len() == right.len(),
    ensures
        evaluation(eq_table(left), right) == eq_product(left, right),
    decreases left.len(),
{
    lemma_eq_table_len(left);
    lemma_eq_table_len(right);
    if left.len() == 0 {
        assert(pointwise_times(eq_table(left), eq_table(right)) =~= seq![1int]);
        assert(seq![1int].drop_last() =~= Seq::<int>::empty());
        assert(sum(Seq::<int>::empty()) == 0);
    } else {
        let (ls, rs) = (left.drop_last(), right.drop_last());
        let (a, b) = (left.last(), right.last());
        law_eq_product_evaluates_indicator(ls, rs);
        lemma_eq_table_len(ls);
        lemma_eq_table_len(rs);
        let (t, u) = (eq_table(ls), eq_table(rs));
        let (t0, t1) = (scaled(1 - a, t), scaled(a, t));
        let (u0, u1) = (scaled(1 - b, u), scaled(b, u));
        assert(pointwise_times(t0 + t1, u0 + u1) =~= pointwise_times(t0, u0) + pointwise_times(
            t1,
            u1,
        ));
        lemma_sum_concat(pointwise_times(t0, u0), pointwise_times(t1, u1));
        lemma_dot_scaled(1 - a, t, u0);
        lemma_dot_scaled(a, t, u1);
        lemma_dot_commutes(t, u0);
        lemma_dot_commutes(t, u1);
        lemma_dot_scaled(1 - b, u, t);
        lemma_dot_scaled(b, u, t);
        lemma_dot_commutes(u, t);
        let d = dot(t, u);
        assert((1 - a) * ((1 - b) * d) + a * (b * d) == d * ((1 - a) * (1 - b) + a * b))
            by (nonlinear_arith);
    }
}

/// Evaluate the multilinear equality polynomial, if the two points have the same length.
pub fn evaluate_akita_eq(left: &[Fp128], right: &[Fp128]) -> (r: Option<Fp128>)
    ensures
        match r {
            Some(e) => left@.len() == right@.len() && e@ == residue(
                eq_product(residues(left@), residues(right@)),
            ),
            None => left@.len() != right@.len(),
        },
{
    if left.len() != right.len() {
        return None;
    }
    let one: Fp128 = Fp128::from_u64(1);
    let mut acc: Fp128 = one;
    let ghost (ls, rs) = (residues(left@), residues(right@));
    proof {
        lemma_modulus();
        lemma_residue_of_small(1);
    }
    let mut i: usize = 0;
    while i < left.len()
        invariant
            i <= left@.len(),
            left@.len() == right@.len(),
            one@ == 1,
            ls == residues(left@),
            rs == residues(right@),
            acc@ == residue(eq_product(ls.take(i as int), rs.take(i as int))),
        decreases left@.len() - i,
    {
        let (a, b) = (left[i], right[i]);
        let na: Fp128 = one.sub(a);
        let nb: Fp128 = one.sub(b);
        let clear: Fp128 = na.mul(nb);
        let set: Fp128 = a.mul(b);
        let both: Fp128 = clear.add(set);
        proof {
            let so_far = eq_product(ls.take(i as int), rs.take(i as int));
            assert(ls.take(i + 1).drop_last() =~= ls.take(i as int));
            assert(rs.take(i + 1).drop_last() =~= rs.take(i as int));
            lemma_congruent_to_residue(1 - a@);
            lemma_congruent_to_residue(1 - b@);
            lemma_congruent(na@, nb@, 1 - a@, 1 - b@);
            lemma_congruent_to_residue(na@ * nb@);
            lemma_congruent_to_residue(a@ * b@);
            lemma_congruent(clear@, set@, (1 - a@) * (1 - b@), a@ * b@);
            lemma_congruent_to_residue(clear@ + set@);
            lemma_congruent_to_residue(so_far);
            lemma_congruent(acc@, both@, so_far, (1 - a@) * (1 - b@) + a@ * b@);
        }
        acc = acc.mul(both);
        i = i + 1;
    }
    assert(ls.take(i as int) =~= ls);
    assert(rs.take(i as int) =~= rs);
    Some(acc)
}

} // verus!
