//! Polynomials over fields of characteristic two, given by their coefficients from the constant one
//! upwards.

use vstd::prelude::*;

use crate::field::{
    lemma_no_zero_divisors, lemma_plus_exchange, lemma_plus_times, lemma_times_zero,
    lemma_zero_plus, BinaryField,
};
use crate::mlecheck::polynomial_at;
use crate::multilinear::{pointwise_plus, scaled};

verus! {

/// Adding coefficients adds values.
pub proof fn law_polynomials_add<F: BinaryField>(a: Seq<F>, b: Seq<F>, x: F)
    requires
        a.len() == b.len(),
    ensures
        polynomial_at(pointwise_plus(a, b), x) == polynomial_at(a, x).plus(polynomial_at(b, x)),
    decreases a.len(),
{
    if a.len() == 0 {
        F::law_plus_zero(F::zero_spec());
    } else {
        let (p, q) = (a.skip(1), b.skip(1));
        law_polynomials_add(p, q, x);
        assert(pointwise_plus(a, b).skip(1) =~= pointwise_plus(p, q));
        F::law_distributes(x, polynomial_at(p, x), polynomial_at(q, x));
        lemma_plus_exchange(
            a[0],
            b[0],
            x.times(polynomial_at(p, x)),
            x.times(polynomial_at(q, x)),
        );
    }
}

/// Scaling coefficients scales values.
pub proof fn law_polynomials_scale<F: BinaryField>(k: F, a: Seq<F>, x: F)
    ensures
        polynomial_at(scaled(k, a), x) == k.times(polynomial_at(a, x)),
    decreases a.len(),
{
    if a.len() == 0 {
        lemma_times_zero(k);
    } else {
        let p = a.skip(1);
        law_polynomials_scale(k, p, x);
        assert(scaled(k, a).skip(1) =~= scaled(k, p));
        let v = polynomial_at(p, x);
        F::law_distributes(k, a[0], x.times(v));
        F::law_times_associates(k, x, v);
        F::law_times_associates(x, k, v);
        F::law_times_commutes(k, x);
    }
}

/// A leading zero changes nothing.
proof fn lemma_leading_zero<F: BinaryField>(a: Seq<F>, x: F)
    ensures
        polynomial_at(a.push(F::zero_spec()), x) == polynomial_at(a, x),
    decreases a.len(),
{
    let z = F::zero_spec();
    let longer = a.push(z);
    if a.len() == 0 {
        assert(longer.skip(1) =~= Seq::<F>::empty());
        assert(polynomial_at(Seq::<F>::empty(), x) == z);
        assert(polynomial_at(longer, x) == z.plus(x.times(z)));
        lemma_times_zero(x);
        F::law_plus_zero(z);
    } else {
        lemma_leading_zero(a.skip(1), x);
        assert(longer.skip(1) =~= a.skip(1).push(z));
    }
}

/// Leading zeros change nothing.
pub proof fn lemma_padded<F: BinaryField>(a: Seq<F>, n: nat) -> (b: Seq<F>)
    requires
        a.len() <= n,
    ensures
        b.len() == n,
        forall|x: F| #[trigger] polynomial_at(b, x) == polynomial_at(a, x),
    decreases n,
{
    if a.len() == n {
        a
    } else {
        let before = lemma_padded(a, (n - 1) as nat);
        let b = before.push(F::zero_spec());
        assert forall|x: F| #[trigger] polynomial_at(b, x) == polynomial_at(a, x) by {
            lemma_leading_zero(before, x);
            assert(polynomial_at(before, x) == polynomial_at(a, x));
        }
        b
    }
}

/// The product of a polynomial and `x + r`.
pub proof fn lemma_times_linear<F: BinaryField>(a: Seq<F>, r: F) -> (b: Seq<F>)
    ensures
        b.len() == a.len() + 1,
        forall|x: F| #[trigger] polynomial_at(b, x) == polynomial_at(a, x).times(x.plus(r)),
{
    let z = F::zero_spec();
    let shifted = seq![z] + a;
    let rest = scaled(r, a).push(z);
    let b = pointwise_plus(shifted, rest);
    assert forall|x: F| #[trigger] polynomial_at(b, x) == polynomial_at(a, x).times(x.plus(r)) by {
        let v = polynomial_at(a, x);
        law_polynomials_add(shifted, rest, x);
        assert(shifted.skip(1) =~= a);
        lemma_zero_plus(x.times(v));
        lemma_leading_zero(scaled(r, a), x);
        law_polynomials_scale(r, a, x);
        F::law_times_commutes(x, v);
        F::law_times_commutes(r, v);
        F::law_distributes(v, x, r);
    }
    b
}

/// A polynomial is its value at `r` and a multiple of `x + r`.
pub proof fn lemma_divided<F: BinaryField>(a: Seq<F>, r: F) -> (q: Seq<F>)
    requires
        a.len() > 0,
    ensures
        q.len() == a.len() - 1,
        forall|x: F| #[trigger]
            polynomial_at(a, x) == polynomial_at(a, r).plus(
                x.plus(r).times(polynomial_at(q, x)),
            ),
    decreases a.len(),
{
    let p = a.skip(1);
    let z = F::zero_spec();
    if p.len() == 0 {
        let q = Seq::<F>::empty();
        assert forall|x: F| #[trigger]
            polynomial_at(a, x) == polynomial_at(a, r).plus(
                x.plus(r).times(polynomial_at(q, x)),
            ) by {
            assert(polynomial_at(p, x) == z && polynomial_at(p, r) == z);
            assert(polynomial_at(q, x) == z);
            lemma_times_zero(x);
            lemma_times_zero(r);
            lemma_times_zero(x.plus(r));
            F::law_plus_zero(a[0]);
        }
        q
    } else {
        let rest = lemma_divided(p, r);
        let at_r = polynomial_at(p, r);
        let q = seq![at_r] + rest;
        assert forall|x: F| #[trigger]
            polynomial_at(a, x) == polynomial_at(a, r).plus(
                x.plus(r).times(polynomial_at(q, x)),
            ) by {
            assert(q.skip(1) =~= rest);
            let (d, w) = (x.plus(r), polynomial_at(rest, x));
            assert(polynomial_at(p, x) == at_r.plus(d.times(w)));
            // x * p(x) = x * p(r) + (x + r) * x * w
            F::law_distributes(x, at_r, d.times(w));
            F::law_times_associates(x, d, w);
            F::law_times_commutes(x, d);
            F::law_times_associates(d, x, w);
            // (x + r) * (p(r) + x * w) = x * p(r) + r * p(r) + (x + r) * x * w
            F::law_distributes(d, at_r, x.times(w));
            lemma_plus_times(x, r, at_r);
            let (xa, ra, t) = (x.times(at_r), r.times(at_r), d.times(x.times(w)));
            // c + r * p(r) + (x * p(r) + r * p(r) + t) = c + x * p(r) + t
            lemma_rearranged(a[0], ra, xa, t);
        }
        q
    }
}

/// Two equal terms cancel.
proof fn lemma_rearranged<F: BinaryField>(c: F, ra: F, xa: F, t: F)
    ensures
        c.plus(ra).plus(xa.plus(ra).plus(t)) == c.plus(xa.plus(t)),
{
    let z = F::zero_spec();
    F::law_plus_associates(c, ra, xa.plus(ra).plus(t));
    F::law_plus_commutes(xa, ra);
    F::law_plus_associates(ra, xa, t);
    F::law_plus_associates(ra, ra, xa.plus(t));
    F::law_characteristic_two(ra);
    lemma_zero_plus(xa.plus(t));
}

/// A polynomial with no more coefficients than it has roots is zero everywhere.
pub proof fn law_too_many_roots<F: BinaryField>(a: Seq<F>, roots: Seq<F>, x: F)
    requires
        a.len() <= roots.len(),
        forall|i: int, j: int|
            0 <= i < j < roots.len() ==> #[trigger] roots[i] != #[trigger] roots[j],
        forall|i: int| 0 <= i < roots.len() ==> polynomial_at(a, #[trigger] roots[i])
            == F::zero_spec(),
    ensures
        polynomial_at(a, x) == F::zero_spec(),
    decreases a.len(),
{
    let z = F::zero_spec();
    if a.len() > 0 {
        let r = roots[0];
        let others = roots.skip(1);
        let q = lemma_divided(a, r);
        assert forall|i: int, j: int| 0 <= i < j < others.len() implies #[trigger] others[i]
            != #[trigger] others[j] by {
            assert(roots[i + 1] != roots[j + 1]);
        }
        assert forall|i: int| 0 <= i < others.len() implies polynomial_at(q, #[trigger] others[i])
            == z by {
            let s = others[i];
            assert(roots[0] != roots[i + 1]);
            assert(polynomial_at(a, roots[i + 1]) == z);
            lemma_zero_plus(s.plus(r).times(polynomial_at(q, s)));
            assert(polynomial_at(a, s) == s.plus(r).times(polynomial_at(q, s)));
            if s.plus(r) == z {
                F::law_plus_associates(s, r, r);
                F::law_characteristic_two(r);
                F::law_plus_zero(s);
                lemma_zero_plus(r);
            }
            if polynomial_at(q, s) != z {
                lemma_no_zero_divisors(s.plus(r), polynomial_at(q, s));
            }
        }
        law_too_many_roots(q, others, x);
        assert(polynomial_at(a, x) == z.plus(x.plus(r).times(z)));
        lemma_times_zero(x.plus(r));
        F::law_plus_zero(z);
    }
}

/// Two polynomials with as many coefficients as there are points where they agree are equal
/// everywhere.
pub proof fn law_polynomials_agree<F: BinaryField>(
    a: Seq<F>,
    b: Seq<F>,
    points: Seq<F>,
    x: F,
)
    requires
        a.len() == b.len(),
        a.len() <= points.len(),
        forall|i: int, j: int|
            0 <= i < j < points.len() ==> #[trigger] points[i] != #[trigger] points[j],
        forall|i: int| 0 <= i < points.len() ==> polynomial_at(a, #[trigger] points[i])
            == polynomial_at(b, points[i]),
    ensures
        polynomial_at(a, x) == polynomial_at(b, x),
{
    let z = F::zero_spec();
    let d = pointwise_plus(a, b);
    assert forall|i: int| 0 <= i < points.len() implies polynomial_at(d, #[trigger] points[i])
        == z by {
        law_polynomials_add(a, b, points[i]);
        F::law_characteristic_two(polynomial_at(a, points[i]));
    }
    law_too_many_roots(d, points, x);
    law_polynomials_add(a, b, x);
    let (u, v) = (polynomial_at(a, x), polynomial_at(b, x));
    F::law_plus_associates(u, v, v);
    F::law_characteristic_two(v);
    F::law_plus_zero(u);
    lemma_zero_plus(v);
}

} // verus!
