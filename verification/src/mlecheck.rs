//! Round polynomials and prover state of a multilinear check: a sumcheck for the evaluation of a
//! composition of multilinear tables at a point, which fixes the variables from the highest to
//! the lowest.

use vstd::arithmetic::power2::{lemma_pow2_unfold, pow2};
use vstd::prelude::*;

use crate::field::{
    inverse_or_zero, lemma_cancel, lemma_inverse, lemma_inverse_is_unique, lemma_minus_exchange,
    lemma_minus_self, lemma_minus_unique, lemma_one_times, lemma_plus_exchange, lemma_plus_times,
    lemma_times_minus, lemma_times_zero, lemma_zero_plus, Field,
};
use crate::multilinear::{
    dot, eq_ind_partial_eval, eq_table, interpolated, lemma_dot_scaled, lemma_eq_table_len,
    lemma_sum_concat, pointwise_times, scaled,
};

verus! {

/// What goes wrong when a prover is asked for a step out of turn.
#[derive(Debug, Clone, Copy, PartialEq, Eq, Structural)]
pub enum SumcheckError {
    /// A round polynomial is pending: its challenge has to be folded in first.
    ExpectedFold,
    /// No round polynomial is pending: it has to be computed first.
    ExpectedExecute,
    /// The tables do not have as many variables as the point.
    MultilinearSizeMismatch,
}

/// The coefficients of a round polynomial, from the constant one upwards.
#[derive(Debug, Clone, PartialEq, Eq)]
pub struct RoundCoeffs<F> {
    pub coeffs: Vec<F>,
}

/// The value at `x` of the polynomial with the given coefficients.
pub open spec fn polynomial_at<F: Field>(coeffs: Seq<F>, x: F) -> F
    decreases coeffs.len(),
{
    if coeffs.len() == 0 {
        F::zero_spec()
    } else {
        coeffs[0].plus(x.times(polynomial_at(coeffs.skip(1), x)))
    }
}

impl<F: Field> RoundCoeffs<F> {
    /// Returns the value of the polynomial at `x`.
    pub fn evaluate(&self, x: F) -> (r: F)
        ensures
            r == polynomial_at(self.coeffs@, x),
    {
        let mut acc: F = F::zero();
        let mut i: usize = self.coeffs.len();
        assert(self.coeffs@.skip(i as int) =~= Seq::<F>::empty());
        while i > 0
            invariant
                i <= self.coeffs@.len(),
                acc == polynomial_at(self.coeffs@.skip(i as int), x),
            decreases i,
        {
            i = i - 1;
            let ghost rest = self.coeffs@.skip(i as int);
            assert(rest.skip(1) =~= self.coeffs@.skip(i + 1));
            acc = self.coeffs[i].add(x.mul(acc));
        }
        assert(self.coeffs@.skip(0) =~= self.coeffs@);
        acc
    }

    /// Returns a copy of the polynomial.
    pub fn copied(&self) -> (r: Self)
        ensures
            r.coeffs@ == self.coeffs@,
    {
        let mut out: Vec<F> = Vec::with_capacity(self.coeffs.len());
        let mut i: usize = 0;
        while i < self.coeffs.len()
            invariant
                i <= self.coeffs@.len(),
                out@ == self.coeffs@.take(i as int),
            decreases self.coeffs@.len() - i,
        {
            out.push(self.coeffs[i]);
            i = i + 1;
        }
        assert(self.coeffs@.take(i as int) =~= self.coeffs@);
        RoundCoeffs { coeffs: out }
    }
}

/// The value at `x` of a polynomial with two coefficients.
pub proof fn lemma_linear_at<F: Field>(c0: F, c1: F, x: F)
    ensures
        polynomial_at(seq![c0, c1], x) == c0.plus(x.times(c1)),
{
    let s = seq![c0, c1];
    assert(s.skip(1) =~= seq![c1]);
    assert(seq![c1].skip(1) =~= Seq::<F>::empty());
    assert(polynomial_at(Seq::<F>::empty(), x) == F::zero_spec());
    assert(polynomial_at(seq![c1], x) == c1.plus(x.times(F::zero_spec())));
    lemma_times_zero(x);
    F::law_plus_zero(c1);
}

/// The value at `x` of a polynomial with three coefficients.
pub proof fn lemma_quadratic_at<F: Field>(c0: F, c1: F, c2: F, x: F)
    ensures
        polynomial_at(seq![c0, c1, c2], x) == c0.plus(x.times(c1.plus(x.times(c2)))),
{
    let s = seq![c0, c1, c2];
    assert(s.skip(1) =~= seq![c1, c2]);
    lemma_linear_at(c1, c2, x);
}

/// Either a pending round polynomial or the claim that the next one has to meet.
#[derive(Debug, Clone, PartialEq, Eq)]
pub enum RoundCoeffsOrEval<F> {
    Coeffs(RoundCoeffs<F>),
    Eval(F),
}

/// The coordinates of the evaluation point that are still open, from the lowest on.
#[derive(Debug, Clone, PartialEq, Eq)]
pub struct EvalPoint<F> {
    pub coordinates: Vec<F>,
}

impl<F: Field> EvalPoint<F> {
    /// Returns the number of coordinates that are still open.
    pub fn n_vars_remaining(&self) -> (r: usize)
        ensures
            r == self.coordinates@.len(),
    {
        self.coordinates.len()
    }

    /// Returns the coordinate of the variable that the next round fixes.
    pub fn next_coordinate(&self) -> (r: F)
        requires
            self.coordinates@.len() > 0,
        ensures
            r == self.coordinates@.last(),
    {
        self.coordinates[self.coordinates.len() - 1]
    }

    /// Returns the equality indicator of the coordinates below the next one.
    pub fn eq_expansion(&self) -> (r: Vec<F>)
        requires
            self.coordinates@.len() > 0,
            pow2(self.coordinates@.len()) <= usize::MAX,
        ensures
            r@ == eq_table(self.coordinates@.drop_last()),
            r@.len() == pow2((self.coordinates@.len() - 1) as nat),
    {
        let n: usize = self.coordinates.len() - 1;
        let mut low: Vec<F> = Vec::with_capacity(n);
        let mut i: usize = 0;
        while i < n
            invariant
                i <= n,
                n < self.coordinates@.len(),
                low@ == self.coordinates@.take(i as int),
            decreases n - i,
        {
            low.push(self.coordinates[i]);
            i = i + 1;
        }
        assert(self.coordinates@.take(n as int) =~= self.coordinates@.drop_last());
        proof {
            lemma_pow2_unfold(self.coordinates@.len());
        }
        eq_ind_partial_eval(low.as_slice())
    }

    /// Drops the coordinate of the variable that has been fixed.
    pub fn fold(&mut self)
        requires
            old(self).coordinates@.len() > 0,
        ensures
            final(self).coordinates@ == old(self).coordinates@.drop_last(),
    {
        let last = self.coordinates.pop();
        assert(self.coordinates@ =~= old(self).coordinates@.drop_last());
    }
}

/// The value at zero of a round polynomial with value `y_1` at one, for which the two values with
/// the weights `1 - alpha` and `alpha` add up to `claim`.
pub open spec fn value_at_zero<F: Field>(claim: F, alpha: F, y_1: F) -> F {
    claim.minus(y_1.times(alpha)).times(inverse_or_zero(F::one_spec().minus(alpha)))
}

/// The coefficients of the quadratic polynomial with the given value at one and leading
/// coefficient whose values at zero and one meet the claim.
pub open spec fn quadratic_coeffs<F: Field>(claim: F, alpha: F, y_1: F, y_inf: F) -> Seq<F> {
    let c_0 = value_at_zero(claim, alpha, y_1);
    seq![c_0, y_1.minus(c_0).minus(y_inf), y_inf]
}

/// The coefficients of the linear polynomial with the given value at one whose values at zero and
/// one meet the claim.
pub open spec fn linear_coeffs<F: Field>(claim: F, alpha: F, y_1: F) -> Seq<F> {
    let c_0 = value_at_zero(claim, alpha, y_1);
    seq![c_0, y_1.minus(c_0)]
}

fn solve_value_at_zero<F: Field>(claim: F, alpha: F, y_1: F) -> (r: F)
    ensures
        r == value_at_zero(claim, alpha, y_1),
{
    let divisor: F = F::one().sub(alpha);
    let inverse: F = divisor.invert_or_zero();
    proof {
        if divisor != F::zero_spec() {
            lemma_inverse_is_unique(divisor, inverse);
        }
    }
    claim.sub(y_1.mul(alpha)).mul(inverse)
}

/// Returns the quadratic round polynomial with the given value at one and leading coefficient
/// whose values at zero and one meet the claim.
pub fn interpolate_round_coeffs<F: Field>(sum: F, alpha: F, y_1: F, y_inf: F) -> (r: RoundCoeffs<F>)
    ensures
        r.coeffs@ == quadratic_coeffs(sum, alpha, y_1, y_inf),
{
    let c_0: F = solve_value_at_zero(sum, alpha, y_1);
    let c_2: F = y_inf;
    let c_1: F = y_1.sub(c_0).sub(c_2);
    let mut coeffs: Vec<F> = Vec::with_capacity(3);
    coeffs.push(c_0);
    coeffs.push(c_1);
    coeffs.push(c_2);
    assert(coeffs@ =~= quadratic_coeffs(sum, alpha, y_1, y_inf));
    RoundCoeffs { coeffs }
}

/// Returns the linear round polynomial with the given value at one whose values at zero and one
/// meet the claim.
pub fn linear_round_coeffs<F: Field>(claim: F, alpha: F, y_1: F) -> (r: RoundCoeffs<F>)
    ensures
        r.coeffs@ == linear_coeffs(claim, alpha, y_1),
{
    let c_0: F = solve_value_at_zero(claim, alpha, y_1);
    let mut coeffs: Vec<F> = Vec::with_capacity(2);
    coeffs.push(c_0);
    coeffs.push(y_1.sub(c_0));
    assert(coeffs@ =~= linear_coeffs(claim, alpha, y_1));
    RoundCoeffs { coeffs }
}

/// The two values that a claim mixes: `(1 - alpha) * y_0 + alpha * y_1`.
pub open spec fn mixed<F: Field>(alpha: F, y_0: F, y_1: F) -> F {
    F::one_spec().minus(alpha).times(y_0).plus(alpha.times(y_1))
}

/// Where `alpha` is not one, the value at zero is determined by the claim and the value at one.
pub proof fn law_value_at_zero<F: Field>(alpha: F, y_0: F, y_1: F)
    requires
        alpha != F::one_spec(),
    ensures
        value_at_zero(mixed(alpha, y_0, y_1), alpha, y_1) == y_0,
{
    let m = F::one_spec().minus(alpha);
    F::law_minus(F::one_spec(), alpha);
    if m == F::zero_spec() {
        lemma_zero_plus(alpha);
    }
    let a = m.times(y_0);
    let b = alpha.times(y_1);
    F::law_times_commutes(alpha, y_1);
    // (a + b) - b == a
    F::law_minus(a.plus(b), b);
    F::law_plus_commutes(a.plus(b).minus(b), b);
    F::law_plus_commutes(a, b);
    lemma_cancel(b, a.plus(b).minus(b), a);
    // (m y_0) / m == y_0
    lemma_inverse(m);
    let i = inverse_or_zero(m);
    F::law_times_commutes(m, y_0);
    F::law_times_associates(y_0, m, i);
    F::law_times_one(y_0);
}

/// A round polynomial meets its claim, provided that `alpha` is not one.
pub proof fn law_round_coeffs_meet_claim<F: Field>(claim: F, alpha: F, y_1: F, y_inf: F)
    requires
        alpha != F::one_spec(),
    ensures
        polynomial_at(quadratic_coeffs(claim, alpha, y_1, y_inf), F::one_spec()) == y_1,
        mixed(
            alpha,
            polynomial_at(quadratic_coeffs(claim, alpha, y_1, y_inf), F::zero_spec()),
            polynomial_at(quadratic_coeffs(claim, alpha, y_1, y_inf), F::one_spec()),
        ) == claim,
{
    let one = F::one_spec();
    let z = F::zero_spec();
    let c_0 = value_at_zero(claim, alpha, y_1);
    let c_2 = y_inf;
    let c_1 = y_1.minus(c_0).minus(c_2);
    lemma_quadratic_at(c_0, c_1, c_2, z);
    lemma_quadratic_at(c_0, c_1, c_2, one);
    lemma_times_zero(c_1.plus(z.times(c_2)));
    F::law_plus_zero(c_0);
    lemma_one_times(c_2);
    lemma_one_times(c_1.plus(c_2));
    F::law_minus(y_1.minus(c_0), c_2);
    F::law_minus(y_1, c_0);
    F::law_plus_commutes(c_0, y_1.minus(c_0));
    // (1 - alpha) c_0 == claim - y_1 alpha
    let m = one.minus(alpha);
    F::law_minus(one, alpha);
    if m == z {
        lemma_zero_plus(alpha);
    }
    lemma_inverse(m);
    let i = inverse_or_zero(m);
    let d = claim.minus(y_1.times(alpha));
    F::law_times_commutes(m, d.times(i));
    F::law_times_associates(d, i, m);
    F::law_times_commutes(i, m);
    F::law_times_one(d);
    F::law_times_commutes(alpha, y_1);
    F::law_minus(claim, y_1.times(alpha));
}

/// Weighting the two halves of a table by the equality indicator of a point splits off the
/// highest coordinate.
pub proof fn lemma_dot_splits<F: Field>(low: Seq<F>, high: Seq<F>, point: Seq<F>)
    requires
        point.len() > 0,
        low.len() == pow2((point.len() - 1) as nat),
        high.len() == low.len(),
    ensures
        dot(eq_table(point), low + high) == mixed(
            point.last(),
            dot(eq_table(point.drop_last()), low),
            dot(eq_table(point.drop_last()), high),
        ),
{
    let e = eq_table(point.drop_last());
    let alpha = point.last();
    let m = F::one_spec().minus(alpha);
    lemma_eq_table_len(point.drop_last());
    lemma_eq_table_len(point);
    let (me, ae) = (scaled(m, e), scaled(alpha, e));
    assert(pointwise_times(me + ae, low + high) =~= pointwise_times(me, low) + pointwise_times(
        ae,
        high,
    ));
    lemma_sum_concat(pointwise_times(me, low), pointwise_times(ae, high));
    lemma_dot_scaled(m, e, low);
    lemma_dot_scaled(alpha, e, high);
}

/// The value at `x` of the quadratic polynomial with value `y_0` at zero, value `y_1` at one and
/// leading coefficient `y_inf`.
pub open spec fn quadratic<F: Field>(y_0: F, y_1: F, y_inf: F, x: F) -> F {
    y_0.plus(x.times(y_1.minus(y_0).minus(y_inf).plus(x.times(y_inf))))
}

/// Quadratic polynomials can be added by their three values.
pub proof fn lemma_quadratic_plus<F: Field>(a_0: F, a_1: F, a: F, b_0: F, b_1: F, b: F, x: F)
    ensures
        quadratic(a_0.plus(b_0), a_1.plus(b_1), a.plus(b), x) == quadratic(a_0, a_1, a, x).plus(
            quadratic(b_0, b_1, b, x),
        ),
{
    let p = a_1.minus(a_0).minus(a);
    let q = b_1.minus(b_0).minus(b);
    lemma_minus_exchange(a_1, b_1, a_0, b_0);
    lemma_minus_exchange(a_1.minus(a_0), b_1.minus(b_0), a, b);
    F::law_distributes(x, a, b);
    let (xa, xb) = (x.times(a), x.times(b));
    lemma_plus_exchange(p, q, xa, xb);
    F::law_distributes(x, p.plus(xa), q.plus(xb));
    lemma_plus_exchange(a_0, b_0, x.times(p.plus(xa)), x.times(q.plus(xb)));
}

/// Quadratic polynomials can be scaled by their three values.
pub proof fn lemma_quadratic_times<F: Field>(k: F, y_0: F, y_1: F, y_inf: F, x: F)
    ensures
        quadratic(k.times(y_0), k.times(y_1), k.times(y_inf), x) == k.times(
            quadratic(y_0, y_1, y_inf, x),
        ),
{
    let p = y_1.minus(y_0).minus(y_inf);
    lemma_times_minus(k, y_1, y_0);
    lemma_times_minus(k, y_1.minus(y_0), y_inf);
    lemma_times_swap(x, k, y_inf);
    F::law_distributes(k, p, x.times(y_inf));
    lemma_times_swap(x, k, p.plus(x.times(y_inf)));
    F::law_distributes(k, y_0, x.times(p.plus(x.times(y_inf))));
}

/// Two factors in front can change places.
pub proof fn lemma_times_swap<F: Field>(a: F, b: F, c: F)
    ensures
        a.times(b.times(c)) == b.times(a.times(c)),
{
    F::law_times_associates(a, b, c);
    F::law_times_commutes(a, b);
    F::law_times_associates(b, a, c);
}

/// A line is a quadratic polynomial without leading coefficient.
pub proof fn lemma_line_is_quadratic<F: Field>(lo: F, hi: F, x: F)
    ensures
        interpolated(lo, hi, x) == quadratic(lo, hi, F::zero_spec(), x),
{
    lemma_minus_self(hi.minus(lo));
    lemma_times_zero(x);
    F::law_plus_zero(hi.minus(lo));
}

/// The product of two lines is the quadratic polynomial with the products of their values, and
/// with the product of their slopes as its leading coefficient.
pub proof fn lemma_product_of_lines<F: Field>(b_0: F, b_1: F, c_0: F, c_1: F, x: F)
    ensures
        interpolated(b_0, b_1, x).times(interpolated(c_0, c_1, x)) == quadratic(
            b_0.times(c_0),
            b_1.times(c_1),
            b_1.minus(b_0).times(c_1.minus(c_0)),
            x,
        ),
{
    let (b, c) = (b_1.minus(b_0), c_1.minus(c_0));
    F::law_minus(b_1, b_0);
    F::law_minus(c_1, c_0);
    F::law_plus_commutes(b, b_0);
    F::law_plus_commutes(c, c_0);
    lemma_expand(b_0, b, c_0, c);
    // b_1 c_1 == (b_0 c_0 + b c) + m
    let m = b_0.times(c).plus(b.times(c_0));
    let (p, q) = (b_0.times(c_0), b.times(c));
    // b_1 c_1 == (p + m) + q, so taking p and q away leaves m
    F::law_plus_commutes(p, m);
    F::law_plus_associates(m, p, q);
    F::law_plus_commutes(p, q);
    F::law_plus_associates(m, q, p);
    lemma_minus_unique(b_1.times(c_1), p, m.plus(q));
    lemma_minus_unique(m.plus(q), q, m);
    // and the product of the lines is p + x m + x (x q)
    let (xb, xc) = (x.times(b), x.times(c));
    lemma_expand(b_0, xb, c_0, xc);
    lemma_times_swap(b_0, x, c);
    F::law_times_associates(x, b, c_0);
    F::law_distributes(x, b_0.times(c), b.times(c_0));
    F::law_times_associates(x, b, xc);
    lemma_times_swap(b, x, c);
    F::law_distributes(x, m, x.times(q));
    F::law_plus_associates(p, x.times(m), x.times(x.times(q)));
}

/// The product of two sums.
proof fn lemma_expand<F: Field>(a: F, b: F, c: F, d: F)
    ensures
        a.plus(b).times(c.plus(d)) == a.times(c).plus(a.times(d).plus(b.times(c))).plus(
            b.times(d),
        ),
{
    let (ac, ad, bc, bd) = (a.times(c), a.times(d), b.times(c), b.times(d));
    lemma_plus_times(a, b, c.plus(d));
    F::law_distributes(a, c, d);
    F::law_distributes(b, c, d);
    F::law_plus_associates(ac.plus(ad), bc, bd);
    F::law_plus_associates(ac, ad, bc);
}

/// The values at `x` of quadratic polynomials that are given by sequences of their values.
pub open spec fn quadratics<F: Field>(y_0: Seq<F>, y_1: Seq<F>, y_inf: Seq<F>, x: F) -> Seq<F> {
    Seq::new(y_0.len(), |i: int| quadratic(y_0[i], y_1[i], y_inf[i], x))
}

/// A weighted sum of quadratic polynomials is the quadratic polynomial of the weighted sums.
pub proof fn lemma_dot_quadratics<F: Field>(
    w: Seq<F>,
    y_0: Seq<F>,
    y_1: Seq<F>,
    y_inf: Seq<F>,
    x: F,
)
    requires
        w.len() == y_0.len(),
        w.len() == y_1.len(),
        w.len() == y_inf.len(),
    ensures
        dot(w, quadratics(y_0, y_1, y_inf, x)) == quadratic(
            dot(w, y_0),
            dot(w, y_1),
            dot(w, y_inf),
            x,
        ),
    decreases w.len(),
{
    let all = quadratics(y_0, y_1, y_inf, x);
    if w.len() == 0 {
        let z = F::zero_spec();
        assert(dot(w, all) == z && dot(w, y_0) == z && dot(w, y_1) == z && dot(w, y_inf) == z);
        lemma_line_is_quadratic(z, z, x);
        lemma_minus_self(z);
        lemma_times_zero(x);
        F::law_plus_zero(z);
    } else {
        let v = w.drop_last();
        let (z_0, z_1, z_inf) = (y_0.drop_last(), y_1.drop_last(), y_inf.drop_last());
        lemma_dot_quadratics(v, z_0, z_1, z_inf, x);
        assert(pointwise_times(w, all).drop_last() =~= pointwise_times(
            v,
            quadratics(z_0, z_1, z_inf, x),
        ));
        assert(pointwise_times(w, y_0).drop_last() =~= pointwise_times(v, z_0));
        assert(pointwise_times(w, y_1).drop_last() =~= pointwise_times(v, z_1));
        assert(pointwise_times(w, y_inf).drop_last() =~= pointwise_times(v, z_inf));
        let k = w.last();
        lemma_quadratic_times(k, y_0.last(), y_1.last(), y_inf.last(), x);
        lemma_quadratic_plus(
            dot(v, z_0),
            dot(v, z_1),
            dot(v, z_inf),
            k.times(y_0.last()),
            k.times(y_1.last()),
            k.times(y_inf.last()),
            x,
        );
    }
}

/// The claim that the round polynomial with the given values carries on to the next round is its
/// value at the challenge.
pub proof fn law_quadratic_round_carries_claim<F: Field>(
    alpha: F,
    y_0: F,
    y_1: F,
    y_inf: F,
    challenge: F,
)
    requires
        alpha != F::one_spec(),
    ensures
        polynomial_at(quadratic_coeffs(mixed(alpha, y_0, y_1), alpha, y_1, y_inf), challenge)
            == quadratic(y_0, y_1, y_inf, challenge),
{
    law_value_at_zero(alpha, y_0, y_1);
    lemma_quadratic_at(y_0, y_1.minus(y_0).minus(y_inf), y_inf, challenge);
}

/// The same for a linear round polynomial.
pub proof fn law_linear_round_carries_claim<F: Field>(alpha: F, y_0: F, y_1: F, challenge: F)
    requires
        alpha != F::one_spec(),
    ensures
        polynomial_at(linear_coeffs(mixed(alpha, y_0, y_1), alpha, y_1), challenge)
            == interpolated(y_0, y_1, challenge),
{
    law_value_at_zero(alpha, y_0, y_1);
    lemma_linear_at(y_0, y_1.minus(y_0), challenge);
}

} // verus!
