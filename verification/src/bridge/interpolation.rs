//! Polynomials of low degree that are given by their values at the first integers.

use vstd::prelude::*;

use super::fp128::{
    congruent, lemma_congruent, lemma_congruent_by_multiple, lemma_congruent_to_residue,
    lemma_modulus, modulus, residue, Fp128,
};

verus! {

/// The inverse of two.
pub const HALF: u128 = 0x7fff_ffff_ffff_ffff_ffff_ffff_ffff_ff77;

/// The inverse of six.
pub const SIXTH: u128 = 0x2aaa_aaaa_aaaa_aaaa_aaaa_aaaa_aaaa_aa7d;

/// The value at `x` of the polynomial of degree at most two with the given values at 0, 1 and 2.
pub open spec fn quadratic_through(e: Seq<int>, x: int) -> int {
    HALF * (e[0] * ((x - 1) * (x - 2)) - 2 * (e[1] * (x * (x - 2))) + e[2] * (x * (x - 1)))
}

/// The value at `x` of the polynomial of degree at most three with the given values at 0, 1, 2 and
/// 3.
pub open spec fn cubic_through(e: Seq<int>, x: int) -> int {
    SIXTH * (3 * (e[1] * (x * ((x - 2) * (x - 3)))) - e[0] * ((x - 1) * ((x - 2) * (x - 3))) - 3 * (
    e[2] * (x * ((x - 1) * (x - 3)))) + e[3] * (x * ((x - 1) * (x - 2))))
}

/// The constants are inverses.
pub proof fn lemma_inverses()
    ensures
        2 * HALF == modulus() + 1,
        6 * SIXTH == modulus() + 1,
        HALF == 3 * SIXTH,
{
    lemma_modulus();
}

/// The value at `x` of the polynomial with the given four coefficients, from the constant one up.
pub open spec fn cubic_at(c: Seq<int>, x: int) -> int {
    c[0] + c[1] * x + c[2] * (x * x) + c[3] * (x * (x * x))
}

/// The values of a polynomial at the first `n` integers.
pub open spec fn first_values(c: Seq<int>, n: nat) -> Seq<int> {
    Seq::new(n, |t: int| cubic_at(c, t))
}

/// A polynomial of degree at most two is the one through its values at 0, 1 and 2.
pub proof fn law_quadratic_interpolates(c: Seq<int>, x: int)
    requires
        c.len() == 4,
        c[3] == 0,
    ensures
        congruent(quadratic_through(first_values(c, 3), x), cubic_at(c, x)),
{
    let e = first_values(c, 3);
    let (a, b, d) = (c[0], c[1], c[2]);
    let v = cubic_at(c, x);
    lemma_small_values(c);
    assert(e[0] == a && e[1] == a + b + d && e[2] == a + 2 * b + 4 * d);
    let y = x * x;
    assert((x - 1) * (x - 2) == y - 3 * x + 2) by (nonlinear_arith)
        requires
            y == x * x,
    ;
    assert(x * (x - 2) == y - 2 * x) by (nonlinear_arith)
        requires
            y == x * x,
    ;
    assert(x * (x - 1) == y - x) by (nonlinear_arith)
        requires
            y == x * x,
    ;
    assert(v == a + b * x + d * y);
    assert(a * (y - 3 * x + 2) - 2 * ((a + b + d) * (y - 2 * x)) + (a + 2 * b + 4 * d) * (y - x)
        == 2 * (a + b * x + d * y)) by (nonlinear_arith);
    lemma_inverses();
    assert(HALF * (2 * v) == (2 * HALF) * v) by (nonlinear_arith);
    assert((modulus() + 1) * v == v + v * modulus()) by (nonlinear_arith);
    lemma_congruent_by_multiple(quadratic_through(e, x), v, v);
}

/// A polynomial of degree at most three is the one through its values at 0, 1, 2 and 3.
pub proof fn law_cubic_interpolates(c: Seq<int>, x: int)
    requires
        c.len() == 4,
    ensures
        congruent(cubic_through(first_values(c, 4), x), cubic_at(c, x)),
{
    let e = first_values(c, 4);
    let (c0, c1, c2, c3) = (c[0], c[1], c[2], c[3]);
    let v = cubic_at(c, x);
    lemma_small_values(c);
    assert(e[0] == c0 && e[1] == c0 + c1 + c2 + c3 && e[2] == c0 + 2 * c1 + 4 * c2 + 8 * c3 && e[3]
        == c0 + 3 * c1 + 9 * c2 + 27 * c3);
    let y = x * x;
    let z = x * y;
    lemma_nodes(x);
    assert(v == c0 + c1 * x + c2 * y + c3 * z);
    let l0 = z - 6 * y + 11 * x - 6;
    let l1 = z - 5 * y + 6 * x;
    let l2 = z - 4 * y + 3 * x;
    let l3 = z - 3 * y + 2 * x;
    lemma_scaled_nodes(c0, x, y, z);
    lemma_scaled_nodes(c1, x, y, z);
    lemma_scaled_nodes(c2, x, y, z);
    lemma_scaled_nodes(c3, x, y, z);
    lemma_distributed(c0, c1, 1, c2, 1, c3, 1, l1);
    lemma_distributed(c0, c1, 2, c2, 4, c3, 8, l2);
    lemma_distributed(c0, c1, 3, c2, 9, c3, 27, l3);
    assert(3 * ((c0 + c1 + c2 + c3) * l1) - c0 * l0 - 3 * ((c0 + 2 * c1 + 4 * c2 + 8 * c3) * l2) + (
    c0 + 3 * c1 + 9 * c2 + 27 * c3) * l3 == 6 * (c0 + c1 * x + c2 * y + c3 * z));
    lemma_inverses();
    assert(SIXTH * (6 * v) == (6 * SIXTH) * v) by (nonlinear_arith);
    assert((modulus() + 1) * v == v + v * modulus()) by (nonlinear_arith);
    lemma_congruent_by_multiple(cubic_through(e, x), v, v);
}

/// The values of a polynomial at the first integers.
proof fn lemma_small_values(c: Seq<int>)
    ensures
        cubic_at(c, 0) == c[0],
        cubic_at(c, 1) == c[0] + c[1] + c[2] + c[3],
        cubic_at(c, 2) == c[0] + 2 * c[1] + 4 * c[2] + 8 * c[3],
        cubic_at(c, 3) == c[0] + 3 * c[1] + 9 * c[2] + 27 * c[3],
{
    let (b, d, e) = (c[1], c[2], c[3]);
    assert(b * 0 + d * (0 * 0) + e * (0 * (0 * 0)) == 0) by (nonlinear_arith);
    assert(d * (1 * 1) + e * (1 * (1 * 1)) == d + e) by (nonlinear_arith);
    assert(d * (2 * 2) + e * (2 * (2 * 2)) == 4 * d + 8 * e) by (nonlinear_arith);
    assert(d * (3 * 3) + e * (3 * (3 * 3)) == 9 * d + 27 * e) by (nonlinear_arith);
}

/// A factor times the node polynomials of cubic interpolation.
proof fn lemma_scaled_nodes(c: int, x: int, y: int, z: int)
    ensures
        c * (z - 6 * y + 11 * x - 6) == c * z - 6 * (c * y) + 11 * (c * x) - 6 * c,
        c * (z - 5 * y + 6 * x) == c * z - 5 * (c * y) + 6 * (c * x),
        c * (z - 4 * y + 3 * x) == c * z - 4 * (c * y) + 3 * (c * x),
        c * (z - 3 * y + 2 * x) == c * z - 3 * (c * y) + 2 * (c * x),
{
    assert(c * (z - 6 * y + 11 * x - 6) == c * z - 6 * (c * y) + 11 * (c * x) - 6 * c)
        by (nonlinear_arith);
    assert(c * (z - 5 * y + 6 * x) == c * z - 5 * (c * y) + 6 * (c * x)) by (nonlinear_arith);
    assert(c * (z - 4 * y + 3 * x) == c * z - 4 * (c * y) + 3 * (c * x)) by (nonlinear_arith);
    assert(c * (z - 3 * y + 2 * x) == c * z - 3 * (c * y) + 2 * (c * x)) by (nonlinear_arith);
}

/// A sum of multiples, times a factor.
proof fn lemma_distributed(a: int, b: int, i: int, c: int, j: int, d: int, k: int, l: int)
    ensures
        (a + i * b + j * c + k * d) * l == a * l + i * (b * l) + j * (c * l) + k * (d * l),
{
    assert((a + i * b + j * c + k * d) * l == a * l + (i * b) * l + (j * c) * l + (k * d) * l)
        by (nonlinear_arith);
    assert((i * b) * l == i * (b * l)) by (nonlinear_arith);
    assert((j * c) * l == j * (c * l)) by (nonlinear_arith);
    assert((k * d) * l == k * (d * l)) by (nonlinear_arith);
}

/// The node polynomials of cubic interpolation, multiplied out.
proof fn lemma_nodes(x: int)
    ensures
        (x - 1) * ((x - 2) * (x - 3)) == x * (x * x) - 6 * (x * x) + 11 * x - 6,
        x * ((x - 2) * (x - 3)) == x * (x * x) - 5 * (x * x) + 6 * x,
        x * ((x - 1) * (x - 3)) == x * (x * x) - 4 * (x * x) + 3 * x,
        x * ((x - 1) * (x - 2)) == x * (x * x) - 3 * (x * x) + 2 * x,
{
    let y = x * x;
    assert((x - 2) * (x - 3) == y - 5 * x + 6) by (nonlinear_arith)
        requires
            y == x * x,
    ;
    assert((x - 1) * (x - 3) == y - 4 * x + 3) by (nonlinear_arith)
        requires
            y == x * x,
    ;
    assert((x - 1) * (x - 2) == y - 3 * x + 2) by (nonlinear_arith)
        requires
            y == x * x,
    ;
    assert((x - 1) * (y - 5 * x + 6) == x * y - 6 * y + 11 * x - 6) by (nonlinear_arith)
        requires
            y == x * x,
    ;
    assert(x * (y - 5 * x + 6) == x * y - 5 * y + 6 * x) by (nonlinear_arith)
        requires
            y == x * x,
    ;
    assert(x * (y - 4 * x + 3) == x * y - 4 * y + 3 * x) by (nonlinear_arith)
        requires
            y == x * x,
    ;
    assert(x * (y - 3 * x + 2) == x * y - 3 * y + 2 * x) by (nonlinear_arith)
        requires
            y == x * x,
    ;
}

/// The polynomials through congruent values have congruent values.
pub proof fn lemma_quadratic_congruent(a: Seq<int>, b: Seq<int>, x: int)
    requires
        congruent(a[0], b[0]),
        congruent(a[1], b[1]),
        congruent(a[2], b[2]),
    ensures
        congruent(quadratic_through(a, x), quadratic_through(b, x)),
{
    let (w0, w1, w2) = ((x - 1) * (x - 2), x * (x - 2), x * (x - 1));
    lemma_congruent(a[0], w0, b[0], w0);
    lemma_congruent(a[1], w1, b[1], w1);
    lemma_congruent(2, a[1] * w1, 2, b[1] * w1);
    lemma_congruent(a[2], w2, b[2], w2);
    lemma_congruent(a[0] * w0, 2 * (a[1] * w1), b[0] * w0, 2 * (b[1] * w1));
    let (p, q) = (a[0] * w0 - 2 * (a[1] * w1), b[0] * w0 - 2 * (b[1] * w1));
    lemma_congruent(p, a[2] * w2, q, b[2] * w2);
    lemma_congruent(HALF as int, p + a[2] * w2, HALF as int, q + b[2] * w2);
}

/// The polynomials through congruent values have congruent values.
pub proof fn lemma_cubic_congruent(a: Seq<int>, b: Seq<int>, x: int)
    requires
        congruent(a[0], b[0]),
        congruent(a[1], b[1]),
        congruent(a[2], b[2]),
        congruent(a[3], b[3]),
    ensures
        congruent(cubic_through(a, x), cubic_through(b, x)),
{
    let (w0, w1) = ((x - 1) * ((x - 2) * (x - 3)), x * ((x - 2) * (x - 3)));
    let (w2, w3) = (x * ((x - 1) * (x - 3)), x * ((x - 1) * (x - 2)));
    lemma_congruent(a[0], w0, b[0], w0);
    lemma_congruent(a[1], w1, b[1], w1);
    lemma_congruent(3, a[1] * w1, 3, b[1] * w1);
    lemma_congruent(a[2], w2, b[2], w2);
    lemma_congruent(3, a[2] * w2, 3, b[2] * w2);
    lemma_congruent(a[3], w3, b[3], w3);
    lemma_congruent(3 * (a[1] * w1), a[0] * w0, 3 * (b[1] * w1), b[0] * w0);
    let (p, q) = (3 * (a[1] * w1) - a[0] * w0, 3 * (b[1] * w1) - b[0] * w0);
    lemma_congruent(p, 3 * (a[2] * w2), q, 3 * (b[2] * w2));
    let (r, s) = (p - 3 * (a[2] * w2), q - 3 * (b[2] * w2));
    lemma_congruent(r, a[3] * w3, s, b[3] * w3);
    lemma_congruent(SIXTH as int, r + a[3] * w3, SIXTH as int, s + b[3] * w3);
}

/// The sum of two polynomials.
pub open spec fn cubic_plus(a: Seq<int>, b: Seq<int>) -> Seq<int> {
    seq![a[0] + b[0], a[1] + b[1], a[2] + b[2], a[3] + b[3]]
}

/// The values of a sum of polynomials are the sums of the values.
pub proof fn lemma_cubic_plus(a: Seq<int>, b: Seq<int>, x: int)
    ensures
        cubic_at(cubic_plus(a, b), x) == cubic_at(a, x) + cubic_at(b, x),
{
    let (y, z) = (x * x, x * (x * x));
    assert((a[1] + b[1]) * x == a[1] * x + b[1] * x) by (nonlinear_arith);
    assert((a[2] + b[2]) * y == a[2] * y + b[2] * y) by (nonlinear_arith);
    assert((a[3] + b[3]) * z == a[3] * z + b[3] * z) by (nonlinear_arith);
}

/// The residues of an array of elements.
pub open spec fn values_of<const N: usize>(e: [Fp128; N]) -> Seq<int> {
    Seq::new(N as nat, |i: int| e[i]@)
}

/// Evaluates the quadratic polynomial with the given values at 0, 1 and 2.
pub fn evaluate_quadratic_from_0_1_2(evals: [Fp128; 3], x: Fp128) -> (r: Fp128)
    ensures
        r@ == residue(quadratic_through(values_of(evals), x@)),
{
    let two: Fp128 = Fp128::from_u64(2);
    let inv_two: Fp128 = Fp128::from_canonical_u128_reduced(HALF);
    let c0: Fp128 = evals[0];
    let twice: Fp128 = two.mul(evals[1]);
    let d1: Fp128 = evals[2].sub(twice);
    let d2: Fp128 = d1.add(c0);
    let c2: Fp128 = d2.mul(inv_two);
    let d3: Fp128 = evals[1].sub(c0);
    let c1: Fp128 = d3.sub(c2);
    let p1: Fp128 = c1.mul(x);
    let p2: Fp128 = c2.mul(x);
    let p3: Fp128 = p2.mul(x);
    let q1: Fp128 = c0.add(p1);
    let q2: Fp128 = q1.add(p3);
    proof {
        let (e0, e1, e2, t) = (evals[0]@, evals[1]@, evals[2]@, x@);
        let h = HALF as int;
        lemma_congruent_to_residue(h);
        lemma_congruent_to_residue(2 * e1);
        lemma_congruent(e2, twice@, e2, 2 * e1);
        lemma_congruent_to_residue(e2 - twice@);
        lemma_congruent(d1@, e0, e2 - 2 * e1, e0);
        lemma_congruent_to_residue(d1@ + e0);
        let second = (e2 - 2 * e1 + e0) * h;
        lemma_congruent(d2@, inv_two@, e2 - 2 * e1 + e0, h);
        lemma_congruent_to_residue(d2@ * inv_two@);
        lemma_congruent_to_residue(e1 - e0);
        lemma_congruent(d3@, c2@, e1 - e0, second);
        lemma_congruent_to_residue(d3@ - c2@);
        let first = e1 - e0 - second;
        lemma_congruent(c1@, t, first, t);
        lemma_congruent_to_residue(c1@ * t);
        lemma_congruent(c2@, t, second, t);
        lemma_congruent_to_residue(c2@ * t);
        lemma_congruent(p2@, t, second * t, t);
        lemma_congruent_to_residue(p2@ * t);
        lemma_congruent(e0, p1@, e0, first * t);
        lemma_congruent_to_residue(e0 + p1@);
        lemma_congruent(q1@, p3@, e0 + first * t, second * t * t);
        lemma_newton_form(e0, e1, e2, t);
        assert(values_of(evals) =~= seq![e0, e1, e2]);
    }
    q2
}

/// The polynomial through three values in powers of `t`.
proof fn lemma_newton_form(e0: int, e1: int, e2: int, t: int)
    ensures
        congruent(
            e0 + (e1 - e0 - (e2 - 2 * e1 + e0) * HALF) * t + (e2 - 2 * e1 + e0) * HALF * t * t,
            quadratic_through(seq![e0, e1, e2], t),
        ),
{
    let h = HALF as int;
    let e = seq![e0, e1, e2];
    let y = t * t;
    let s = (e2 - 2 * e1 + e0) * h;
    let lhs = e0 + (e1 - e0 - s) * t + s * t * t;
    assert(lhs == e0 + (e1 - e0) * t - s * t + s * y) by (nonlinear_arith)
        requires
            lhs == e0 + (e1 - e0 - s) * t + s * t * t,
            y == t * t,
    ;
    assert((t - 1) * (t - 2) == y - 3 * t + 2) by (nonlinear_arith)
        requires
            y == t * t,
    ;
    assert(t * (t - 2) == y - 2 * t) by (nonlinear_arith)
        requires
            y == t * t,
    ;
    assert(t * (t - 1) == y - t) by (nonlinear_arith)
        requires
            y == t * t,
    ;
    let k = e0 + (e1 - e0) * t;
    let inner = e0 * (y - 3 * t + 2) - 2 * (e1 * (y - 2 * t)) + e2 * (y - t);
    assert(inner == (e2 - 2 * e1 + e0) * (y - t) + 2 * k) by (nonlinear_arith)
        requires
            inner == e0 * (y - 3 * t + 2) - 2 * (e1 * (y - 2 * t)) + e2 * (y - t),
            k == e0 + (e1 - e0) * t,
    ;
    let g = e2 - 2 * e1 + e0;
    assert(h * inner == g * h * (y - t) + (2 * h) * k) by (nonlinear_arith)
        requires
            inner == g * (y - t) + 2 * k,
    ;
    assert(g * h * (y - t) == s * y - s * t) by (nonlinear_arith)
        requires
            s == g * h,
    ;
    lemma_inverses();
    assert((modulus() + 1) * k == k + k * modulus()) by (nonlinear_arith);
    lemma_congruent_by_multiple(quadratic_through(e, t), lhs, k);
}

/// Evaluates the cubic polynomial with the given values at 0, 1, 2 and 3.
pub fn evaluate_cubic_from_0_1_2_3(evals: [Fp128; 4], x: Fp128) -> (r: Fp128)
    ensures
        r@ == residue(cubic_through(values_of(evals), x@)),
{
    let inv_two: Fp128 = Fp128::from_canonical_u128_reduced(HALF);
    let inv_six: Fp128 = Fp128::from_canonical_u128_reduced(SIXTH);
    let x1: Fp128 = x.sub(Fp128::from_u64(1));
    let x2: Fp128 = x.sub(Fp128::from_u64(2));
    let x3: Fp128 = x.sub(Fp128::from_u64(3));
    let n0: Fp128 = triple_product(x1, x2, x3, inv_six);
    let l0: Fp128 = Fp128::from_u64(0).sub(n0);
    let l1: Fp128 = triple_product(x, x2, x3, inv_two);
    let n2: Fp128 = triple_product(x, x1, x3, inv_two);
    let l2: Fp128 = Fp128::from_u64(0).sub(n2);
    let l3: Fp128 = triple_product(x, x1, x2, inv_six);
    let m0: Fp128 = evals[0].mul(l0);
    let m1: Fp128 = evals[1].mul(l1);
    let m2: Fp128 = evals[2].mul(l2);
    let m3: Fp128 = evals[3].mul(l3);
    let s1: Fp128 = m0.add(m1);
    let s2: Fp128 = s1.add(m2);
    let s3: Fp128 = s2.add(m3);
    proof {
        let t = x@;
        let (h, s) = (HALF as int, SIXTH as int);
        let (a0, a1, a2, a3) = (evals[0]@, evals[1]@, evals[2]@, evals[3]@);
        lemma_congruent_to_residue(h);
        lemma_congruent_to_residue(s);
        lemma_congruent_to_residue(t - 1);
        lemma_congruent_to_residue(t - 2);
        lemma_congruent_to_residue(t - 3);
        let (y1, y2, y3) = (t - 1, t - 2, t - 3);
        lemma_triple(x1@, x2@, x3@, inv_six@, y1, y2, y3, s);
        lemma_triple(t, x2@, x3@, inv_two@, t, y2, y3, h);
        lemma_triple(t, x1@, x3@, inv_two@, t, y1, y3, h);
        lemma_triple(t, x1@, x2@, inv_six@, t, y1, y2, s);
        let (w0, w1) = (0 - y1 * y2 * y3 * s, t * y2 * y3 * h);
        let (w2, w3) = (0 - t * y1 * y3 * h, t * y1 * y2 * s);
        lemma_congruent(0, n0@, 0, y1 * y2 * y3 * s);
        lemma_congruent_to_residue(0 - n0@);
        lemma_congruent(0, n2@, 0, t * y1 * y3 * h);
        lemma_congruent_to_residue(0 - n2@);
        lemma_congruent(a0, l0@, a0, w0);
        lemma_congruent(a1, l1@, a1, w1);
        lemma_congruent(a2, l2@, a2, w2);
        lemma_congruent(a3, l3@, a3, w3);
        lemma_congruent_to_residue(a0 * l0@);
        lemma_congruent_to_residue(a1 * l1@);
        lemma_congruent_to_residue(a2 * l2@);
        lemma_congruent_to_residue(a3 * l3@);
        lemma_congruent(m0@, m1@, a0 * w0, a1 * w1);
        lemma_congruent_to_residue(m0@ + m1@);
        lemma_congruent(s1@, m2@, a0 * w0 + a1 * w1, a2 * w2);
        lemma_congruent_to_residue(s1@ + m2@);
        lemma_congruent(s2@, m3@, a0 * w0 + a1 * w1 + a2 * w2, a3 * w3);
        lemma_lagrange_form(a0, a1, a2, a3, t);
        assert(values_of(evals) =~= seq![a0, a1, a2, a3]);
    }
    s3
}

/// Returns the product of four elements.
fn triple_product(a: Fp128, b: Fp128, c: Fp128, k: Fp128) -> (r: Fp128)
    ensures
        r@ == residue(residue(residue(a@ * b@) * c@) * k@),
{
    a.mul(b).mul(c).mul(k)
}

proof fn lemma_triple(a: int, b: int, c: int, k: int, x: int, y: int, z: int, j: int)
    requires
        congruent(a, x),
        congruent(b, y),
        congruent(c, z),
        congruent(k, j),
    ensures
        congruent(residue(residue(residue(a * b) * c) * k), x * y * z * j),
{
    lemma_congruent(a, b, x, y);
    lemma_congruent_to_residue(a * b);
    lemma_congruent(residue(a * b), c, x * y, z);
    lemma_congruent_to_residue(residue(a * b) * c);
    lemma_congruent(residue(residue(a * b) * c), k, x * y * z, j);
    lemma_congruent_to_residue(residue(residue(a * b) * c) * k);
}

/// The polynomial through four values as a sum of multiples of the values.
proof fn lemma_lagrange_form(a0: int, a1: int, a2: int, a3: int, t: int)
    ensures
        a0 * (0 - (t - 1) * (t - 2) * (t - 3) * SIXTH) + a1 * (t * (t - 2) * (t - 3) * HALF) + a2 * (
        0 - t * (t - 1) * (t - 3) * HALF) + a3 * (t * (t - 1) * (t - 2) * SIXTH) == cubic_through(
            seq![a0, a1, a2, a3],
            t,
        ),
{
    lemma_inverses();
    let s = SIXTH as int;
    let l0 = (t - 1) * ((t - 2) * (t - 3));
    let l1 = t * ((t - 2) * (t - 3));
    let l2 = t * ((t - 1) * (t - 3));
    let l3 = t * ((t - 1) * (t - 2));
    assert((t - 1) * (t - 2) * (t - 3) == l0) by (nonlinear_arith)
        requires
            l0 == (t - 1) * ((t - 2) * (t - 3)),
    ;
    assert(t * (t - 2) * (t - 3) == l1) by (nonlinear_arith)
        requires
            l1 == t * ((t - 2) * (t - 3)),
    ;
    assert(t * (t - 1) * (t - 3) == l2) by (nonlinear_arith)
        requires
            l2 == t * ((t - 1) * (t - 3)),
    ;
    assert(t * (t - 1) * (t - 2) == l3) by (nonlinear_arith)
        requires
            l3 == t * ((t - 1) * (t - 2)),
    ;
    let (b0, b1, b2, b3) = (a0 * l0, a1 * l1, a2 * l2, a3 * l3);
    assert(a0 * (0 - l0 * s) == -(s * b0)) by (nonlinear_arith)
        requires
            b0 == a0 * l0,
    ;
    assert(a1 * (l1 * (3 * s)) == 3 * (s * b1)) by (nonlinear_arith)
        requires
            b1 == a1 * l1,
    ;
    assert(a2 * (0 - l2 * (3 * s)) == -(3 * (s * b2))) by (nonlinear_arith)
        requires
            b2 == a2 * l2,
    ;
    assert(a3 * (l3 * s) == s * b3) by (nonlinear_arith)
        requires
            b3 == a3 * l3,
    ;
    assert(s * (3 * b1 - b0 - 3 * b2 + b3) == 3 * (s * b1) - s * b0 - 3 * (s * b2) + s * b3)
        by (nonlinear_arith);
}

} // verus!
