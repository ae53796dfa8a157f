//! The algebra that the multilinear and sumcheck code is written against.

use vstd::prelude::*;

verus! {

/// A commutative ring.
///
/// The specification functions `plus`, `minus` and `times` model the arithmetic, and the proof
/// functions are the laws that each implementation has to establish for them.
pub trait Ring: Sized {
    /// The additive identity.
    spec fn zero_spec() -> Self;

    /// The multiplicative identity.
    spec fn one_spec() -> Self;

    /// Model of addition.
    spec fn plus(self, other: Self) -> Self;

    /// Model of subtraction.
    spec fn minus(self, other: Self) -> Self;

    /// Model of multiplication.
    spec fn times(self, other: Self) -> Self;

    /// Addition is commutative.
    proof fn law_plus_commutes(a: Self, b: Self)
        ensures
            a.plus(b) == b.plus(a),
    ;

    /// Addition is associative.
    proof fn law_plus_associates(a: Self, b: Self, c: Self)
        ensures
            a.plus(b).plus(c) == a.plus(b.plus(c)),
    ;

    /// Zero is neutral for addition.
    proof fn law_plus_zero(a: Self)
        ensures
            a.plus(Self::zero_spec()) == a,
    ;

    /// Subtraction undoes addition.
    proof fn law_minus(a: Self, b: Self)
        ensures
            a.minus(b).plus(b) == a,
    ;

    /// Multiplication is commutative.
    proof fn law_times_commutes(a: Self, b: Self)
        ensures
            a.times(b) == b.times(a),
    ;

    /// Multiplication is associative.
    proof fn law_times_associates(a: Self, b: Self, c: Self)
        ensures
            a.times(b).times(c) == a.times(b.times(c)),
    ;

    /// One is neutral for multiplication.
    proof fn law_times_one(a: Self)
        ensures
            a.times(Self::one_spec()) == a,
    ;

    /// Multiplication distributes over addition.
    proof fn law_distributes(a: Self, b: Self, c: Self)
        ensures
            a.times(b.plus(c)) == a.times(b).plus(a.times(c)),
    ;
}

/// A field with decidable equality, whose executable operations are tied to the model of the ring
/// by their postconditions.
pub trait Field: Ring + Copy {
    /// Zero and one differ.
    proof fn law_zero_is_not_one()
        ensures
            Self::zero_spec() != Self::one_spec(),
    ;

    /// Every element but zero has a multiplicative inverse.
    proof fn law_inverse_exists(a: Self)
        requires
            a != Self::zero_spec(),
        ensures
            exists|b: Self| #[trigger] a.times(b) == Self::one_spec(),
    ;

    /// Returns the additive identity.
    fn zero() -> (r: Self)
        ensures
            r == Self::zero_spec(),
    ;

    /// Returns the multiplicative identity.
    fn one() -> (r: Self)
        ensures
            r == Self::one_spec(),
    ;

    /// Returns the sum of the two elements.
    fn add(self, other: Self) -> (r: Self)
        ensures
            r == self.plus(other),
    ;

    /// Returns the difference of the two elements.
    fn sub(self, other: Self) -> (r: Self)
        ensures
            r == self.minus(other),
    ;

    /// Returns the product of the two elements.
    fn mul(self, other: Self) -> (r: Self)
        ensures
            r == self.times(other),
    ;

    /// Returns the multiplicative inverse of a nonzero element, and zero for zero.
    fn invert_or_zero(self) -> (r: Self)
        ensures
            self != Self::zero_spec() ==> self.times(r) == Self::one_spec(),
            self == Self::zero_spec() ==> r == Self::zero_spec(),
    ;

    /// Decides whether the two elements are equal.
    fn is_equal(self, other: Self) -> (r: bool)
        ensures
            r == (self == other),
    ;
}

/// A field of characteristic two.
pub trait BinaryField: Field {
    /// Every element is its own negative.
    proof fn law_characteristic_two(a: Self)
        ensures
            a.plus(a) == Self::zero_spec(),
    ;

    /// Element `i` of the span of the first eight basis elements over the two-element field, where
    /// the bits of `i` are the coordinates.
    spec fn subspace_point(i: int) -> Self;

    /// Different coordinates give different elements.
    proof fn law_subspace_points_differ(i: int, j: int)
        requires
            0 <= i < 256,
            0 <= j < 256,
            i != j,
        ensures
            Self::subspace_point(i) != Self::subspace_point(j),
    ;

    /// Returns the element with the given coordinates.
    fn subspace_element(i: usize) -> (r: Self)
        requires
            i < 256,
        ensures
            r == Self::subspace_point(i as int),
    ;
}

/// Whether `b` is the multiplicative inverse of `a`.
pub open spec fn is_inverse<F: Field>(a: F, b: F) -> bool {
    a.times(b) == F::one_spec()
}

/// The multiplicative inverse of a nonzero element, and zero for zero.
pub open spec fn inverse_or_zero<F: Field>(a: F) -> F {
    if a != F::zero_spec() {
        choose|b: F| is_inverse(a, b)
    } else {
        F::zero_spec()
    }
}

/// A nonzero element times its inverse is one.
pub proof fn lemma_inverse<F: Field>(a: F)
    requires
        a != F::zero_spec(),
    ensures
        a.times(inverse_or_zero(a)) == F::one_spec(),
{
    F::law_inverse_exists(a);
    let b = choose|b: F| #[trigger] a.times(b) == F::one_spec();
    assert(is_inverse(a, b));
}

/// A nonzero element has one multiplicative inverse.
pub proof fn lemma_inverse_is_unique<F: Field>(a: F, b: F)
    requires
        a.times(b) == F::one_spec(),
    ensures
        a != F::zero_spec(),
        inverse_or_zero(a) == b,
{
    if a == F::zero_spec() {
        lemma_times_zero(b);
        F::law_zero_is_not_one();
    }
    assert(is_inverse(a, b));
    let c = choose|b: F| is_inverse(a, b);
    assert(is_inverse(a, c));
    // c == c * (a * b) == (c * a) * b == b
    F::law_times_one(c);
    F::law_times_associates(c, a, b);
    F::law_times_commutes(c, a);
    F::law_times_commutes(F::one_spec(), b);
    F::law_times_one(b);
}

/// A product is zero only where a factor is.
pub proof fn lemma_no_zero_divisors<F: Field>(a: F, b: F)
    requires
        a.times(b) == F::zero_spec(),
    ensures
        a == F::zero_spec() || b == F::zero_spec(),
{
    if a != F::zero_spec() {
        lemma_inverse(a);
        let c = inverse_or_zero(a);
        F::law_times_commutes(a, c);
        F::law_times_associates(c, a, b);
        lemma_one_times(b);
        lemma_times_zero(c);
    }
}

/// A product with zero is zero.
pub proof fn lemma_times_zero<F: Ring>(a: F)
    ensures
        a.times(F::zero_spec()) == F::zero_spec(),
        F::zero_spec().times(a) == F::zero_spec(),
{
    let z = F::zero_spec();
    let az = a.times(z);
    F::law_plus_zero(z);
    F::law_distributes(a, z, z);
    // az == az + az, so subtracting az gives zero
    lemma_cancel(az, az, z);
    F::law_plus_zero(az);
    F::law_times_commutes(a, z);
}

/// Equal sums with a common left summand have equal right summands.
pub proof fn lemma_cancel<F: Ring>(a: F, b: F, c: F)
    ensures
        (a.plus(b) == a.plus(c)) == (b == c),
{
    let z = F::zero_spec();
    let n = z.minus(a);
    F::law_minus(z, a);
    F::law_plus_associates(n, a, b);
    F::law_plus_associates(n, a, c);
    F::law_plus_commutes(z, b);
    F::law_plus_commutes(z, c);
    F::law_plus_zero(b);
    F::law_plus_zero(c);
}

/// Two sums can be added crosswise.
pub proof fn lemma_plus_exchange<F: Ring>(a: F, b: F, c: F, d: F)
    ensures
        a.plus(b).plus(c.plus(d)) == a.plus(c).plus(b.plus(d)),
{
    F::law_plus_associates(a, b, c.plus(d));
    F::law_plus_associates(b, c, d);
    F::law_plus_commutes(b, c);
    F::law_plus_associates(c, b, d);
    F::law_plus_associates(a, c, b.plus(d));
}

/// Zero is neutral on the left too.
pub proof fn lemma_zero_plus<F: Ring>(a: F)
    ensures
        F::zero_spec().plus(a) == a,
{
    F::law_plus_commutes(F::zero_spec(), a);
    F::law_plus_zero(a);
}

/// One is neutral on the left too.
pub proof fn lemma_one_times<F: Ring>(a: F)
    ensures
        F::one_spec().times(a) == a,
{
    F::law_times_commutes(F::one_spec(), a);
    F::law_times_one(a);
}

/// Multiplication distributes over addition on the left too.
pub proof fn lemma_plus_times<F: Ring>(a: F, b: F, c: F)
    ensures
        a.plus(b).times(c) == a.times(c).plus(b.times(c)),
{
    F::law_times_commutes(a.plus(b), c);
    F::law_distributes(c, a, b);
    F::law_times_commutes(c, a);
    F::law_times_commutes(c, b);
}

/// A difference is determined by what it adds up to.
pub proof fn lemma_minus_unique<F: Ring>(a: F, b: F, c: F)
    requires
        c.plus(b) == a,
    ensures
        a.minus(b) == c,
{
    F::law_minus(a, b);
    F::law_plus_commutes(a.minus(b), b);
    F::law_plus_commutes(c, b);
    lemma_cancel(b, a.minus(b), c);
}

/// The difference of two sums is the sum of the differences.
pub proof fn lemma_minus_exchange<F: Ring>(a: F, b: F, c: F, d: F)
    ensures
        a.plus(b).minus(c.plus(d)) == a.minus(c).plus(b.minus(d)),
{
    F::law_minus(a, c);
    F::law_minus(b, d);
    lemma_plus_exchange(a.minus(c), b.minus(d), c, d);
    lemma_minus_unique(a.plus(b), c.plus(d), a.minus(c).plus(b.minus(d)));
}

/// Multiplication distributes over subtraction.
pub proof fn lemma_times_minus<F: Ring>(a: F, b: F, c: F)
    ensures
        a.times(b.minus(c)) == a.times(b).minus(a.times(c)),
{
    F::law_minus(b, c);
    F::law_distributes(a, b.minus(c), c);
    lemma_minus_unique(a.times(b), a.times(c), a.times(b.minus(c)));
}

/// An element minus itself is zero, and minus zero is itself.
pub proof fn lemma_minus_self<F: Ring>(a: F)
    ensures
        a.minus(a) == F::zero_spec(),
        a.minus(F::zero_spec()) == a,
{
    lemma_zero_plus(a);
    lemma_minus_unique(a, a, F::zero_spec());
    F::law_plus_zero(a);
    lemma_minus_unique(a, F::zero_spec(), a);
}

/// In characteristic two subtraction is addition.
pub proof fn lemma_minus_is_plus<F: BinaryField>(a: F, b: F)
    ensures
        a.minus(b) == a.plus(b),
{
    F::law_minus(a, b);
    F::law_characteristic_two(b);
    F::law_plus_associates(a, b, b);
    F::law_plus_zero(a);
    F::law_plus_commutes(a.minus(b), b);
    F::law_plus_commutes(a.plus(b), b);
    lemma_cancel(b, a.minus(b), a.plus(b));
}

/// The integers are a ring.
impl Ring for int {
    open spec fn zero_spec() -> Self {
        0
    }

    open spec fn one_spec() -> Self {
        1
    }

    open spec fn plus(self, other: Self) -> Self {
        self + other
    }

    open spec fn minus(self, other: Self) -> Self {
        self - other
    }

    open spec fn times(self, other: Self) -> Self {
        self * other
    }

    proof fn law_plus_commutes(a: Self, b: Self) {
    }

    proof fn law_plus_associates(a: Self, b: Self, c: Self) {
    }

    proof fn law_plus_zero(a: Self) {
    }

    proof fn law_minus(a: Self, b: Self) {
    }

    proof fn law_times_commutes(a: Self, b: Self) {
        assert(a * b == b * a) by (nonlinear_arith);
    }

    proof fn law_times_associates(a: Self, b: Self, c: Self) {
        assert((a * b) * c == a * (b * c)) by (nonlinear_arith);
    }

    proof fn law_times_one(a: Self) {
    }

    proof fn law_distributes(a: Self, b: Self, c: Self) {
        assert(a * (b + c) == a * b + a * c) by (nonlinear_arith);
    }
}

} // verus!
