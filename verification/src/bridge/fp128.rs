//! The prime field with `2^128 - 275` elements.
//!
//! An element stands for a residue class of integers. Contracts give the class by the integer in
//! it that is computed without reduction, and `residue` reduces it.

use vstd::arithmetic::div_mod::{
    lemma_add_mod_noop, lemma_fundamental_div_mod, lemma_mod_bound, lemma_mod_multiples_vanish,
    lemma_mul_mod_noop, lemma_small_mod, lemma_sub_mod_noop,
};
use vstd::prelude::*;

verus! {

/// The number of elements of the field.
pub const MODULUS: u128 = 0xffff_ffff_ffff_ffff_ffff_ffff_ffff_feed;

/// The number of elements of the field, as an integer.
#[verifier::opaque]
pub open spec fn modulus() -> int {
    MODULUS as int
}

/// The least nonnegative integer in the residue class of an integer.
pub open spec fn residue(x: int) -> int {
    x % modulus()
}

/// Whether two integers are in the same residue class.
pub open spec fn congruent(x: int, y: int) -> bool {
    residue(x) == residue(y)
}

/// Whether the residue classes of two integers are inverse to each other.
pub open spec fn are_inverse(x: int, y: int) -> bool {
    residue(x * y) == 1
}

/// The modulus is the constant.
pub proof fn lemma_modulus()
    ensures
        modulus() == MODULUS,
{
    reveal(modulus);
}

/// A residue lies below the modulus, and reducing it again changes nothing.
pub proof fn lemma_residue(x: int)
    ensures
        0 <= residue(x) < modulus(),
        residue(residue(x)) == residue(x),
{
    lemma_modulus();
    lemma_mod_bound(x, modulus());
    lemma_small_mod(residue(x) as nat, modulus() as nat);
}

/// An integer below the modulus is its own residue.
pub proof fn lemma_residue_of_small(x: int)
    requires
        0 <= x < modulus(),
    ensures
        residue(x) == x,
{
    lemma_small_mod(x as nat, modulus() as nat);
}

/// Congruent integers have congruent sums, differences and products.
pub proof fn lemma_congruent(a: int, b: int, c: int, d: int)
    requires
        congruent(a, c),
        congruent(b, d),
    ensures
        congruent(a + b, c + d),
        congruent(a - b, c - d),
        congruent(a * b, c * d),
{
    let m = modulus();
    lemma_modulus();
    lemma_add_mod_noop(a, b, m);
    lemma_add_mod_noop(c, d, m);
    lemma_sub_mod_noop(a, b, m);
    lemma_sub_mod_noop(c, d, m);
    lemma_mul_mod_noop(a, b, m);
    lemma_mul_mod_noop(c, d, m);
}

/// An integer is congruent to its residue.
pub proof fn lemma_congruent_to_residue(x: int)
    ensures
        congruent(residue(x), x),
        congruent(x, residue(x)),
{
    lemma_residue(x);
}

/// Integers that differ by a multiple of the modulus are congruent.
pub proof fn lemma_congruent_by_multiple(x: int, y: int, k: int)
    requires
        x == y + k * modulus(),
    ensures
        congruent(x, y),
{
    lemma_modulus();
    assert(k * modulus() == modulus() * k) by (nonlinear_arith);
    lemma_mod_multiples_vanish(k, y, modulus());
}

/// An element of the field.
#[derive(Debug, Clone, Copy)]
pub struct Fp128 {
    val: u128,
}

/// Scalar field of the Akita scheme.
pub type AkitaFieldScalar = Fp128;

/// Scalar field of the Hachi scheme.
pub type HachiScalar = Fp128;

impl View for Fp128 {
    type V = int;

    /// The residue that the element stands for.
    closed spec fn view(&self) -> int {
        residue(self.val as int)
    }
}

impl PartialEq for Fp128 {
    fn eq(&self, other: &Self) -> (r: bool) {
        self.to_canonical_u128() == other.to_canonical_u128()
    }
}

impl vstd::std_specs::cmp::PartialEqSpecImpl for Fp128 {
    open spec fn obeys_eq_spec() -> bool {
        true
    }

    open spec fn eq_spec(&self, other: &Self) -> bool {
        self@ == other@
    }
}

impl Eq for Fp128 {

}

/// The residues of the elements of a sequence.
pub open spec fn residues(s: Seq<Fp128>) -> Seq<int> {
    Seq::new(s.len(), |i: int| s[i]@)
}

/// Adds two residues.
fn add_residues(a: u128, b: u128) -> (r: u128)
    requires
        a < MODULUS,
        b < MODULUS,
    ensures
        r < MODULUS,
        r == residue(a + b),
{
    proof {
        lemma_modulus();
    }
    let gap: u128 = MODULUS - b;
    if a >= gap {
        proof {
            lemma_congruent_by_multiple(a + b, a - gap, 1);
            lemma_residue_of_small(a - gap);
        }
        a - gap
    } else {
        proof {
            lemma_residue_of_small(a + b);
        }
        a + b
    }
}

/// Reduces an integer.
fn reduce(x: u128) -> (r: u128)
    ensures
        r < MODULUS,
        r == residue(x as int),
{
    proof {
        lemma_modulus();
    }
    if x >= MODULUS {
        proof {
            lemma_congruent_by_multiple(x as int, x - MODULUS, 1);
            lemma_residue_of_small(x - MODULUS);
        }
        x - MODULUS
    } else {
        proof {
            lemma_residue_of_small(x as int);
        }
        x
    }
}

/// Multiplies a residue and a word.
fn mul_word(a: u128, w: u64) -> (r: u128)
    requires
        a < MODULUS,
    ensures
        r < MODULUS,
        r == residue(a * w),
{
    let a1: u128 = a / 0x1_0000_0000_0000_0000;
    let a0: u128 = a % 0x1_0000_0000_0000_0000;
    let w: u128 = w as u128;
    proof {
        lemma_word_product(a0, w);
        lemma_word_product(a1, w);
    }
    let p0: u128 = a0 * w;
    let p1: u128 = a1 * w + p0 / 0x1_0000_0000_0000_0000;
    let high: u128 = p1 / 0x1_0000_0000_0000_0000;
    let low: u128 = (p1 % 0x1_0000_0000_0000_0000) * 0x1_0000_0000_0000_0000 + p0
        % 0x1_0000_0000_0000_0000;
    let low_residue: u128 = reduce(low);
    proof {
        lemma_modulus();
        assert(a == a1 * 0x1_0000_0000_0000_0000 + a0);
        assert(a * w == (a1 * w) * 0x1_0000_0000_0000_0000 + a0 * w) by (nonlinear_arith)
            requires
                a == a1 * 0x1_0000_0000_0000_0000 + a0,
        ;
        assert(a * w == high * 0x1_0000_0000_0000_0000_0000_0000_0000_0000 + low);
        assert(a * w == (275 * high + low) + high * modulus());
        lemma_congruent_by_multiple(a * w, 275 * high + low, high as int);
        lemma_congruent_to_residue(low as int);
        lemma_congruent(275 * high, low as int, 275 * high, low_residue as int);
    }
    add_residues(275 * high, low_residue)
}

/// The product of two words fits in a double word, with room for one more word.
proof fn lemma_word_product(a: u128, w: u128)
    requires
        a < 0x1_0000_0000_0000_0000,
        w < 0x1_0000_0000_0000_0000,
    ensures
        0 <= a * w <= 0xffff_ffff_ffff_fffe_0000_0000_0000_0001,
{
    assert(0 <= a * w <= 0xffff_ffff_ffff_ffff * 0xffff_ffff_ffff_ffff) by (nonlinear_arith)
        requires
            0 <= a <= 0xffff_ffff_ffff_ffff,
            0 <= w <= 0xffff_ffff_ffff_ffff,
    ;
}

impl Fp128 {
    /// Returns the element of a small integer.
    pub fn from_u64(x: u64) -> (r: Self)
        ensures
            r@ == x,
    {
        proof {
            lemma_modulus();
            lemma_residue_of_small(x as int);
        }
        Fp128 { val: x as u128 }
    }

    /// Returns the element of an integer, reduced.
    pub fn from_canonical_u128_reduced(x: u128) -> (r: Self)
        ensures
            r@ == residue(x as int),
    {
        proof {
            lemma_residue(x as int);
        }
        Fp128 { val: reduce(x) }
    }

    /// Returns the element of an integer that is a residue, and nothing for any other integer.
    pub fn from_canonical_u128_checked(x: u128) -> (r: Option<Self>)
        ensures
            match r {
                Some(e) => x < MODULUS && e@ == x,
                None => x >= MODULUS,
            },
    {
        if x < MODULUS {
            proof {
                lemma_modulus();
                lemma_residue_of_small(x as int);
            }
            Some(Fp128 { val: x })
        } else {
            None
        }
    }

    /// Returns the residue that the element stands for.
    pub fn to_canonical_u128(&self) -> (r: u128)
        ensures
            r == self@,
            r < MODULUS,
    {
        reduce(self.val)
    }

    /// The residue of an element lies below the modulus.
    pub proof fn lemma_view(self)
        ensures
            0 <= self@ < modulus(),
            residue(self@) == self@,
    {
        lemma_residue(self.val as int);
    }

    /// Returns the sum of the two elements.
    pub fn add(self, other: Self) -> (r: Self)
        ensures
            r@ == residue(self@ + other@),
    {
        let (a, b) = (self.to_canonical_u128(), other.to_canonical_u128());
        proof {
            lemma_residue(a + b);
        }
        Fp128 { val: add_residues(a, b) }
    }

    /// Returns the difference of the two elements.
    pub fn sub(self, other: Self) -> (r: Self)
        ensures
            r@ == residue(self@ - other@),
    {
        let (a, b) = (self.to_canonical_u128(), other.to_canonical_u128());
        proof {
            lemma_modulus();
            lemma_residue(a - b);
        }
        if a >= b {
            proof {
                lemma_residue_of_small(a - b);
            }
            Fp128 { val: a - b }
        } else {
            proof {
                lemma_congruent_by_multiple(a + (modulus() - b), a - b, 1);
                lemma_residue_of_small(a + (modulus() - b));
            }
            Fp128 { val: a + (MODULUS - b) }
        }
    }

    /// Returns the product of the two elements.
    pub fn mul(self, other: Self) -> (r: Self)
        ensures
            r@ == residue(self@ * other@),
    {
        let (a, b) = (self.to_canonical_u128(), other.to_canonical_u128());
        let b1: u64 = (b / 0x1_0000_0000_0000_0000) as u64;
        let b0: u64 = (b % 0x1_0000_0000_0000_0000) as u64;
        let m1: u128 = mul_word(a, b1);
        let m2: u128 = mul_word(m1, 0x1_0000_0000);
        let m3: u128 = mul_word(m2, 0x1_0000_0000);
        let m0: u128 = mul_word(a, b0);
        proof {
            let (w, ab1, ab0) = (0x1_0000_0000int, a * b1, a * b0);
            assert(b == b1 * 0x1_0000_0000_0000_0000 + b0);
            assert(a * b == ab1 * w * w + ab0) by (nonlinear_arith)
                requires
                    b == b1 * 0x1_0000_0000_0000_0000 + b0,
                    w == 0x1_0000_0000,
                    ab1 == a * b1,
                    ab0 == a * b0,
            ;
            lemma_congruent_to_residue(ab1);
            lemma_congruent(m1 as int, w, ab1, w);
            lemma_congruent_to_residue(m1 * w);
            lemma_congruent(m2 as int, w, ab1 * w, w);
            lemma_congruent_to_residue(m2 * w);
            lemma_congruent_to_residue(ab0);
            lemma_congruent(m3 as int, m0 as int, ab1 * w * w, ab0);
            lemma_residue(a * b);
        }
        Fp128 { val: add_residues(m3, m0) }
    }

    /// Returns the multiplicative inverse, if there is one.
    pub fn inverse(self) -> (r: Option<Self>)
        ensures
            match r {
                Some(i) => are_inverse(self@, i@),
                None => forall|x: int| !are_inverse(self@, x),
            },
    {
        let a: u128 = self.to_canonical_u128();
        let mut r0: u128 = MODULUS;
        let mut r1: u128 = a;
        let mut s0: Fp128 = Fp128::from_u64(0);
        let mut s1: Fp128 = Fp128::from_u64(1);
        let ghost (mut u0, mut u1, mut v0, mut v1) = (0int, 1int, 1int, 0int);
        proof {
            lemma_modulus();
            lemma_congruent_by_multiple(modulus(), 0, 1);
        }
        while r1 != 0
            invariant
                a == self@,
                congruent(a * s0@, r0 as int),
                congruent(a * s1@, r1 as int),
                a == u0 * r0 + u1 * r1,
                modulus() == v0 * r0 + v1 * r1,
                r0 > 0,
            decreases r1,
        {
            let q: u128 = r0 / r1;
            let r2: u128 = r0 % r1;
            let s2: Fp128 = s0.sub(Fp128::from_canonical_u128_reduced(q).mul(s1));
            proof {
                lemma_fundamental_div_mod(r0 as int, r1 as int);
                assert(r1 * q == q * r1) by (nonlinear_arith);
                let t0 = u0;
                let w0 = v0;
                assert(t0 * r0 + u1 * r1 == (t0 * q + u1) * r1 + t0 * r2) by (nonlinear_arith)
                    requires
                        r0 == q * r1 + r2,
                ;
                assert(w0 * r0 + v1 * r1 == (w0 * q + v1) * r1 + w0 * r2) by (nonlinear_arith)
                    requires
                        r0 == q * r1 + r2,
                ;
                u0 = t0 * q + u1;
                u1 = t0;
                v0 = w0 * q + v1;
                v1 = w0;
                lemma_step(a as int, s0@, s1@, s2@, q as int, r0 as int, r1 as int, r2 as int);
            }
            r0 = r1;
            r1 = r2;
            s0 = s1;
            s1 = s2;
        }
        if r0 == 1 {
            proof {
                lemma_modulus();
                lemma_residue_of_small(1);
            }
            Some(s0)
        } else {
            proof {
                assert forall|x: int| !are_inverse(self@, x) by {
                    lemma_modulus();
                    if residue(a * x) == 1 {
                        lemma_fundamental_div_mod(a * x, modulus());
                        let k = (a * x) / modulus();
                        assert(u0 * r0 * x - v0 * r0 * k == 1) by (nonlinear_arith)
                            requires
                                a * x == modulus() * k + 1,
                                a == u0 * r0 + u1 * 0,
                                modulus() == v0 * r0 + v1 * 0,
                        ;
                        let d = u0 * x - v0 * k;
                        assert(r0 * d == 1) by (nonlinear_arith)
                            requires
                                u0 * r0 * x - v0 * r0 * k == 1,
                                d == u0 * x - v0 * k,
                        ;
                        assert(false) by (nonlinear_arith)
                            requires
                                r0 * d == 1,
                                r0 > 1,
                        ;
                    }
                }
            }
            None
        }
    }
}

/// A step of the extended Euclidean algorithm keeps the multipliers right.
proof fn lemma_step(a: int, s0: int, s1: int, s2: int, q: int, r0: int, r1: int, r2: int)
    requires
        congruent(a * s0, r0),
        congruent(a * s1, r1),
        s2 == residue(s0 - residue(residue(q) * s1)),
        r0 == q * r1 + r2,
    ensures
        congruent(a * s2, r2),
{
    lemma_congruent_to_residue(q);
    lemma_congruent(residue(q), s1, q, s1);
    lemma_congruent_to_residue(residue(q) * s1);
    lemma_congruent(s0, residue(residue(q) * s1), s0, q * s1);
    lemma_congruent_to_residue(s0 - residue(residue(q) * s1));
    lemma_congruent(a, s2, a, s0 - q * s1);
    assert(a * (s0 - q * s1) == a * s0 - q * (a * s1)) by (nonlinear_arith);
    lemma_congruent(q, a * s1, q, r1);
    lemma_congruent(a * s0, q * (a * s1), r0, q * r1);
}

} // verus!
