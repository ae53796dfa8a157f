//! The binary field with 2^128 elements, in the polynomial basis of
//! `x^128 + x^7 + x^2 + x + 1`.

use vstd::prelude::*;

use crate::field::{BinaryField, Field, Ring};

verus! {

/// An element of the field: bit `i` of `val` is the coefficient of `x^i`.
#[derive(Clone, Copy, Debug, PartialEq, Eq, Structural)]
pub struct B128 {
    pub val: u128,
}

/// The product of an element and `x`.
pub open spec fn times_x(a: u128) -> u128 {
    if a >> 127 == 1 {
        (a << 1) ^ 0x87
    } else {
        a << 1
    }
}

/// The product of an element and `x^n`.
pub open spec fn times_x_pow(a: u128, n: nat) -> u128
    decreases n,
{
    if n == 0 {
        a
    } else {
        times_x(times_x_pow(a, (n - 1) as nat))
    }
}

/// Bit `i` of a word.
pub open spec fn bit(a: u128, i: int) -> bool {
    (a >> (i as u128)) & 1 == 1
}

/// The sum of `x^i * b` over the set bits `i < n` of `a`.
pub open spec fn partial_product(a: u128, b: u128, n: nat) -> u128
    decreases n,
{
    if n == 0 {
        0
    } else {
        let rest = partial_product(a, b, (n - 1) as nat);
        if bit(a, n - 1) {
            rest ^ times_x_pow(b, (n - 1) as nat)
        } else {
            rest
        }
    }
}

/// The product of two elements.
pub open spec fn product(a: u128, b: u128) -> u128 {
    partial_product(a, b, 128)
}

proof fn lemma_xor(a: u128, b: u128, c: u128)
    by (bit_vector)
    ensures
        a ^ b == b ^ a,
        (a ^ b) ^ c == a ^ (b ^ c),
        a ^ a == 0,
        a ^ 0 == a,
        0 ^ a == a,
        (a ^ b) ^ b == a,
{
}

proof fn lemma_xor_exchange(a: u128, b: u128, c: u128, d: u128)
    by (bit_vector)
    ensures
        (a ^ b) ^ (c ^ d) == (a ^ c) ^ (b ^ d),
{
}

proof fn lemma_times_x_linear(a: u128, b: u128)
    by (bit_vector)
    ensures
        times_x(a ^ b) == times_x(a) ^ times_x(b),
        times_x(0) == 0,
{
}

proof fn lemma_times_x_pow_linear(a: u128, b: u128, n: nat)
    ensures
        times_x_pow(a ^ b, n) == times_x_pow(a, n) ^ times_x_pow(b, n),
        times_x_pow(0, n) == 0,
    decreases n,
{
    if n > 0 {
        let m = (n - 1) as nat;
        lemma_times_x_pow_linear(a, b, m);
        lemma_times_x_linear(times_x_pow(a, m), times_x_pow(b, m));
    }
}

proof fn lemma_times_x_pow_adds(a: u128, m: nat, n: nat)
    ensures
        times_x_pow(times_x_pow(a, m), n) == times_x_pow(a, m + n),
    decreases n,
{
    if n > 0 {
        lemma_times_x_pow_adds(a, m, (n - 1) as nat);
    }
}

proof fn lemma_partial_product_right_linear(a: u128, b: u128, c: u128, n: nat)
    ensures
        partial_product(a, b ^ c, n) == partial_product(a, b, n) ^ partial_product(a, c, n),
        partial_product(a, 0, n) == 0,
    decreases n,
{
    lemma_xor(0, 0, 0);
    if n > 0 {
        let m = (n - 1) as nat;
        lemma_partial_product_right_linear(a, b, c, m);
        lemma_times_x_pow_linear(b, c, m);
        lemma_xor_exchange(
            partial_product(a, b, m),
            times_x_pow(b, m),
            partial_product(a, c, m),
            times_x_pow(c, m),
        );
        lemma_xor_exchange(
            partial_product(a, b, m),
            partial_product(a, c, m),
            times_x_pow(b, m),
            times_x_pow(c, m),
        );
    }
}

/// A bit of a sum is set where exactly one of the bits of the summands is.
pub proof fn lemma_bit_xor(a: u128, b: u128, i: int)
    requires
        0 <= i < 128,
    ensures
        bit(a ^ b, i) == (bit(a, i) != bit(b, i)),
        !bit(0, i),
{
    let j = i as u128;
    assert((((a ^ b) >> j) & 1 == 1) == (((a >> j) & 1 == 1) != ((b >> j) & 1 == 1)) && !((0u128
        >> j) & 1 == 1)) by (bit_vector);
}

proof fn lemma_partial_product_left_linear(a: u128, b: u128, c: u128, n: nat)
    requires
        n <= 128,
    ensures
        partial_product(a ^ b, c, n) == partial_product(a, c, n) ^ partial_product(b, c, n),
        partial_product(0, c, n) == 0,
    decreases n,
{
    lemma_xor(0, 0, 0);
    if n > 0 {
        let m = (n - 1) as nat;
        lemma_partial_product_left_linear(a, b, c, m);
        lemma_bit_xor(a, b, n - 1);
        let p = partial_product(a, c, m);
        let q = partial_product(b, c, m);
        let t = times_x_pow(c, m);
        lemma_xor(p, q, t);
        lemma_xor(p, t, q);
        lemma_xor(q, t, p);
        lemma_xor(p ^ q, t, t);
        lemma_xor_exchange(p, t, q, t);
        lemma_xor(t, t, t);
    }
}

proof fn lemma_partial_product_times_x(a: u128, b: u128, n: nat, k: nat)
    ensures
        partial_product(a, times_x_pow(b, k), n) == times_x_pow(partial_product(a, b, n), k),
    decreases n,
{
    if n == 0 {
        lemma_times_x_pow_linear(0, 0, k);
    } else {
        let m = (n - 1) as nat;
        lemma_partial_product_times_x(a, b, m, k);
        lemma_times_x_pow_linear(partial_product(a, b, m), times_x_pow(b, m), k);
        lemma_times_x_pow_adds(b, k, m);
        lemma_times_x_pow_adds(b, m, k);
    }
}

proof fn lemma_single_bit(k: nat, i: int)
    requires
        k < 128,
        0 <= i < 128,
    ensures
        bit(1u128 << (k as u128), i) == (i == k),
{
    let j = i as u128;
    let l = k as u128;
    assert(j < 128 && l < 128 ==> (((1u128 << l) >> j) & 1 == 1) == (j == l)) by (bit_vector);
}

proof fn lemma_partial_product_monomial(k: nat, b: u128, n: nat)
    requires
        k < 128,
        n <= 128,
    ensures
        partial_product(1u128 << (k as u128), b, n) == if n > k {
            times_x_pow(b, k)
        } else {
            0
        },
    decreases n,
{
    if n > 0 {
        lemma_partial_product_monomial(k, b, (n - 1) as nat);
        lemma_single_bit(k, n - 1);
        lemma_xor(times_x_pow(b, k), 0, 0);
    }
}

proof fn lemma_monomial(k: nat)
    requires
        k < 128,
    ensures
        times_x_pow(1, k) == 1u128 << (k as u128),
    decreases k,
{
    if k == 0 {
        assert(1u128 << 0u128 == 1) by (bit_vector);
    } else {
        lemma_monomial((k - 1) as nat);
        let j = (k - 1) as u128;
        assert(j < 127 ==> times_x(1u128 << j) == 1u128 << ((j + 1) as u128)) by (bit_vector);
    }
}

/// The bits of `a` below `n`.
spec fn low_bits(a: u128, n: nat) -> u128 {
    if n >= 128 {
        a
    } else {
        a & (((1u128 << (n as u128)) - 1) as u128)
    }
}

proof fn lemma_partial_product_one(a: u128, n: nat)
    requires
        n <= 128,
    ensures
        partial_product(a, 1, n) == low_bits(a, n),
    decreases n,
{
    if n == 0 {
        assert(a & (((1u128 << 0u128) - 1) as u128) == 0) by (bit_vector);
    } else {
        let m = (n - 1) as nat;
        lemma_partial_product_one(a, m);
        lemma_monomial(m);
        let j = m as u128;
        assert(j < 127 ==> (a & (((1u128 << ((j + 1) as u128)) - 1) as u128)) == if (a >> j) & 1
            == 1 {
            (a & (((1u128 << j) - 1) as u128)) ^ (1u128 << j)
        } else {
            a & (((1u128 << j) - 1) as u128)
        }) by (bit_vector);
        assert(a == if (a >> 127) & 1 == 1 {
            (a & (((1u128 << 127) - 1) as u128)) ^ (1u128 << 127)
        } else {
            a & (((1u128 << 127) - 1) as u128)
        }) by (bit_vector);
    }
}

/// What `x^128 + x^7 + x^2 + x + 1` does to an element.
spec fn modulus_image(a: u128) -> u128 {
    times_x_pow(a, 128) ^ (times_x_pow(a, 7) ^ (times_x_pow(a, 2) ^ (times_x_pow(a, 1) ^ a)))
}

proof fn lemma_modulus_image_linear(a: u128, b: u128)
    ensures
        modulus_image(a ^ b) == modulus_image(a) ^ modulus_image(b),
{
    lemma_times_x_pow_linear(a, b, 128);
    lemma_times_x_pow_linear(a, b, 7);
    lemma_times_x_pow_linear(a, b, 2);
    lemma_times_x_pow_linear(a, b, 1);
    let (a4, a3, a2, a1) = (
        times_x_pow(a, 128),
        times_x_pow(a, 7),
        times_x_pow(a, 2),
        times_x_pow(a, 1),
    );
    let (b4, b3, b2, b1) = (
        times_x_pow(b, 128),
        times_x_pow(b, 7),
        times_x_pow(b, 2),
        times_x_pow(b, 1),
    );
    lemma_xor_exchange(a1, b1, a, b);
    lemma_xor_exchange(a2, b2, a1 ^ a, b1 ^ b);
    lemma_xor_exchange(a3, b3, a2 ^ (a1 ^ a), b2 ^ (b1 ^ b));
    lemma_xor_exchange(a4, b4, a3 ^ (a2 ^ (a1 ^ a)), b3 ^ (b2 ^ (b1 ^ b)));
}

proof fn lemma_modulus_image_times_x(a: u128, k: nat)
    ensures
        modulus_image(times_x_pow(a, k)) == times_x_pow(modulus_image(a), k),
{
    lemma_times_x_pow_adds(a, k, 128);
    lemma_times_x_pow_adds(a, k, 7);
    lemma_times_x_pow_adds(a, k, 2);
    lemma_times_x_pow_adds(a, k, 1);
    lemma_times_x_pow_adds(a, 128, k);
    lemma_times_x_pow_adds(a, 7, k);
    lemma_times_x_pow_adds(a, 2, k);
    lemma_times_x_pow_adds(a, 1, k);
    let (a4, a3, a2, a1) = (
        times_x_pow(a, 128),
        times_x_pow(a, 7),
        times_x_pow(a, 2),
        times_x_pow(a, 1),
    );
    lemma_times_x_pow_linear(a1, a, k);
    lemma_times_x_pow_linear(a2, a1 ^ a, k);
    lemma_times_x_pow_linear(a3, a2 ^ (a1 ^ a), k);
    lemma_times_x_pow_linear(a4, a3 ^ (a2 ^ (a1 ^ a)), k);
}

proof fn lemma_modulus_image_of_one()
    ensures
        modulus_image(1) == 0,
{
    lemma_monomial(127);
    lemma_monomial(7);
    lemma_monomial(2);
    lemma_monomial(1);
    assert(times_x_pow(1, 128) == times_x(times_x_pow(1, 127)));
    assert(times_x(1u128 << 127) == 0x87) by (bit_vector);
    assert(0x87u128 ^ ((1u128 << 7) ^ ((1u128 << 2) ^ ((1u128 << 1) ^ 1))) == 0) by (bit_vector);
}

proof fn lemma_modulus_image_partial(a: u128, n: nat)
    requires
        n <= 128,
    ensures
        modulus_image(partial_product(a, 1, n)) == 0,
    decreases n,
{
    lemma_xor(0, 0, 0);
    if n == 0 {
        lemma_modulus_image_linear(0, 0);
        lemma_xor(modulus_image(0), 0, 0);
    } else {
        let m = (n - 1) as nat;
        lemma_modulus_image_partial(a, m);
        lemma_modulus_image_of_one();
        lemma_modulus_image_times_x(1, m);
        lemma_times_x_pow_linear(0, 0, m);
        lemma_modulus_image_linear(partial_product(a, 1, m), times_x_pow(1, m));
    }
}

/// Multiplying by `x^128` is multiplying by `x^7 + x^2 + x + 1`.
proof fn lemma_modulus(a: u128)
    ensures
        times_x_pow(a, 128) == times_x_pow(a, 7) ^ (times_x_pow(a, 2) ^ (times_x_pow(a, 1) ^ a)),
{
    lemma_modulus_image_partial(a, 128);
    lemma_partial_product_one(a, 128);
    let p = times_x_pow(a, 128);
    let q = times_x_pow(a, 7) ^ (times_x_pow(a, 2) ^ (times_x_pow(a, 1) ^ a));
    lemma_xor(p, q, q);
    lemma_xor(q, q, q);
}

proof fn lemma_partial_product_shift(a: u128, b: u128, n: nat)
    requires
        n <= 127,
    ensures
        partial_product(a << 1, b, n + 1) == times_x(partial_product(a, b, n)),
    decreases n,
{
    lemma_times_x_linear(0, 0);
    if n == 0 {
        assert(!(((a << 1) >> 0) & 1 == 1)) by (bit_vector);
        reveal_with_fuel(partial_product, 2);
    } else {
        let m = (n - 1) as nat;
        lemma_partial_product_shift(a, b, m);
        let j = m as u128;
        assert(j < 127 ==> ((((a << 1) >> ((j + 1) as u128)) & 1 == 1) == ((a >> j) & 1 == 1)))
            by (bit_vector);
        assert(bit(a << 1, n as int) == bit(a, n - 1));
        lemma_times_x_linear(partial_product(a, b, m), times_x_pow(b, m));
        assert(times_x_pow(b, n) == times_x(times_x_pow(b, m)));
        assert(partial_product(a << 1, b, n + 1) == if bit(a << 1, n as int) {
            partial_product(a << 1, b, n) ^ times_x_pow(b, n)
        } else {
            partial_product(a << 1, b, n)
        });
    }
}

proof fn lemma_product_times_x(a: u128, b: u128)
    ensures
        product(times_x(a), b) == times_x(product(a, b)),
{
    lemma_partial_product_shift(a, b, 127);
    let p = partial_product(a, b, 127);
    assert(((a >> 127) & 1 == 1) == (a >> 127 == 1)) by (bit_vector);
    if a >> 127 == 1 {
        assert(product(a, b) == p ^ times_x_pow(b, 127));
        lemma_times_x_linear(p, times_x_pow(b, 127));
        lemma_modulus(b);
        assert(times_x_pow(b, 128) == times_x(times_x_pow(b, 127)));
        lemma_partial_product_left_linear(a << 1, 0x87, b, 128);
        let (k7, k2, k1, k0) = (1u128 << 7, 1u128 << 2, 1u128 << 1, 1u128 << 0);
        assert(0x87u128 == (1u128 << 7) ^ ((1u128 << 2) ^ ((1u128 << 1) ^ (1u128 << 0))))
            by (bit_vector);
        lemma_partial_product_left_linear(k7, k2 ^ (k1 ^ k0), b, 128);
        lemma_partial_product_left_linear(k2, k1 ^ k0, b, 128);
        lemma_partial_product_left_linear(k1, k0, b, 128);
        lemma_partial_product_monomial(7, b, 128);
        lemma_partial_product_monomial(2, b, 128);
        lemma_partial_product_monomial(1, b, 128);
        lemma_partial_product_monomial(0, b, 128);
    }
}

proof fn lemma_product_times_x_pow(a: u128, b: u128, k: nat)
    ensures
        product(times_x_pow(a, k), b) == times_x_pow(product(a, b), k),
    decreases k,
{
    if k > 0 {
        lemma_product_times_x_pow(a, b, (k - 1) as nat);
        lemma_product_times_x(times_x_pow(a, (k - 1) as nat), b);
    }
}

proof fn lemma_product_of_partial(a: u128, b: u128, c: u128, n: nat)
    requires
        n <= 128,
    ensures
        product(partial_product(a, b, n), c) == partial_product(a, product(b, c), n),
    decreases n,
{
    if n == 0 {
        lemma_partial_product_left_linear(0, 0, c, 128);
    } else {
        let m = (n - 1) as nat;
        lemma_product_of_partial(a, b, c, m);
        lemma_product_times_x_pow(b, c, m);
        lemma_partial_product_left_linear(partial_product(a, b, m), times_x_pow(b, m), c, 128);
    }
}

/// Multiplication is associative.
pub proof fn lemma_product_associates(a: u128, b: u128, c: u128)
    ensures
        product(product(a, b), c) == product(a, product(b, c)),
{
    lemma_product_of_partial(a, b, c, 128);
}

/// One is neutral on the right.
pub proof fn lemma_product_one(a: u128)
    ensures
        product(a, 1) == a,
{
    lemma_partial_product_one(a, 128);
}

proof fn lemma_product_with_partial(a: u128, b: u128, n: nat)
    requires
        n <= 128,
    ensures
        product(b, partial_product(a, 1, n)) == partial_product(a, b, n),
    decreases n,
{
    if n == 0 {
        lemma_partial_product_right_linear(b, 0, 0, 128);
    } else {
        let m = (n - 1) as nat;
        lemma_product_with_partial(a, b, m);
        lemma_partial_product_right_linear(b, partial_product(a, 1, m), times_x_pow(1, m), 128);
        lemma_partial_product_times_x(b, 1, 128, m);
        lemma_product_one(b);
    }
}

/// Multiplication is commutative.
pub proof fn lemma_product_commutes(a: u128, b: u128)
    ensures
        product(a, b) == product(b, a),
{
    lemma_product_with_partial(a, b, 128);
    lemma_product_one(a);
}

/// Multiplication distributes over addition, which is the exclusive or.
pub proof fn lemma_product_distributes(a: u128, b: u128, c: u128)
    ensures
        product(a, b ^ c) == product(a, b) ^ product(a, c),
{
    lemma_partial_product_right_linear(a, b, c, 128);
}

/// The product of an element and a power of `x` below `x^128`.
pub proof fn lemma_times_basis(a: u128, k: nat)
    requires
        k < 128,
    ensures
        product(a, 1u128 << (k as u128)) == times_x_pow(a, k),
{
    lemma_product_commutes(a, 1u128 << (k as u128));
    lemma_partial_product_monomial(k, a, 128);
}

/// Words with the same bits are equal.
pub proof fn lemma_equal_bits(a: u128, b: u128)
    requires
        forall|i: int| 0 <= i < 128 ==> #[trigger] bit(a, i) == bit(b, i),
    ensures
        a == b,
{
    lemma_equal_partial_products(a, b, 1, 128);
    lemma_partial_product_one(a, 128);
    lemma_partial_product_one(b, 128);
}

proof fn lemma_equal_partial_products(a: u128, b: u128, c: u128, n: nat)
    requires
        forall|i: int| 0 <= i < 128 ==> #[trigger] bit(a, i) == bit(b, i),
        n <= 128,
    ensures
        partial_product(a, c, n) == partial_product(b, c, n),
    decreases n,
{
    if n > 0 {
        assert(bit(a, n - 1) == bit(b, n - 1));
        lemma_equal_partial_products(a, b, c, (n - 1) as nat);
    }
}

/// Returns the product of the element and `x`.
pub fn mul_x(a: u128) -> (r: u128)
    ensures
        r == times_x(a),
{
    if a >> 127 == 1 {
        (a << 1) ^ 0x87
    } else {
        a << 1
    }
}

/// A word that is shifted out has no more bits.
proof fn lemma_shifted_out(a: u128, i: u128)
    requires
        i < 128,
    ensures
        i < 127 ==> (a >> i) >> 1 == a >> ((i + 1) as u128),
        i == 127 ==> (a >> i) >> 1 == 0,
        forall|j: u128| i <= j < 128 && a >> i == 0 ==> (#[trigger] (a >> j)) & 1 == 0,
{
    assert(i < 127 ==> (a >> i) >> 1 == a >> ((i + 1) as u128)) by (bit_vector);
    assert(i == 127 ==> (a >> i) >> 1 == 0) by (bit_vector);
    assert forall|j: u128| i <= j < 128 && a >> i == 0 implies (#[trigger] (a >> j)) & 1 == 0 by {
        assert(i <= j < 128 && a >> i == 0 ==> (a >> j) & 1 == 0) by (bit_vector);
    }
}

/// Bits that are clear contribute nothing to a product.
proof fn lemma_partial_product_stops(a: u128, b: u128, m: nat, n: nat)
    requires
        m <= n,
        forall|i: int| m <= i < n ==> !(#[trigger] bit(a, i)),
    ensures
        partial_product(a, b, n) == partial_product(a, b, m),
    decreases n,
{
    if m < n {
        assert(!bit(a, n - 1));
        lemma_partial_product_stops(a, b, m, (n - 1) as nat);
    }
}

/// Returns the product of the two words as field elements, with one step for each bit of the
/// first.
fn mul_by_bits(a: u128, b: u128) -> (r: u128)
    ensures
        r == product(a, b),
{
    let mut acc: u128 = 0;
    let mut power: u128 = b;
    let mut rest: u128 = a;
    let mut i: u128 = 0;
    assert(a >> 0u128 == a) by (bit_vector);
    while rest != 0
        invariant
            i <= 128,
            i < 128 ==> rest == a >> i,
            i == 128 ==> rest == 0,
            acc == partial_product(a, b, i as nat),
            power == times_x_pow(b, i as nat),
        decreases 128 - i,
    {
        proof {
            lemma_shifted_out(a, i);
        }
        if rest & 1 == 1 {
            acc = acc ^ power;
        }
        rest = rest >> 1;
        power = mul_x(power);
        i = i + 1;
    }
    proof {
        if i < 128 {
            assert forall|k: int| i <= k < 128 implies !(#[trigger] bit(a, k)) by {
                lemma_shifted_out(a, i);
                assert((a >> (k as u128)) & 1 == 0);
            }
        }
        lemma_partial_product_stops(a, b, i as nat, 128);
    }
    acc
}

/// Returns the product of the two words as field elements.
fn mul_words(a: u128, b: u128) -> (r: u128)
    ensures
        r == product(a, b),
{
    if a <= b {
        mul_by_bits(a, b)
    } else {
        proof {
            lemma_product_commutes(a, b);
        }
        mul_by_bits(b, a)
    }
}

/// Moves bit `i < 64` of a word to position `2 * i` and drops the other bits.
pub open spec fn spread(a: u128) -> u128 {
    let x0 = a & 0xffffffffffffffff;
    let x1 = (x0 | (x0 << 32)) & 0x00000000ffffffff00000000ffffffff;
    let x2 = (x1 | (x1 << 16)) & 0x0000ffff0000ffff0000ffff0000ffff;
    let x3 = (x2 | (x2 << 8)) & 0x00ff00ff00ff00ff00ff00ff00ff00ff;
    let x4 = (x3 | (x3 << 4)) & 0x0f0f0f0f0f0f0f0f0f0f0f0f0f0f0f0f;
    let x5 = (x4 | (x4 << 2)) & 0x33333333333333333333333333333333;
    (x5 | (x5 << 1)) & 0x55555555555555555555555555555555
}

/// The product of an element and `x^128`.
pub open spec fn times_x_128(a: u128) -> u128 {
    let o = (a >> 127) ^ (a >> 126) ^ (a >> 121);
    a ^ (a << 1) ^ (a << 2) ^ (a << 7) ^ o ^ (o << 1) ^ (o << 2) ^ (o << 7)
}

/// The square of an element, computed by spreading its bits.
#[verifier::opaque]
pub open spec fn square(a: u128) -> u128 {
    spread(a) ^ times_x_128(spread(a >> 64))
}

proof fn lemma_square_linear(a: u128, b: u128)
    by (bit_vector)
    ensures
        square(a ^ b) == square(a) ^ square(b),
        square(0) == 0,
        square(1) == 1,
{
}

proof fn lemma_square_monomial(k: nat)
    requires
        k < 128,
    ensures
        square(1u128 << (k as u128)) == times_x_pow(1, 2 * k),
    decreases k,
{
    lemma_square_linear(0, 0);
    if k == 0 {
        assert(1u128 << 0u128 == 1) by (bit_vector);
    } else {
        lemma_square_monomial((k - 1) as nat);
        let j = (k - 1) as u128;
        assert(j < 127 ==> square(1u128 << ((j + 1) as u128)) == times_x(
            times_x(square(1u128 << j)),
        )) by (bit_vector);
        let m = (2 * k - 2) as nat;
        assert(times_x_pow(1, m + 1) == times_x(times_x_pow(1, m)));
        assert(times_x_pow(1, m + 2) == times_x(times_x_pow(1, m + 1)));
    }
}

proof fn lemma_square_partial(a: u128, n: nat)
    requires
        n <= 128,
    ensures
        square(partial_product(a, 1, n)) == product(
            partial_product(a, 1, n),
            partial_product(a, 1, n),
        ),
    decreases n,
{
    lemma_square_linear(0, 0);
    if n == 0 {
        lemma_partial_product_right_linear(0, 0, 0, 128);
    } else {
        let m = (n - 1) as nat;
        let p = partial_product(a, 1, m);
        let q = times_x_pow(1, m);
        lemma_square_partial(a, m);
        lemma_square_linear(p, q);
        lemma_monomial(m);
        lemma_square_monomial(m);
        lemma_partial_product_monomial(m, q, 128);
        lemma_times_x_pow_adds(1, m, m);
        // (p + q)^2 == p^2 + q^2, because the mixed terms cancel
        lemma_partial_product_left_linear(p, q, p ^ q, 128);
        lemma_partial_product_right_linear(p, p, q, 128);
        lemma_partial_product_right_linear(q, p, q, 128);
        lemma_product_commutes(p, q);
        let (pp, pq, qq) = (product(p, p), product(p, q), product(q, q));
        assert((pp ^ pq) ^ (pq ^ qq) == pp ^ qq) by (bit_vector);
    }
}

/// Spreading the bits of an element squares it.
pub proof fn lemma_square(a: u128)
    ensures
        square(a) == product(a, a),
{
    lemma_square_partial(a, 128);
    lemma_product_one(a);
}

/// The element raised to the power `2^n`.
spec fn frobenius(a: u128, n: nat) -> u128
    decreases n,
{
    if n == 0 {
        a
    } else {
        square(frobenius(a, (n - 1) as nat))
    }
}

proof fn lemma_frobenius_linear(a: u128, b: u128, n: nat)
    ensures
        frobenius(a ^ b, n) == frobenius(a, n) ^ frobenius(b, n),
        frobenius(0, n) == 0,
        frobenius(1, n) == 1,
    decreases n,
{
    lemma_square_linear(0, 0);
    if n > 0 {
        let m = (n - 1) as nat;
        lemma_frobenius_linear(a, b, m);
        lemma_square_linear(frobenius(a, m), frobenius(b, m));
    }
}

/// The square of a product is the product of the squares.
proof fn lemma_square_of_product(a: u128, b: u128)
    ensures
        square(product(a, b)) == product(square(a), square(b)),
{
    lemma_square(a);
    lemma_square(b);
    lemma_square(product(a, b));
    // (ab)(ab) == a(b(ab)) == a((ba)b) == a((ab)b) == a(a(bb)) == (aa)(bb)
    lemma_product_associates(a, b, product(a, b));
    lemma_product_associates(b, a, b);
    lemma_product_commutes(a, b);
    lemma_product_associates(a, b, b);
    lemma_product_associates(a, a, product(b, b));
}

proof fn lemma_frobenius_of_product(a: u128, b: u128, n: nat)
    ensures
        frobenius(product(a, b), n) == product(frobenius(a, n), frobenius(b, n)),
    decreases n,
{
    if n > 0 {
        let m = (n - 1) as nat;
        lemma_frobenius_of_product(a, b, m);
        lemma_square_of_product(frobenius(a, m), frobenius(b, m));
    }
}

/// The powers `x^(2^n)`, up to the one that is `x` again.
proof fn lemma_squarings_of_x()
    by (bit_vector)
    ensures
        square(0x2) == 0x4,
        square(0x4) == 0x10,
        square(0x10) == 0x100,
        square(0x100) == 0x10000,
        square(0x10000) == 0x100000000,
        square(0x100000000) == 0x10000000000000000,
        square(0x10000000000000000) == 0x87,
        square(0x87) == 0x4015,
        square(0x4015) == 0x10000111,
        square(0x10000111) == 0x100000000010101,
        square(0x100000000010101) == 0x10000000000000000000100010001,
        square(0x10000000000000000000100010001) == 0x87000000010000000100000001,
        square(0x87000000010000000100000001) == 0x21caea0000000000000086,
        square(0x21caea0000000000000086) == 0x21cae93f7cfc8,
        square(0x21cae93f7cfc8) == 0x4015044544105551550555040,
        square(0x4015044544105551550555040) == 0x1001001111110961118fe6196978ef70,
        square(0x1001001111110961118fe6196978ef70) == 0x860140d2541486c693c692c775187987,
        square(0x860140d2541486c693c692c775187987) == 0x8b69509b312d6501ea618e11df04ea1e,
        square(0x8b69509b312d6501ea618e11df04ea1e) == 0xb715594eb7756558cad0352d30b311b4,
        square(0xb715594eb7756558cad0352d30b311b4) == 0x1afdeffd35e5fde54e1a6f865fe82b9,
        square(0x1afdeffd35e5fde54e1a6f865fe82b9) == 0x11b4a30358935542218289f09c0659ed,
        square(0x11b4a30358935542218289f09c0659ed) == 0x83a513579eda579397b14587eebe264d,
        square(0x83a513579eda579397b14587eebe264d) == 0x83ad91f69582bddf38d15180f9de45ad,
        square(0x83ad91f69582bddf38d15180f9de45ad) == 0xc7f8a41756ad614d1a97936b620f481d,
        square(0xc7f8a41756ad614d1a97936b620f481d) == 0xbb844bf6957599a6e94bf5687ccf4c39,
        square(0xbb844bf6957599a6e94bf5687ccf4c39) == 0x2c3bd83d0661350d5aadb3837634c244,
        square(0x2c3bd83d0661350d5aadb3837634c244) == 0x24f6fc2353c7f2321f726995c3f33829,
        square(0x24f6fc2353c7f2321f726995c3f33829) == 0x150e344316f35f82a5b7efc52c5e9c53,
        square(0x150e344316f35f82a5b7efc52c5e9c53) == 0xcbe66ebbc72d228a891738c79d5ad319,
        square(0xcbe66ebbc72d228a891738c79d5ad319) == 0xd331a77342cf2867fbb824714f38f6c2,
        square(0xd331a77342cf2867fbb824714f38f6c2) == 0x60dcdee4d2f1fc9262609e6968de22b0,
        square(0x60dcdee4d2f1fc9262609e6968de22b0) == 0x782d0a995dd3b01821777af80695052a,
        square(0x782d0a995dd3b01821777af80695052a) == 0xcec3202236b9330fde0a74a95b11a7b2,
        square(0xcec3202236b9330fde0a74a95b11a7b2) == 0xcad1b2dd09125a5f800a7b44dd8e7a70,
        square(0xcad1b2dd09125a5f800a7b44dd8e7a70) == 0xd3f537e04c700e277016c540c190dd74,
        square(0xd3f537e04c700e277016c540c190dd74) == 0x20b022e1c1d1bc0809bbaa007aff17a4,
        square(0x20b022e1c1d1bc0809bbaa007aff17a4) == 0x1c621e475a73acaea5ea62f173a564de,
        square(0x1c621e475a73acaea5ea62f173a564de) == 0xeaab3a58b8a02fe2c1d3ada9e183a6f8,
        square(0xeaab3a58b8a02fe2c1d3ada9e183a6f8) == 0xdffeae5cfc8592a22ee29c077314ee0d,
        square(0xdffeae5cfc8592a22ee29c077314ee0d) == 0x1854548bb6f4de8e1794c9c6116bca12,
        square(0x1854548bb6f4de8e1794c9c6116bca12) == 0xa7ddbe68af10b36c5046371c4cc9eaa8,
        square(0xa7ddbe68af10b36c5046371c4cc9eaa8) == 0xc7c20e0075b34cb3e77bd7620dd51099,
        square(0xc7c20e0075b34cb3e77bd7620dd51099) == 0xeed7a7597ab9140ee385088258930c85,
        square(0xeed7a7597ab9140ee385088258930c85) == 0xd3807dd9d6a39649d9bf3b428f207eec,
        square(0xd3807dd9d6a39649d9bf3b428f207eec) == 0x64fb855fc75b066a7d1adaba58301148,
        square(0x64fb855fc75b066a7d1adaba58301148) == 0x710a093e99bb9946aba3d15b0b675aaa,
        square(0x710a093e99bb9946aba3d15b0b675aaa) == 0xafc267d97044a1c866216c6f770b3b1e,
        square(0xafc267d97044a1c866216c6f770b3b1e) == 0xe316b61772920218fe1d7816d9eb81fd,
        square(0xe316b61772920218fe1d7816d9eb81fd) == 0xfbcf8c1e442c8cf5b87c1159421de6c0,
        square(0xfbcf8c1e442c8cf5b87c1159421de6c0) == 0x4d328e5ae8b1bde5687634c0bd8f66a6,
        square(0x4d328e5ae8b1bde5687634c0bd8f66a6) == 0x4d758c29eeb484f7c8b21bf16608e4db,
        square(0x4d758c29eeb484f7c8b21bf16608e4db) == 0x97da6d2e8f7686d939b53119c4b7496,
        square(0x97da6d2e8f7686d939b53119c4b7496) == 0x60488351c7403436ccbb31a458da0423,
        square(0x60488351c7403436ccbb31a458da0423) == 0x3c5814a4c792b3beaba321469362905f,
        square(0x3c5814a4c792b3beaba321469362905f) == 0xf6fd92c58b52c44dfbcf513b18b860f7,
        square(0xf6fd92c58b52c44dfbcf513b18b860f7) == 0x740252435434bd93e213b075ac781973,
        square(0x740252435434bd93e213b075ac781973) == 0xb7740311b0146782bb228613735755a8,
        square(0xb7740311b0146782bb228613735755a8) == 0x14a4e774428f86a14e059e6f77db9735,
        square(0x14a4e774428f86a14e059e6f77db9735) == 0x9f07d44ae7b5f72d6728ba4f8b5ad996,
        square(0x9f07d44ae7b5f72d6728ba4f8b5ad996) == 0x783e0e827a3c43a2e68d429870a86444,
        square(0x783e0e827a3c43a2e68d429870a86444) == 0x9ed6f0fd3b898356dddef6f866a8cb3a,
        square(0x9ed6f0fd3b898356dddef6f866a8cb3a) == 0x3dd46c137e3f5775ac6ea52692d6e84f,
        square(0x3dd46c137e3f5775ac6ea52692d6e84f) == 0xf64e2b2e01a1818581aae137a9a1f2ac,
        square(0xf64e2b2e01a1818581aae137a9a1f2ac) == 0x61651fea6b5832b944e598a795a299f6,
        square(0x61651fea6b5832b944e598a795a299f6) == 0x7c9d30e6ed40cbc30e4292c6d87e2a65,
        square(0x7c9d30e6ed40cbc30e4292c6d87e2a65) == 0xc2c57e31da2ff653d47f657d9736a3bc,
        square(0xc2c57e31da2ff653d47f657d9736a3bc) == 0xe325ada8d4bf8eff55cb32146561a494,
        square(0xe325ada8d4bf8eff55cb32146561a494) == 0xbf884491f010fcf92b42640baf97546a,
        square(0xbf884491f010fcf92b42640baf97546a) == 0x744ff1cc6c4147e96f55c63e138b0f6a,
        square(0x744ff1cc6c4147e96f55c63e138b0f6a) == 0xf72d4a117bba9cee44bd30ca7a959c35,
        square(0xf72d4a117bba9cee44bd30ca7a959c35) == 0x31f9706e56dcd7c9dd3c39ec2fcb97ec,
        square(0x31f9706e56dcd7c9dd3c39ec2fcb97ec) == 0xcafd0f1dee4b13f4f9104edc7cd7c419,
        square(0xcafd0f1dee4b13f4f9104edc7cd7c419) == 0xc6b603373b7fff4c92f4024ed5a0366e,
        square(0xc6b603373b7fff4c92f4024ed5a0366e) == 0xfb4b047c029d81bde9408400053759bb,
        square(0xfb4b047c029d81bde9408400053759bb) == 0x5c12435b486ac2b0022c6b03d1e52223,
        square(0x5c12435b486ac2b0022c6b03d1e52223) == 0xdeb4814466d6d45600cb1be4b63b5b3d,
        square(0xdeb4814466d6d45600cb1be4b63b5b3d) == 0x1c8f0314c1ca2c6a235138002e3dec62,
        square(0x1c8f0314c1ca2c6a235138002e3dec62) == 0xaa94fa2a07db8f59b4fa968f61ea5bd8,
        square(0xaa94fa2a07db8f59b4fa968f61ea5bd8) == 0xbaed1a1f49ca7f891ec3403efa66966e,
        square(0xbaed1a1f49ca7f891ec3403efa66966e) == 0x79a3d532b4dca977042a87c2811ee47a,
        square(0x79a3d532b4dca977042a87c2811ee47a) == 0xca74daf67fe0c93b13581fc7a95df199,
        square(0xca74daf67fe0c93b13581fc7a95df199) == 0x92d3f21915a271738441bd78c444ed45,
        square(0x92d3f21915a271738441bd78c444ed45) == 0x52525b16c4db307dfc4ce06bfdce9ed,
        square(0x52525b16c4db307dfc4ce06bfdce9ed) == 0x59a044e544805b9900ed08440dda5eba,
        square(0x59a044e544805b9900ed08440dda5eba) == 0xd6648859781bb4ef7800914cc52e273b,
        square(0xd6648859781bb4ef7800914cc52e273b) == 0x28266451a0c9c61d9ad1a02c574e9631,
        square(0x28266451a0c9c61d9ad1a02c574e9631) == 0x7c8647672078f3f4cd3c813afb78aa38,
        square(0x7c8647672078f3f4cd3c813afb78aa38) == 0x92c0cf343ae063ad494fdfab6df42306,
        square(0x92c0cf343ae063ad494fdfab6df42306) == 0x5574a07cca7cd737aca6f91a6abde544,
        square(0x5574a07cca7cd737aca6f91a6abde544) == 0xbbada747894bc3dd879287c869f885c3,
        square(0xbbada747894bc3dd879287c869f885c3) == 0x386db41096f62a8af50e0632f2a35f5b,
        square(0x386db41096f62a8af50e0632f2a35f5b) == 0xefdb4540536482251843656b2ea8f397,
        square(0xefdb4540536482251843656b2ea8f397) == 0x864204566cee644df1c52011971b40b3,
        square(0x864204566cee644df1c52011971b40b3) == 0x9f65220d0c78fc67048e86e374780c55,
        square(0x9f65220d0c78fc67048e86e374780c55) == 0x6c3124a15e087d323caadfab02ea679d,
        square(0x6c3124a15e087d323caadfab02ea679d) == 0x40e2dfc1450698cadca8758ed620dd7b,
        square(0x40e2dfc1450698cadca8758ed620dd7b) == 0x217bea750913f0db29e30e4d37b882a1,
        square(0x217bea750913f0db29e30e4d37b882a1) == 0x18cc9c758f82f3a62452c0f06b2d5154,
        square(0x18cc9c758f82f3a62452c0f06b2d5154) == 0xa2f988953ebab6d6ff4fc66638b9c77c,
        square(0xa2f988953ebab6d6ff4fc66638b9c77c) == 0x8b621a33b1f55be1b5cf3dbe01503955,
        square(0x8b621a33b1f55be1b5cf3dbe01503955) == 0xa6403e49a18fdcec5bad32ffd131adf1,
        square(0xa6403e49a18fdcec5bad32ffd131adf1) == 0xc7213453b5a004318da7ee035acac1d8,
        square(0xc7213453b5a004318da7ee035acac1d8) == 0xfab85890c72cf5bd42908c445873de98,
        square(0xfab85890c72cf5bd42908c445873de98) == 0x18fb3bc896b15739aba9209e72802626,
        square(0x18fb3bc896b15739aba9209e72802626) == 0xe2ae4c18bc72d0b5584b1b8ff9fdbe53,
        square(0xe2ae4c18bc72d0b5584b1b8ff9fdbe53) == 0xbf7fe7e158f5e6b627fbbc64727757a3,
        square(0xbf7fe7e158f5e6b627fbbc64727757a3) == 0x74349545e390b89fc3ef36c9b75a0400,
        square(0x74349545e390b89fc3ef36c9b75a0400) == 0xb377c7044aeb289debaf56677af1691d,
        square(0xb377c7044aeb289debaf56677af1691d) == 0xdd4a597abff1c6d46b3da5829a07e0f,
        square(0xdd4a597abff1c6d46b3da5829a07e0f) == 0x390a7a5685925c88fb31442bbbee4562,
        square(0x390a7a5685925c88fb31442bbbee4562) == 0xef0226d7d8c4f9088d931140ce80f4ca,
        square(0xef0226d7d8c4f9088d931140ce80f4ca) == 0xc77a431b17442dc246bdf85b5f5764d5,
        square(0xc77a431b17442dc246bdf85b5f5764d5) == 0xaaf58d8527dbb51e9cb66967210ef752,
        square(0xaaf58d8527dbb51e9cb66967210ef752) == 0xbea766c2fd57dce012c3142c06e2acc1,
        square(0xbea766c2fd57dce012c3142c06e2acc1) == 0x718b86e46755b667022ba9c65acbed68,
        square(0x718b86e46755b667022ba9c65acbed68) == 0xeba2e73f8e06f46e77a7af910537779d,
        square(0xeba2e73f8e06f46e77a7af910537779d) == 0x9a6d9a22e2bcf10bebbd0f52366f13ac,
        square(0x9a6d9a22e2bcf10bebbd0f52366f13ac) == 0x30930047648b0f33ab2b66ce2a82776c,
        square(0x30930047648b0f33ab2b66ce2a82776c) == 0xdf6441de141c2ab56015a35f3e3c8cc5,
        square(0xdf6441de141c2ab56015a35f3e3c8cc5) == 0x821656934ab0df98a24abe27faf17b9,
        square(0x821656934ab0df98a24abe27faf17b9) == 0x6186189d20b819418606bb0e28094f06,
        square(0x6186189d20b819418606bb0e28094f06) == 0x2cb2ca78e3a46e6118637a81b61a75a5,
        square(0x2cb2ca78e3a46e6118637a81b61a75a5) == 0x34d34d3086928aeaebacd53e52b72998,
        square(0x34d34d3086928aeaebacd53e52b72998) == 0xc71c71c308249e75db490028e7b6cf92,
        square(0xc71c71c308249e75db490028e7b6cf92) == 0xebaebefbebaeb6db75d751453cf3b6ac,
        square(0xebaebefbebaeb6db75d751453cf3b6ac) == 0x9a69a69a618618618a28a28a1451455a,
        square(0x9a69a69a618618618a28a28a1451455a) == 0x24924924924924926db6db6db6db6da4,
        square(0x24924924924924926db6db6db6db6da4) == 0x2,
{
}

proof fn lemma_frobenius_of_x()
    ensures
        frobenius(2, 128) == 2,
{
    lemma_squarings_of_x();
    assert(frobenius(2, 0) == 0x2);
    assert(frobenius(2, 1) == 0x4);
    assert(frobenius(2, 2) == 0x10);
    assert(frobenius(2, 3) == 0x100);
    assert(frobenius(2, 4) == 0x10000);
    assert(frobenius(2, 5) == 0x100000000);
    assert(frobenius(2, 6) == 0x10000000000000000);
    assert(frobenius(2, 7) == 0x87);
    assert(frobenius(2, 8) == 0x4015);
    assert(frobenius(2, 9) == 0x10000111);
    assert(frobenius(2, 10) == 0x100000000010101);
    assert(frobenius(2, 11) == 0x10000000000000000000100010001);
    assert(frobenius(2, 12) == 0x87000000010000000100000001);
    assert(frobenius(2, 13) == 0x21caea0000000000000086);
    assert(frobenius(2, 14) == 0x21cae93f7cfc8);
    assert(frobenius(2, 15) == 0x4015044544105551550555040);
    assert(frobenius(2, 16) == 0x1001001111110961118fe6196978ef70);
    assert(frobenius(2, 17) == 0x860140d2541486c693c692c775187987);
    assert(frobenius(2, 18) == 0x8b69509b312d6501ea618e11df04ea1e);
    assert(frobenius(2, 19) == 0xb715594eb7756558cad0352d30b311b4);
    assert(frobenius(2, 20) == 0x1afdeffd35e5fde54e1a6f865fe82b9);
    assert(frobenius(2, 21) == 0x11b4a30358935542218289f09c0659ed);
    assert(frobenius(2, 22) == 0x83a513579eda579397b14587eebe264d);
    assert(frobenius(2, 23) == 0x83ad91f69582bddf38d15180f9de45ad);
    assert(frobenius(2, 24) == 0xc7f8a41756ad614d1a97936b620f481d);
    assert(frobenius(2, 25) == 0xbb844bf6957599a6e94bf5687ccf4c39);
    assert(frobenius(2, 26) == 0x2c3bd83d0661350d5aadb3837634c244);
    assert(frobenius(2, 27) == 0x24f6fc2353c7f2321f726995c3f33829);
    assert(frobenius(2, 28) == 0x150e344316f35f82a5b7efc52c5e9c53);
    assert(frobenius(2, 29) == 0xcbe66ebbc72d228a891738c79d5ad319);
    assert(frobenius(2, 30) == 0xd331a77342cf2867fbb824714f38f6c2);
    assert(frobenius(2, 31) == 0x60dcdee4d2f1fc9262609e6968de22b0);
    assert(frobenius(2, 32) == 0x782d0a995dd3b01821777af80695052a);
    assert(frobenius(2, 33) == 0xcec3202236b9330fde0a74a95b11a7b2);
    assert(frobenius(2, 34) == 0xcad1b2dd09125a5f800a7b44dd8e7a70);
    assert(frobenius(2, 35) == 0xd3f537e04c700e277016c540c190dd74);
    assert(frobenius(2, 36) == 0x20b022e1c1d1bc0809bbaa007aff17a4);
    assert(frobenius(2, 37) == 0x1c621e475a73acaea5ea62f173a564de);
    assert(frobenius(2, 38) == 0xeaab3a58b8a02fe2c1d3ada9e183a6f8);
    assert(frobenius(2, 39) == 0xdffeae5cfc8592a22ee29c077314ee0d);
    assert(frobenius(2, 40) == 0x1854548bb6f4de8e1794c9c6116bca12);
    assert(frobenius(2, 41) == 0xa7ddbe68af10b36c5046371c4cc9eaa8);
    assert(frobenius(2, 42) == 0xc7c20e0075b34cb3e77bd7620dd51099);
    assert(frobenius(2, 43) == 0xeed7a7597ab9140ee385088258930c85);
    assert(frobenius(2, 44) == 0xd3807dd9d6a39649d9bf3b428f207eec);
    assert(frobenius(2, 45) == 0x64fb855fc75b066a7d1adaba58301148);
    assert(frobenius(2, 46) == 0x710a093e99bb9946aba3d15b0b675aaa);
    assert(frobenius(2, 47) == 0xafc267d97044a1c866216c6f770b3b1e);
    assert(frobenius(2, 48) == 0xe316b61772920218fe1d7816d9eb81fd);
    assert(frobenius(2, 49) == 0xfbcf8c1e442c8cf5b87c1159421de6c0);
    assert(frobenius(2, 50) == 0x4d328e5ae8b1bde5687634c0bd8f66a6);
    assert(frobenius(2, 51) == 0x4d758c29eeb484f7c8b21bf16608e4db);
    assert(frobenius(2, 52) == 0x97da6d2e8f7686d939b53119c4b7496);
    assert(frobenius(2, 53) == 0x60488351c7403436ccbb31a458da0423);
    assert(frobenius(2, 54) == 0x3c5814a4c792b3beaba321469362905f);
    assert(frobenius(2, 55) == 0xf6fd92c58b52c44dfbcf513b18b860f7);
    assert(frobenius(2, 56) == 0x740252435434bd93e213b075ac781973);
    assert(frobenius(2, 57) == 0xb7740311b0146782bb228613735755a8);
    assert(frobenius(2, 58) == 0x14a4e774428f86a14e059e6f77db9735);
    assert(frobenius(2, 59) == 0x9f07d44ae7b5f72d6728ba4f8b5ad996);
    assert(frobenius(2, 60) == 0x783e0e827a3c43a2e68d429870a86444);
    assert(frobenius(2, 61) == 0x9ed6f0fd3b898356dddef6f866a8cb3a);
    assert(frobenius(2, 62) == 0x3dd46c137e3f5775ac6ea52692d6e84f);
    assert(frobenius(2, 63) == 0xf64e2b2e01a1818581aae137a9a1f2ac);
    assert(frobenius(2, 64) == 0x61651fea6b5832b944e598a795a299f6);
    assert(frobenius(2, 65) == 0x7c9d30e6ed40cbc30e4292c6d87e2a65);
    assert(frobenius(2, 66) == 0xc2c57e31da2ff653d47f657d9736a3bc);
    assert(frobenius(2, 67) == 0xe325ada8d4bf8eff55cb32146561a494);
    assert(frobenius(2, 68) == 0xbf884491f010fcf92b42640baf97546a);
    assert(frobenius(2, 69) == 0x744ff1cc6c4147e96f55c63e138b0f6a);
    assert(frobenius(2, 70) == 0xf72d4a117bba9cee44bd30ca7a959c35);
    assert(frobenius(2, 71) == 0x31f9706e56dcd7c9dd3c39ec2fcb97ec);
    assert(frobenius(2, 72) == 0xcafd0f1dee4b13f4f9104edc7cd7c419);
    assert(frobenius(2, 73) == 0xc6b603373b7fff4c92f4024ed5a0366e);
    assert(frobenius(2, 74) == 0xfb4b047c029d81bde9408400053759bb);
    assert(frobenius(2, 75) == 0x5c12435b486ac2b0022c6b03d1e52223);
    assert(frobenius(2, 76) == 0xdeb4814466d6d45600cb1be4b63b5b3d);
    assert(frobenius(2, 77) == 0x1c8f0314c1ca2c6a235138002e3dec62);
    assert(frobenius(2, 78) == 0xaa94fa2a07db8f59b4fa968f61ea5bd8);
    assert(frobenius(2, 79) == 0xbaed1a1f49ca7f891ec3403efa66966e);
    assert(frobenius(2, 80) == 0x79a3d532b4dca977042a87c2811ee47a);
    assert(frobenius(2, 81) == 0xca74daf67fe0c93b13581fc7a95df199);
    assert(frobenius(2, 82) == 0x92d3f21915a271738441bd78c444ed45);
    assert(frobenius(2, 83) == 0x52525b16c4db307dfc4ce06bfdce9ed);
    assert(frobenius(2, 84) == 0x59a044e544805b9900ed08440dda5eba);
    assert(frobenius(2, 85) == 0xd6648859781bb4ef7800914cc52e273b);
    assert(frobenius(2, 86) == 0x28266451a0c9c61d9ad1a02c574e9631);
    assert(frobenius(2, 87) == 0x7c8647672078f3f4cd3c813afb78aa38);
    assert(frobenius(2, 88) == 0x92c0cf343ae063ad494fdfab6df42306);
    assert(frobenius(2, 89) == 0x5574a07cca7cd737aca6f91a6abde544);
    assert(frobenius(2, 90) == 0xbbada747894bc3dd879287c869f885c3);
    assert(frobenius(2, 91) == 0x386db41096f62a8af50e0632f2a35f5b);
    assert(frobenius(2, 92) == 0xefdb4540536482251843656b2ea8f397);
    assert(frobenius(2, 93) == 0x864204566cee644df1c52011971b40b3);
    assert(frobenius(2, 94) == 0x9f65220d0c78fc67048e86e374780c55);
    assert(frobenius(2, 95) == 0x6c3124a15e087d323caadfab02ea679d);
    assert(frobenius(2, 96) == 0x40e2dfc1450698cadca8758ed620dd7b);
    assert(frobenius(2, 97) == 0x217bea750913f0db29e30e4d37b882a1);
    assert(frobenius(2, 98) == 0x18cc9c758f82f3a62452c0f06b2d5154);
    assert(frobenius(2, 99) == 0xa2f988953ebab6d6ff4fc66638b9c77c);
    assert(frobenius(2, 100) == 0x8b621a33b1f55be1b5cf3dbe01503955);
    assert(frobenius(2, 101) == 0xa6403e49a18fdcec5bad32ffd131adf1);
    assert(frobenius(2, 102) == 0xc7213453b5a004318da7ee035acac1d8);
    assert(frobenius(2, 103) == 0xfab85890c72cf5bd42908c445873de98);
    assert(frobenius(2, 104) == 0x18fb3bc896b15739aba9209e72802626);
    assert(frobenius(2, 105) == 0xe2ae4c18bc72d0b5584b1b8ff9fdbe53);
    assert(frobenius(2, 106) == 0xbf7fe7e158f5e6b627fbbc64727757a3);
    assert(frobenius(2, 107) == 0x74349545e390b89fc3ef36c9b75a0400);
    assert(frobenius(2, 108) == 0xb377c7044aeb289debaf56677af1691d);
    assert(frobenius(2, 109) == 0xdd4a597abff1c6d46b3da5829a07e0f);
    assert(frobenius(2, 110) == 0x390a7a5685925c88fb31442bbbee4562);
    assert(frobenius(2, 111) == 0xef0226d7d8c4f9088d931140ce80f4ca);
    assert(frobenius(2, 112) == 0xc77a431b17442dc246bdf85b5f5764d5);
    assert(frobenius(2, 113) == 0xaaf58d8527dbb51e9cb66967210ef752);
    assert(frobenius(2, 114) == 0xbea766c2fd57dce012c3142c06e2acc1);
    assert(frobenius(2, 115) == 0x718b86e46755b667022ba9c65acbed68);
    assert(frobenius(2, 116) == 0xeba2e73f8e06f46e77a7af910537779d);
    assert(frobenius(2, 117) == 0x9a6d9a22e2bcf10bebbd0f52366f13ac);
    assert(frobenius(2, 118) == 0x30930047648b0f33ab2b66ce2a82776c);
    assert(frobenius(2, 119) == 0xdf6441de141c2ab56015a35f3e3c8cc5);
    assert(frobenius(2, 120) == 0x821656934ab0df98a24abe27faf17b9);
    assert(frobenius(2, 121) == 0x6186189d20b819418606bb0e28094f06);
    assert(frobenius(2, 122) == 0x2cb2ca78e3a46e6118637a81b61a75a5);
    assert(frobenius(2, 123) == 0x34d34d3086928aeaebacd53e52b72998);
    assert(frobenius(2, 124) == 0xc71c71c308249e75db490028e7b6cf92);
    assert(frobenius(2, 125) == 0xebaebefbebaeb6db75d751453cf3b6ac);
    assert(frobenius(2, 126) == 0x9a69a69a618618618a28a28a1451455a);
    assert(frobenius(2, 127) == 0x24924924924924926db6db6db6db6da4);
    assert(frobenius(2, 128) == 0x2);
}

proof fn lemma_times_x_is_product(a: u128)
    ensures
        times_x(a) == product(2, a),
{
    lemma_partial_product_monomial(1, a, 128);
    assert(1u128 << 1u128 == 2) by (bit_vector);
    reveal_with_fuel(times_x_pow, 2);
}

proof fn lemma_frobenius_of_monomial(k: nat)
    ensures
        frobenius(times_x_pow(1, k), 128) == times_x_pow(1, k),
    decreases k,
{
    if k == 0 {
        lemma_frobenius_linear(1, 1, 128);
    } else {
        let m = (k - 1) as nat;
        lemma_frobenius_of_monomial(m);
        lemma_frobenius_of_x();
        lemma_times_x_is_product(times_x_pow(1, m));
        lemma_frobenius_of_product(2, times_x_pow(1, m), 128);
    }
}

proof fn lemma_frobenius_of_partial(a: u128, n: nat)
    requires
        n <= 128,
    ensures
        frobenius(partial_product(a, 1, n), 128) == partial_product(a, 1, n),
    decreases n,
{
    if n == 0 {
        lemma_frobenius_linear(0, 0, 128);
    } else {
        let m = (n - 1) as nat;
        lemma_frobenius_of_partial(a, m);
        lemma_frobenius_of_monomial(m);
        lemma_frobenius_linear(partial_product(a, 1, m), times_x_pow(1, m), 128);
    }
}

/// Every element is its own power with exponent `2^128`.
proof fn lemma_frobenius_period(a: u128)
    ensures
        frobenius(a, 128) == a,
{
    lemma_frobenius_of_partial(a, 128);
    lemma_product_one(a);
}

/// The product of the powers `a^(2^i)` over `i < n`, that is `a^(2^n - 1)`.
spec fn norm(a: u128, n: nat) -> u128
    decreases n,
{
    if n == 0 {
        1
    } else {
        product(norm(a, (n - 1) as nat), frobenius(a, (n - 1) as nat))
    }
}

proof fn lemma_norm_square(a: u128, n: nat)
    ensures
        product(square(norm(a, n)), a) == norm(a, n + 1),
    decreases n,
{
    if n == 0 {
        lemma_square_linear(0, 0);
        reveal_with_fuel(norm, 2);
        lemma_product_one(a);
        lemma_product_commutes(a, 1);
    } else {
        let m = (n - 1) as nat;
        lemma_norm_square(a, m);
        let (p, f) = (norm(a, m), frobenius(a, m));
        lemma_square_of_product(p, f);
        // (p^2 f^2) a == (p^2 a) f^2
        lemma_product_associates(square(p), square(f), a);
        lemma_product_commutes(square(f), a);
        lemma_product_associates(square(p), a, square(f));
        assert(norm(a, n + 1) == product(norm(a, n), frobenius(a, n)));
    }
}

proof fn lemma_times_norm(a: u128, n: nat)
    ensures
        product(a, norm(a, n)) == frobenius(a, n),
    decreases n,
{
    if n == 0 {
        lemma_product_one(a);
    } else {
        let m = (n - 1) as nat;
        lemma_times_norm(a, m);
        lemma_product_associates(a, norm(a, m), frobenius(a, m));
        lemma_square(frobenius(a, m));
    }
}

/// Zero and one are the only elements that are their own squares.
proof fn lemma_idempotents(e: u128)
    by (bit_vector)
    requires
        square(e) == e,
    ensures
        e == 0 || e == 1,
{
}

/// The power with exponent `2^128 - 2` inverts every element but zero.
proof fn lemma_fermat(a: u128)
    requires
        a != 0,
    ensures
        product(a, square(norm(a, 127))) == 1,
{
    let e = norm(a, 128);
    let r = square(norm(a, 127));
    lemma_norm_square(a, 127);
    lemma_product_commutes(a, r);
    assert(product(a, r) == e);
    // a e == a^(2^128) == a, so e is idempotent
    lemma_times_norm(a, 128);
    lemma_frobenius_period(a);
    lemma_product_commutes(a, e);
    lemma_product_associates(e, a, r);
    lemma_square(e);
    lemma_idempotents(e);
    // and it is not zero
    lemma_partial_product_right_linear(a, 0, 0, 128);
}

proof fn lemma_norm_of_zero(n: nat)
    ensures
        norm(0, n + 1) == 0,
{
    lemma_frobenius_linear(0, 0, n);
    lemma_partial_product_right_linear(norm(0, n), 0, 0, 128);
}

impl B128 {
    /// Makes the element whose coefficients are the bits of `val`.
    pub fn new(val: u128) -> (r: Self)
        ensures
            r.val == val,
    {
        B128 { val }
    }

    /// Returns the word whose bits are the coefficients of the element.
    pub fn val(self) -> (r: u128)
        ensures
            r == self.val,
    {
        self.val
    }
}

impl Ring for B128 {
    open spec fn zero_spec() -> Self {
        B128 { val: 0 }
    }

    open spec fn one_spec() -> Self {
        B128 { val: 1 }
    }

    open spec fn plus(self, other: Self) -> Self {
        B128 { val: self.val ^ other.val }
    }

    open spec fn minus(self, other: Self) -> Self {
        B128 { val: self.val ^ other.val }
    }

    open spec fn times(self, other: Self) -> Self {
        B128 { val: product(self.val, other.val) }
    }

    proof fn law_plus_commutes(a: Self, b: Self) {
        lemma_xor(a.val, b.val, 0);
    }

    proof fn law_plus_associates(a: Self, b: Self, c: Self) {
        lemma_xor(a.val, b.val, c.val);
    }

    proof fn law_plus_zero(a: Self) {
        lemma_xor(a.val, 0, 0);
    }

    proof fn law_minus(a: Self, b: Self) {
        lemma_xor(a.val, b.val, 0);
    }

    proof fn law_times_commutes(a: Self, b: Self) {
        lemma_product_commutes(a.val, b.val);
    }

    proof fn law_times_associates(a: Self, b: Self, c: Self) {
        lemma_product_associates(a.val, b.val, c.val);
    }

    proof fn law_times_one(a: Self) {
        lemma_product_one(a.val);
    }

    proof fn law_distributes(a: Self, b: Self, c: Self) {
        lemma_product_distributes(a.val, b.val, c.val);
    }
}

impl Field for B128 {
    proof fn law_zero_is_not_one() {
    }

    proof fn law_inverse_exists(a: Self) {
        lemma_fermat(a.val);
        assert(a.times(B128 { val: square(norm(a.val, 127)) }) == Self::one_spec());
    }

    fn zero() -> (r: Self) {
        B128 { val: 0 }
    }

    fn one() -> (r: Self) {
        B128 { val: 1 }
    }

    fn add(self, other: Self) -> (r: Self) {
        B128 { val: self.val ^ other.val }
    }

    fn sub(self, other: Self) -> (r: Self) {
        B128 { val: self.val ^ other.val }
    }

    fn mul(self, other: Self) -> (r: Self) {
        B128 { val: mul_words(self.val, other.val) }
    }

    fn invert_or_zero(self) -> (r: Self) {
        let a: u128 = self.val;
        let mut e: u128 = 1;
        let mut s: u128 = a;
        let mut i: u32 = 0;
        while i < 127
            invariant
                i <= 127,
                e == norm(a, i as nat),
                s == frobenius(a, i as nat),
            decreases 127 - i,
        {
            proof {
                lemma_square(s);
            }
            e = mul_words(e, s);
            s = mul_words(s, s);
            i = i + 1;
        }
        proof {
            lemma_square(e);
            if a != 0 {
                lemma_fermat(a);
            } else {
                lemma_norm_of_zero(126);
                lemma_partial_product_right_linear(0, 0, 0, 128);
            }
        }
        B128 { val: mul_words(e, e) }
    }

    fn is_equal(self, other: Self) -> (r: bool) {
        self.val == other.val
    }
}

impl BinaryField for B128 {
    proof fn law_characteristic_two(a: Self) {
        lemma_xor(a.val, 0, 0);
    }

    open spec fn subspace_point(i: int) -> Self {
        B128 { val: i as u128 }
    }

    proof fn law_subspace_points_differ(i: int, j: int) {
    }

    fn subspace_element(i: usize) -> (r: Self) {
        B128 { val: i as u128 }
    }
}

/// The points of the bit-index domain and of the message domain are the elements whose coordinates
/// in the power basis are the bits of their index.
pub proof fn law_points_have_index_bits(i: int)
    requires
        0 <= i < 256,
    ensures
        B128::subspace_point(i).val == i,
{
}

} // verus!
