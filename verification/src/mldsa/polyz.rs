//! Bit-packing of the response polynomials, and the norm check on them.
//!
//! A coefficient `c` of `z` is held in its centred form `gamma1 - c`, which takes 18 bits; four
//! centred coefficients are packed into nine bytes. The norm bound `|c| < gamma1 - beta` is
//! `beta < centred < 2 * gamma1 - beta`.

use vstd::arithmetic::div_mod::{
    lemma_div_denominator, lemma_fundamental_div_mod, lemma_fundamental_div_mod_converse,
};
use vstd::arithmetic::power2::{
    lemma2_to64, lemma2_to64_rest, lemma_pow2_adds, lemma_pow2_pos, lemma_pow2_unfold, pow2,
};
use vstd::prelude::*;

use super::circuit::{at, CircuitBuilder, Wire};
use super::params::GAMMA1;
use crate::words::{
    lemma_peel, lane_of_bytes, lanes_of_bytes, lemma_lane_bytes, read_lane, word_byte,
};

verus! {

/// Bytes per packed `z` polynomial.
pub const POLYZ_PACKED_BYTES: usize = 576;

/// The same as 64-bit lanes.
pub const POLYZ_PACKED_LANES: usize = 72;

/// The number that the nine bytes of a group make, from the least significant one on.
pub open spec fn byte_group(bytes: Seq<u8>, g: int) -> int {
    bytes[9 * g] + 0x100 * bytes[9 * g + 1] + 0x1_0000 * bytes[9 * g + 2] + 0x100_0000 * bytes[9 * g
        + 3] + 0x1_0000_0000 * bytes[9 * g + 4] + 0x100_0000_0000 * bytes[9 * g + 5]
        + 0x1_0000_0000_0000 * bytes[9 * g + 6] + 0x100_0000_0000_0000 * bytes[9 * g + 7]
        + 0x1_0000_0000_0000_0000 * bytes[9 * g + 8]
}

/// The number that the four 18-bit coefficients of a group make, from the least significant one on.
pub open spec fn coefficient_group(coeffs: Seq<u32>, g: int) -> int {
    coeffs[4 * g] + 0x4_0000 * coeffs[4 * g + 1] + 0x10_0000_0000 * coeffs[4 * g + 2]
        + 0x40_0000_0000_0000 * coeffs[4 * g + 3]
}

/// Whether all coefficients fit in 18 bits.
pub open spec fn fit_in_18_bits(coeffs: Seq<u32>) -> bool {
    forall|i: int| 0 <= i < coeffs.len() ==> (#[trigger] coeffs[i]) < 0x4_0000
}

/// Whether `bytes` are the packed coefficients: each group of nine bytes is the number that its
/// four coefficients make.
pub open spec fn is_packing(bytes: Seq<u8>, coeffs: Seq<u32>) -> bool {
    &&& bytes.len() == 576
    &&& coeffs.len() == 256
    &&& fit_in_18_bits(coeffs)
    &&& forall|g: int| 0 <= g < 64 ==> byte_group(bytes, g) == #[trigger] coefficient_group(coeffs, g)
}

/// Packed bytes have one unpacking.
pub proof fn law_unpacking_is_unique(bytes: Seq<u8>, a: Seq<u32>, b: Seq<u32>)
    requires
        is_packing(bytes, a),
        is_packing(bytes, b),
    ensures
        a == b,
{
    assert forall|i: int| 0 <= i < 256 implies a[i] == b[i] by {
        let g = i / 4;
        assert(coefficient_group(a, g) == coefficient_group(b, g));
        assert(a[4 * g] < 0x4_0000 && a[4 * g + 1] < 0x4_0000 && a[4 * g + 2] < 0x4_0000
            && a[4 * g + 3] < 0x4_0000);
        assert(b[4 * g] < 0x4_0000 && b[4 * g + 1] < 0x4_0000 && b[4 * g + 2] < 0x4_0000
            && b[4 * g + 3] < 0x4_0000);
        lemma_equal_coefficients(
            a[4 * g] as int,
            a[4 * g + 1] as int,
            a[4 * g + 2] as int,
            a[4 * g + 3] as int,
            b[4 * g] as int,
            b[4 * g + 1] as int,
            b[4 * g + 2] as int,
            b[4 * g + 3] as int,
        );
    }
    assert(a =~= b);
}

/// Coefficients have one packing.
pub proof fn law_packing_is_unique(a: Seq<u8>, b: Seq<u8>, coeffs: Seq<u32>)
    requires
        is_packing(a, coeffs),
        is_packing(b, coeffs),
    ensures
        a == b,
{
    assert forall|j: int| 0 <= j < 576 implies a[j] == b[j] by {
        let g = j / 9;
        let c = coefficient_group(coeffs, g);
        assert(byte_group(a, g) == byte_group(b, g));
        lemma_equal_byte_groups(a, b, g, j - 9 * g);
        assert(9 * g + (j - 9 * g) == j);
    }
    assert(a =~= b);
}

/// A bit of a digit is a bit of the number, as much higher as the digits below it are wide.
proof fn lemma_bit_of_digit(n: int, lo: int, s: nat, digit: int, w: nat, hi: int, k: nat)
    requires
        n == lo + pow2(s) * (digit + pow2(w) * hi),
        0 <= lo < pow2(s),
        0 <= digit,
        0 <= hi,
        k < w,
    ensures
        (n / pow2(s + k) as int) % 2 == (digit / pow2(k) as int) % 2,
{
    let (m, p, q) = (pow2(s) as int, pow2(k) as int, pow2((w - k - 1) as nat) as int);
    let rest = digit + pow2(w) * hi;
    lemma_pow2_pos(s);
    lemma_pow2_pos(k);
    lemma_pow2_pos(w);
    lemma_pow2_adds(s, k);
    lemma_pow2_adds(k, (w - k) as nat);
    lemma_pow2_unfold((w - k) as nat);
    assert(n >= 0 && rest >= 0) by (nonlinear_arith)
        requires
            n == lo + m * rest,
            rest == digit + pow2(w) * hi,
            m > 0,
            lo >= 0,
            digit >= 0,
            hi >= 0,
            pow2(w) > 0,
    ;
    lemma_div_denominator(n, m, p);
    assert(n / m == rest) by {
        assert(m * rest == rest * m) by (nonlinear_arith);
        lemma_fundamental_div_mod_converse(n, m, rest, lo);
    }
    // rest / p == digit / p + 2 * q * hi
    let (d, e) = (digit / p, digit % p);
    lemma_fundamental_div_mod(digit, p);
    assert(rest == (d + 2 * (q * hi)) * p + e) by (nonlinear_arith)
        requires
            rest == digit + pow2(w) * hi,
            digit == p * d + e,
            pow2(w) == p * (2 * q),
    ;
    lemma_fundamental_div_mod_converse(rest, p, d + 2 * (q * hi), e);
}

/// Bit `k` of byte `a` of a group is bit `8 * a + k` of its number.
proof fn lemma_bit_of_byte(bytes: Seq<u8>, g: int, a: nat, k: nat)
    requires
        a < 9,
        k < 8,
    ensures
        (byte_group(bytes, g) / pow2(8 * a + k) as int) % 2 == (bytes[9 * g + a] as int / pow2(
            k,
        ) as int) % 2,
{
    let n = byte_group(bytes, g);
    let b0 = bytes[9 * g] as int;
    let b1 = bytes[9 * g + 1] as int;
    let b2 = bytes[9 * g + 2] as int;
    let b3 = bytes[9 * g + 3] as int;
    let b4 = bytes[9 * g + 4] as int;
    let b5 = bytes[9 * g + 5] as int;
    let b6 = bytes[9 * g + 6] as int;
    let b7 = bytes[9 * g + 7] as int;
    let b8 = bytes[9 * g + 8] as int;
    let t8 = b8;
    let t7 = b7 + 0x100 * t8;
    let t6 = b6 + 0x100 * t7;
    let t5 = b5 + 0x100 * t6;
    let t4 = b4 + 0x100 * t5;
    let t3 = b3 + 0x100 * t4;
    let t2 = b2 + 0x100 * t3;
    let t1 = b1 + 0x100 * t2;
    lemma2_to64();
    lemma2_to64_rest();
    if a == 0 {
        lemma_bit_of_digit(n, 0, 0, b0, 8, t1, k);
    } else if a == 1 {
        lemma_bit_of_digit(n, b0, 8, b1, 8, t2, k);
    } else if a == 2 {
        lemma_bit_of_digit(n, b0 + 0x100 * b1, 16, b2, 8, t3, k);
    } else if a == 3 {
        lemma_bit_of_digit(n, b0 + 0x100 * b1 + 0x10000 * b2, 24, b3, 8, t4, k);
    } else if a == 4 {
        lemma_bit_of_digit(n, b0 + 0x100 * b1 + 0x10000 * b2 + 0x1000000 * b3, 32, b4, 8, t5, k);
    } else if a == 5 {
        lemma_bit_of_digit(n, b0 + 0x100 * b1 + 0x10000 * b2 + 0x1000000 * b3 + 0x100000000 * b4, 40, b5, 8, t6, k);
    } else if a == 6 {
        lemma_bit_of_digit(n, b0 + 0x100 * b1 + 0x10000 * b2 + 0x1000000 * b3 + 0x100000000 * b4 + 0x10000000000 * b5, 48, b6, 8, t7, k);
    } else if a == 7 {
        lemma_bit_of_digit(n, b0 + 0x100 * b1 + 0x10000 * b2 + 0x1000000 * b3 + 0x100000000 * b4 + 0x10000000000 * b5 + 0x1000000000000 * b6, 56, b7, 8, t8, k);
    } else {
        lemma_bit_of_digit(n, b0 + 0x100 * b1 + 0x10000 * b2 + 0x1000000 * b3 + 0x100000000 * b4 + 0x10000000000 * b5 + 0x1000000000000 * b6 + 0x100000000000000 * b7, 64, b8, 8, 0, k);
    }
}

/// Bit `k` of coefficient `a` of a group is bit `18 * a + k` of its number.
proof fn lemma_bit_of_coefficient(coeffs: Seq<u32>, g: int, a: nat, k: nat)
    requires
        a < 4,
        k < 18,
        0 <= g < 64,
        coeffs.len() == 256,
        fit_in_18_bits(coeffs),
    ensures
        (coefficient_group(coeffs, g) / pow2(18 * a + k) as int) % 2 == (coeffs[4 * g + a] as int
            / pow2(k) as int) % 2,
{
    let n = coefficient_group(coeffs, g);
    let c0 = coeffs[4 * g] as int;
    let c1 = coeffs[4 * g + 1] as int;
    let c2 = coeffs[4 * g + 2] as int;
    let c3 = coeffs[4 * g + 3] as int;
    let t3 = c3;
    let t2 = c2 + 0x4_0000 * t3;
    let t1 = c1 + 0x4_0000 * t2;
    lemma2_to64();
    lemma2_to64_rest();
    if a == 0 {
        lemma_bit_of_digit(n, 0, 0, c0, 18, t1, k);
    } else if a == 1 {
        lemma_bit_of_digit(n, c0, 18, c1, 18, t2, k);
    } else if a == 2 {
        lemma_bit_of_digit(n, c0 + 0x40000 * c1, 36, c2, 18, t3, k);
    } else {
        lemma_bit_of_digit(n, c0 + 0x40000 * c1 + 0x1000000000 * c2, 54, c3, 18, 0, k);
    }
}

/// The packed bytes are the bits of the coefficients one after the other, 18 of each and the least
/// significant one first: bit `k` of byte `j` is bit `(8 * j + k) % 18` of coefficient
/// `(8 * j + k) / 18`.
pub proof fn law_packed_bits(bytes: Seq<u8>, coeffs: Seq<u32>, j: int, k: int)
    requires
        is_packing(bytes, coeffs),
        0 <= j < 576,
        0 <= k < 8,
    ensures
        (bytes[j] as int / pow2(k as nat) as int) % 2 == (coeffs[(8 * j + k) / 18] as int / pow2(
            ((8 * j + k) % 18) as nat,
        ) as int) % 2,
{
    let g = j / 9;
    let a = j - 9 * g;
    let s = 8 * a + k;
    lemma_bit_of_byte(bytes, g, a as nat, k as nat);
    assert(byte_group(bytes, g) == coefficient_group(coeffs, g));
    lemma_bit_of_coefficient(coeffs, g, (s / 18) as nat, (s % 18) as nat);
    assert(18 * (s / 18) + s % 18 == s);
    assert(8 * j + k == 18 * (4 * g) + s);
    assert((8 * j + k) / 18 == 4 * g + s / 18 && (8 * j + k) % 18 == s % 18);
    assert(9 * g + a == j);
}

proof fn lemma_equal_byte_groups(a: Seq<u8>, b: Seq<u8>, g: int, k: int)
    requires
        byte_group(a, g) == byte_group(b, g),
        0 <= k < 9,
    ensures
        a[9 * g + k] == b[9 * g + k],
{
    let j = 9 * g;
    let a7 = a[j + 7] + 256 * a[j + 8];
    let b7 = b[j + 7] + 256 * b[j + 8];
    let a6 = a[j + 6] + 256 * a7;
    let b6 = b[j + 6] + 256 * b7;
    let a5 = a[j + 5] + 256 * a6;
    let b5 = b[j + 5] + 256 * b6;
    let a4 = a[j + 4] + 256 * a5;
    let b4 = b[j + 4] + 256 * b5;
    let a3 = a[j + 3] + 256 * a4;
    let b3 = b[j + 3] + 256 * b4;
    let a2 = a[j + 2] + 256 * a3;
    let b2 = b[j + 2] + 256 * b3;
    let a1 = a[j + 1] + 256 * a2;
    let b1 = b[j + 1] + 256 * b2;
    lemma_peel(256, a[j] as int, b[j] as int, a1, b1);
    lemma_peel(256, a[j + 1] as int, b[j + 1] as int, a2, b2);
    lemma_peel(256, a[j + 2] as int, b[j + 2] as int, a3, b3);
    lemma_peel(256, a[j + 3] as int, b[j + 3] as int, a4, b4);
    lemma_peel(256, a[j + 4] as int, b[j + 4] as int, a5, b5);
    lemma_peel(256, a[j + 5] as int, b[j + 5] as int, a6, b6);
    lemma_peel(256, a[j + 6] as int, b[j + 6] as int, a7, b7);
    lemma_peel(256, a[j + 7] as int, b[j + 7] as int, a[j + 8] as int, b[j + 8] as int);
}

/// The four coefficients of a group are determined by its number.
proof fn lemma_equal_coefficients(
    c0: int,
    c1: int,
    c2: int,
    c3: int,
    d0: int,
    d1: int,
    d2: int,
    d3: int,
)
    requires
        c0 + 0x4_0000 * c1 + 0x10_0000_0000 * c2 + 0x40_0000_0000_0000 * c3 == d0 + 0x4_0000 * d1
            + 0x10_0000_0000 * d2 + 0x40_0000_0000_0000 * d3,
        0 <= c0 < 0x4_0000,
        0 <= c1 < 0x4_0000,
        0 <= c2 < 0x4_0000,
        0 <= d0 < 0x4_0000,
        0 <= d1 < 0x4_0000,
        0 <= d2 < 0x4_0000,
    ensures
        c0 == d0,
        c1 == d1,
        c2 == d2,
        c3 == d3,
{
    let base = 0x4_0000;
    lemma_peel(base, c0, d0, c1 + base * (c2 + base * c3), d1 + base * (d2 + base * d3));
    lemma_peel(base, c1, d1, c2 + base * c3, d2 + base * d3);
    lemma_peel(base, c2, d2, c3, d3);
}

/// A coefficient is cut into a low part, a byte and a high part.
proof fn lemma_split(t: int, a: int)
    requires
        0 <= t < 0x4_0000,
        a == 256 || a == 64 || a == 16 || a == 4,
    ensures
        t == t % a + a * ((t / a) % 256) + 256 * a * (t / (256 * a)),
        0 <= t / (256 * a) < 1024int / a,
{
    let q = t / a;
    assert(t == a * q + t % a && t / (256 * a) == q / 256 && 256 * a * (q / 256) == a * (256 * (q
        / 256)) && a * q == a * (q % 256) + a * (256 * (q / 256))) by {
        if a == 256 {
            assert(t / 65536 == (t / 256) / 256);
        } else if a == 64 {
            assert(t / 16384 == (t / 64) / 256);
        } else if a == 16 {
            assert(t / 4096 == (t / 16) / 256);
        } else {
            assert(t / 1024 == (t / 4) / 256);
        }
    }
}

/// The bytes that the parts of four coefficients make up.
proof fn lemma_join(t0: int, t1: int, t2: int, t3: int, r: Seq<u8>)
    requires
        r.len() == 9,
        t0 == r[0] + 0x100 * r[1] + 0x1_0000 * (t0 / 65536),
        t1 == t1 % 64 + 64 * r[3] + 16384 * (t1 / 16384),
        t2 == t2 % 16 + 16 * r[5] + 4096 * (t2 / 4096),
        t3 == t3 % 4 + 4 * r[7] + 1024 * r[8],
        r[2] == t0 / 65536 + (t1 % 64) * 4,
        r[4] == t1 / 16384 + (t2 % 16) * 16,
        r[6] == t2 / 4096 + (t3 % 4) * 64,
    ensures
        byte_group(r, 0) == t0 + 0x4_0000 * t1 + 0x10_0000_0000 * t2 + 0x40_0000_0000_0000 * t3,
{
    let (h0, h1, h2) = (t0 / 65536, t1 / 16384, t2 / 4096);
    let (l1, l2, l3) = (t1 % 64, t2 % 16, t3 % 4);
    assert(byte_group(r, 0) == r[0] + 0x100 * r[1] + 0x1_0000 * r[2] + 0x100_0000 * r[3]
        + 0x1_0000_0000 * r[4] + 0x100_0000_0000 * r[5] + 0x1_0000_0000_0000 * r[6]
        + 0x100_0000_0000_0000 * r[7] + 0x1_0000_0000_0000_0000 * r[8]);
}

/// Returns the nine bytes of four coefficients.
fn pack_group(t0: u32, t1: u32, t2: u32, t3: u32) -> (r: [u8; 9])
    requires
        t0 < 0x4_0000,
        t1 < 0x4_0000,
        t2 < 0x4_0000,
        t3 < 0x4_0000,
    ensures
        byte_group(r@, 0) == t0 + 0x4_0000 * t1 + 0x10_0000_0000 * t2 + 0x40_0000_0000_0000 * t3,
{
    let b0: u8 = (t0 % 256) as u8;
    let b1: u8 = ((t0 / 256) % 256) as u8;
    let b2: u8 = (t0 / 65536 + (t1 % 64) * 4) as u8;
    let b3: u8 = ((t1 / 64) % 256) as u8;
    let b4: u8 = (t1 / 16384 + (t2 % 16) * 16) as u8;
    let b5: u8 = ((t2 / 16) % 256) as u8;
    let b6: u8 = (t2 / 4096 + (t3 % 4) * 64) as u8;
    let b7: u8 = ((t3 / 4) % 256) as u8;
    let b8: u8 = (t3 / 1024) as u8;
    let r: [u8; 9] = [b0, b1, b2, b3, b4, b5, b6, b7, b8];
    proof {
        lemma_split(t0 as int, 256);
        lemma_split(t1 as int, 64);
        lemma_split(t2 as int, 16);
        lemma_split(t3 as int, 4);
        lemma_join(
            t0 as int,
            t1 as int,
            t2 as int,
            t3 as int,
            seq![b0, b1, b2, b3, b4, b5, b6, b7, b8],
        );
        assert(r@ =~= seq![b0, b1, b2, b3, b4, b5, b6, b7, b8]);
    }
    r
}

/// Native `polyz_pack` of centred coefficients.
pub fn polyz_pack_centered_native(coeffs: &[u32; 256]) -> (out: [u8; 576])
    requires
        forall|i: int| 0 <= i < 256 ==> (#[trigger] coeffs[i]) < 2 * GAMMA1,
    ensures
        is_packing(out@, coeffs@),
{
    let mut out: [u8; 576] = [0u8;576];
    let mut i: usize = 0;
    while i < 64
        invariant
            i <= 64,
            forall|k: int| 0 <= k < 256 ==> (#[trigger] coeffs[k]) < 0x4_0000,
            forall|g: int|
                0 <= g < i ==> byte_group(out@, g) == #[trigger] coefficient_group(coeffs@, g),
        decreases 64 - i,
    {
        let ghost before = out@;
        let group = pack_group(coeffs[4 * i], coeffs[4 * i + 1], coeffs[4 * i + 2], coeffs[4 * i + 3]);
        let mut k: usize = 0;
        while k < 9
            invariant
                k <= 9,
                i < 64,
                forall|j: int| 0 <= j < 9 * i ==> out[j] == before[j],
                forall|j: int| 0 <= j < k ==> out[9 * i + j] == group[j],
            decreases 9 - k,
        {
            out[9 * i + k] = group[k];
            k = k + 1;
        }
        proof {
            assert forall|g: int| 0 <= g < i + 1 implies byte_group(out@, g)
                == #[trigger] coefficient_group(coeffs@, g) by {
                if g < i {
                    assert(byte_group(before, g) == coefficient_group(coeffs@, g));
                } else {
                    assert(out[9 * i + 0] == group[0]);
                    assert(byte_group(out@, g) == byte_group(group@, 0));
                }
            }
        }
        i = i + 1;
    }
    out
}

/// Inverse of [`polyz_pack_centered_native`].
pub fn polyz_unpack_centered_native(packed: &[u8; 576]) -> (coeffs: [u32; 256])
    ensures
        is_packing(packed@, coeffs@),
{
    let mut coeffs: [u32; 256] = [0u32;256];
    let mut i: usize = 0;
    while i < 64
        invariant
            i <= 64,
            forall|k: int| 0 <= k < 256 ==> (#[trigger] coeffs[k]) < 0x4_0000,
            forall|g: int|
                0 <= g < i ==> byte_group(packed@, g) == #[trigger] coefficient_group(coeffs@, g),
        decreases 64 - i,
    {
        let ghost before = coeffs@;
        let b2: u32 = packed[9 * i + 2] as u32;
        let b4: u32 = packed[9 * i + 4] as u32;
        let b6: u32 = packed[9 * i + 6] as u32;
        coeffs[4 * i] = packed[9 * i] as u32 + packed[9 * i + 1] as u32 * 256 + (b2 % 4) * 65536;
        coeffs[4 * i + 1] = b2 / 4 + packed[9 * i + 3] as u32 * 64 + (b4 % 16) * 16384;
        coeffs[4 * i + 2] = b4 / 16 + packed[9 * i + 5] as u32 * 16 + (b6 % 64) * 4096;
        coeffs[4 * i + 3] = b6 / 64 + packed[9 * i + 7] as u32 * 4 + packed[9 * i + 8] as u32
            * 1024;
        proof {
            assert forall|g: int| 0 <= g < i + 1 implies byte_group(packed@, g)
                == #[trigger] coefficient_group(coeffs@, g) by {
                if g < i {
                    assert(coefficient_group(coeffs@, g) == coefficient_group(before, g));
                }
            }
        }
        i = i + 1;
    }
    coeffs
}

/// Convert 576 packed bytes into 72 little-endian 64-bit lanes.
pub fn pack_to_lanes(packed: &[u8; 576]) -> (out: [u64; 72])
    ensures
        out@ == lanes_of_bytes(packed@, 72),
{
    let mut out: [u64; 72] = [0u64;72];
    let mut i: usize = 0;
    while i < 72
        invariant
            i <= 72,
            forall|j: int| 0 <= j < i ==> out[j] == lane_of_bytes(packed@, j),
        decreases 72 - i,
    {
        out[i] = read_lane(packed.as_slice(), i);
        i = i + 1;
    }
    assert(out@ =~= lanes_of_bytes(packed@, 72));
    out
}

/// Byte `j` of the byte string that lane wires hold.
pub open spec fn stream_byte(v: Seq<u64>, lanes: Seq<Wire>, j: int) -> u64 {
    word_byte(at(v, lanes[j / 8]), j % 8)
}

/// The centred coefficient `i` of the byte string that lane wires hold.
pub open spec fn stream_coefficient(v: Seq<u64>, lanes: Seq<Wire>, i: int) -> int {
    let g = 9 * (i / 4);
    if i % 4 == 0 {
        stream_byte(v, lanes, g) + 256 * stream_byte(v, lanes, g + 1) + 65536 * (stream_byte(
            v,
            lanes,
            g + 2,
        ) % 4)
    } else if i % 4 == 1 {
        stream_byte(v, lanes, g + 2) / 4 + 64 * stream_byte(v, lanes, g + 3) + 16384 * (stream_byte(
            v,
            lanes,
            g + 4,
        ) % 16)
    } else if i % 4 == 2 {
        stream_byte(v, lanes, g + 4) / 16 + 16 * stream_byte(v, lanes, g + 5) + 4096 * (stream_byte(
            v,
            lanes,
            g + 6,
        ) % 64)
    } else {
        stream_byte(v, lanes, g + 6) / 64 + 4 * stream_byte(v, lanes, g + 7) + 1024 * stream_byte(
            v,
            lanes,
            g + 8,
        )
    }
}

/// Lanes that hold packed bytes hold the coefficients that were packed.
pub proof fn law_lanes_hold_packed_coefficients(
    v: Seq<u64>,
    lanes: Seq<Wire>,
    bytes: Seq<u8>,
    coeffs: Seq<u32>,
    i: int,
)
    requires
        lanes.len() == 72,
        is_packing(bytes, coeffs),
        forall|l: int| 0 <= l < 72 ==> at(v, #[trigger] lanes[l]) == lane_of_bytes(bytes, l),
        0 <= i < 256,
    ensures
        stream_coefficient(v, lanes, i) == coeffs[i],
{
    let g = i / 4;
    assert forall|k: int| 0 <= k < 9 implies #[trigger] stream_byte(v, lanes, 9 * g + k)
        == bytes[9 * g + k] by {
        let j = 9 * g + k;
        assert(at(v, lanes[j / 8]) == lane_of_bytes(bytes, j / 8));
        lemma_lane_bytes(bytes, j / 8, j % 8);
        assert(8 * (j / 8) + j % 8 == j);
    }
    assert(stream_byte(v, lanes, 9 * g + 0) == bytes[9 * g]);
    assert(stream_byte(v, lanes, 9 * g + 1) == bytes[9 * g + 1]);
    assert(stream_byte(v, lanes, 9 * g + 2) == bytes[9 * g + 2]);
    assert(stream_byte(v, lanes, 9 * g + 3) == bytes[9 * g + 3]);
    assert(stream_byte(v, lanes, 9 * g + 4) == bytes[9 * g + 4]);
    assert(stream_byte(v, lanes, 9 * g + 5) == bytes[9 * g + 5]);
    assert(stream_byte(v, lanes, 9 * g + 6) == bytes[9 * g + 6]);
    assert(stream_byte(v, lanes, 9 * g + 7) == bytes[9 * g + 7]);
    assert(stream_byte(v, lanes, 9 * g + 8) == bytes[9 * g + 8]);
    assert(byte_group(bytes, g) == coefficient_group(coeffs, g));
    assert(coeffs[4 * g] < 0x4_0000 && coeffs[4 * g + 1] < 0x4_0000 && coeffs[4 * g + 2] < 0x4_0000
        && coeffs[4 * g + 3] < 0x4_0000);
    let j = 9 * g;
    let d0 = bytes[j] + 256 * bytes[j + 1] + 65536 * (bytes[j + 2] as int % 4);
    let d1 = bytes[j + 2] as int / 4 + 64 * bytes[j + 3] + 16384 * (bytes[j + 4] as int % 16);
    let d2 = bytes[j + 4] as int / 16 + 16 * bytes[j + 5] + 4096 * (bytes[j + 6] as int % 64);
    let d3 = bytes[j + 6] as int / 64 + 4 * bytes[j + 7] + 1024 * bytes[j + 8];
    assert(bytes[j + 2] == 4 * (bytes[j + 2] as int / 4) + bytes[j + 2] as int % 4);
    assert(bytes[j + 4] == 16 * (bytes[j + 4] as int / 16) + bytes[j + 4] as int % 16);
    assert(bytes[j + 6] == 64 * (bytes[j + 6] as int / 64) + bytes[j + 6] as int % 64);
    lemma_equal_coefficients(
        d0,
        d1,
        d2,
        d3,
        coeffs[4 * g] as int,
        coeffs[4 * g + 1] as int,
        coeffs[4 * g + 2] as int,
        coeffs[4 * g + 3] as int,
    );
    assert(i == 4 * g + i % 4);
}

proof fn lemma_unpack_words(
    b0: u64,
    b1: u64,
    b2: u64,
    b3: u64,
    b4: u64,
    b5: u64,
    b6: u64,
    b7: u64,
    b8: u64,
)
    by (bit_vector)
    requires
        b0 < 256,
        b1 < 256,
        b2 < 256,
        b3 < 256,
        b4 < 256,
        b5 < 256,
        b6 < 256,
        b7 < 256,
        b8 < 256,
    ensures
        b0 ^ (b1 << 8u32) ^ ((b2 & 3) << 16u32) == b0 + 256 * b1 + 65536 * (b2 % 4),
        (b2 >> 2u32) ^ (b3 << 6u32) ^ ((b4 & 0xf) << 14u32) == b2 / 4 + 64 * b3 + 16384 * (b4 % 16),
        (b4 >> 4u32) ^ (b5 << 4u32) ^ ((b6 & 0x3f) << 12u32) == b4 / 16 + 16 * b5 + 4096 * (b6 % 64),
        (b6 >> 6u32) ^ (b7 << 2u32) ^ (b8 << 10u32) == b6 / 64 + 4 * b7 + 1024 * b8,
{
}

/// A byte is less than 256.
pub proof fn lemma_byte_bound(word: u64, n: u32)
    by (bit_vector)
    requires
        n < 8,
    ensures
        (word >> ((8 * n) as u32)) & 0xff < 256,
{
}

/// Adds a wire for a byte of the byte string that lane wires hold.
pub fn get_byte(b: &mut CircuitBuilder, packed: &[Wire], byte_idx: usize) -> (r: Wire)
    requires
        old(b).is_valid(),
        old(b).has_all(packed@),
        byte_idx < 8 * packed@.len(),
    ensures
        final(b).is_valid(),
        final(b).extends(old(b)),
        r.index == old(b).size(),
        final(b).size() == old(b).size() + 1,
        forall|v: Seq<u64>| #[trigger]
            final(b).follows(v) ==> old(b).follows(v) && at(v, r) == stream_byte(
                v,
                packed@,
                byte_idx as int,
            ) && at(v, r) < 256,
        forall|v: Seq<u64>| #[trigger] final(b).honest(v) == old(b).honest(v),
        forall|v: Seq<u64>| #[trigger] final(b).passes(v) == old(b).passes(v),
{
    let lane: usize = byte_idx / 8;
    let pos: u32 = (byte_idx % 8) as u32;
    assert(b.has(packed@[lane as int]));
    let r = b.extract_byte(packed[lane], pos);
    proof {
        assert forall|v: Seq<u64>| #[trigger] b.follows(v) implies at(v, r) < 256 by {
            lemma_byte_bound(at(v, packed@[lane as int]), pos);
        }
    }
    r
}

/// The exclusive or of three words.
fn xor_three(b: &mut CircuitBuilder, x: Wire, y: Wire, z: Wire) -> (r: Wire)
    requires
        old(b).is_valid(),
        old(b).has(x),
        old(b).has(y),
        old(b).has(z),
    ensures
        final(b).is_valid(),
        final(b).grows_from(old(b)),
        final(b).has(r),
        forall|v: Seq<u64>| #[trigger]
            final(b).follows(v) ==> at(v, r) == at(v, x) ^ at(v, y) ^ at(v, z),
        forall|v: Seq<u64>| #[trigger] final(b).honest(v) == old(b).honest(v),
        forall|v: Seq<u64>| #[trigger] final(b).passes(v) == old(b).passes(v),
{
    let xy = b.bxor(x, y);
    b.bxor(xy, z)
}

/// Unpacks the four coefficients of a group of nine bytes.
fn unpack_group(
    b: &mut CircuitBuilder,
    packed: &[Wire; 72],
    g: usize,
    mask_2: Wire,
    mask_4: Wire,
    mask_6: Wire,
) -> (r: [Wire; 4])
    requires
        old(b).is_valid(),
        old(b).has_all(packed@),
        g < 64,
        old(b).has(mask_2),
        old(b).has(mask_4),
        old(b).has(mask_6),
    ensures
        final(b).is_valid(),
        final(b).grows_from(old(b)),
        final(b).has_all(r@),
        forall|v: Seq<u64>| #[trigger]
            final(b).follows(v) && at(v, mask_2) == 3 && at(v, mask_4) == 0xf && at(v, mask_6)
                == 0x3f ==> at(v, r[0]) == stream_coefficient(v, packed@, 4 * g) && at(v, r[1])
                == stream_coefficient(v, packed@, 4 * g + 1) && at(v, r[2]) == stream_coefficient(
                v,
                packed@,
                4 * g + 2,
            ) && at(v, r[3]) == stream_coefficient(v, packed@, 4 * g + 3),
        forall|v: Seq<u64>| #[trigger] final(b).honest(v) == old(b).honest(v),
        forall|v: Seq<u64>| #[trigger] final(b).passes(v) == old(b).passes(v),
{
    let ghost start = *b;
    let lanes = packed.as_slice();
    let b0 = get_byte(b, lanes, 9 * g);
    assert(b.has_all(packed@)) by {
        assert forall|k: int| 0 <= k < 72 implies b.has(#[trigger] packed@[k]) by {
            assert(start.has(packed@[k]));
        }
    }
    let b1 = get_byte(b, lanes, 9 * g + 1);
    assert(b.has_all(packed@)) by {
        assert forall|k: int| 0 <= k < 72 implies b.has(#[trigger] packed@[k]) by {
            assert(start.has(packed@[k]));
        }
    }
    let b2 = get_byte(b, lanes, 9 * g + 2);
    assert(b.has_all(packed@)) by {
        assert forall|k: int| 0 <= k < 72 implies b.has(#[trigger] packed@[k]) by {
            assert(start.has(packed@[k]));
        }
    }
    let b3 = get_byte(b, lanes, 9 * g + 3);
    assert(b.has_all(packed@)) by {
        assert forall|k: int| 0 <= k < 72 implies b.has(#[trigger] packed@[k]) by {
            assert(start.has(packed@[k]));
        }
    }
    let b4 = get_byte(b, lanes, 9 * g + 4);
    assert(b.has_all(packed@)) by {
        assert forall|k: int| 0 <= k < 72 implies b.has(#[trigger] packed@[k]) by {
            assert(start.has(packed@[k]));
        }
    }
    let b5 = get_byte(b, lanes, 9 * g + 5);
    assert(b.has_all(packed@)) by {
        assert forall|k: int| 0 <= k < 72 implies b.has(#[trigger] packed@[k]) by {
            assert(start.has(packed@[k]));
        }
    }
    let b6 = get_byte(b, lanes, 9 * g + 6);
    assert(b.has_all(packed@)) by {
        assert forall|k: int| 0 <= k < 72 implies b.has(#[trigger] packed@[k]) by {
            assert(start.has(packed@[k]));
        }
    }
    let b7 = get_byte(b, lanes, 9 * g + 7);
    assert(b.has_all(packed@)) by {
        assert forall|k: int| 0 <= k < 72 implies b.has(#[trigger] packed@[k]) by {
            assert(start.has(packed@[k]));
        }
    }
    let b8 = get_byte(b, lanes, 9 * g + 8);
    // coefficient 0: bits 0 to 17
    let p1 = b.shl(b1, 8);
    let b2_lo2 = b.band(b2, mask_2);
    let p2 = b.shl(b2_lo2, 16);
    let c0 = xor_three(b, b0, p1, p2);
    // coefficient 1: bits 18 to 35
    let b2_hi6 = b.shr(b2, 2);
    let p3 = b.shl(b3, 6);
    let b4_lo4 = b.band(b4, mask_4);
    let p4 = b.shl(b4_lo4, 14);
    let c1 = xor_three(b, b2_hi6, p3, p4);
    // coefficient 2: bits 36 to 53
    let b4_hi4 = b.shr(b4, 4);
    let p5 = b.shl(b5, 4);
    let b6_lo6 = b.band(b6, mask_6);
    let p6 = b.shl(b6_lo6, 12);
    let c2 = xor_three(b, b4_hi4, p5, p6);
    // coefficient 3: bits 54 to 71
    let b6_hi2 = b.shr(b6, 6);
    let p7 = b.shl(b7, 2);
    let p8 = b.shl(b8, 10);
    let c3 = xor_three(b, b6_hi2, p7, p8);
    proof {
        assert forall|v: Seq<u64>| #[trigger]
            b.follows(v) && at(v, mask_2) == 3 && at(v, mask_4) == 0xf && at(v, mask_6)
                == 0x3f implies at(v, c0) == stream_coefficient(v, packed@, 4 * g) && at(v, c1)
            == stream_coefficient(v, packed@, 4 * g + 1) && at(v, c2) == stream_coefficient(
            v,
            packed@,
            4 * g + 2,
        ) && at(v, c3) == stream_coefficient(v, packed@, 4 * g + 3) by {
            lemma_unpack_words(
                at(v, b0),
                at(v, b1),
                at(v, b2),
                at(v, b3),
                at(v, b4),
                at(v, b5),
                at(v, b6),
                at(v, b7),
                at(v, b8),
            );
            let g4 = 4 * g as int;
            assert(g4 / 4 == g && (g4 + 1) / 4 == g && (g4 + 2) / 4 == g && (g4 + 3) / 4 == g);
            assert(g4 % 4 == 0 && (g4 + 1) % 4 == 1 && (g4 + 2) % 4 == 2 && (g4 + 3) % 4 == 3);
        }
    }
    [c0, c1, c2, c3]
}

/// Unpack one `z` polynomial from its 72 lanes into 256 centred coefficient wires.
pub fn polyz_unpack_centered(b: &mut CircuitBuilder, packed: &[Wire; 72]) -> (coeffs: [Wire; 256])
    requires
        old(b).is_valid(),
        old(b).has_all(packed@),
    ensures
        final(b).is_valid(),
        final(b).grows_from(old(b)),
        final(b).has_all(coeffs@),
        forall|v: Seq<u64>| #[trigger]
            final(b).follows(v) ==> forall|i: int|
                0 <= i < 256 ==> at(v, #[trigger] coeffs[i]) == stream_coefficient(v, packed@, i),
        forall|v: Seq<u64>| #[trigger] final(b).honest(v) == old(b).honest(v),
        forall|v: Seq<u64>| #[trigger] final(b).passes(v) == old(b).passes(v),
{
    let ghost start = *b;
    let zero = b.add_constant_64(0);
    let mut coeffs: [Wire; 256] = [zero;256];
    let mask_2 = b.add_constant_64(0x03);
    let mask_4 = b.add_constant_64(0x0f);
    let mask_6 = b.add_constant_64(0x3f);
    let mut g: usize = 0;
    while g < 64
        invariant
            g <= 64,
            b.is_valid(),
            b.grows_from(&start),
            start.has_all(packed@),
            b.has(mask_2),
            b.has(mask_4),
            b.has(mask_6),
            b.has_all(coeffs@),
            forall|v: Seq<u64>| #[trigger]
                b.follows(v) ==> at(v, mask_2) == 3 && at(v, mask_4) == 0xf && at(v, mask_6)
                    == 0x3f,
            forall|v: Seq<u64>| #[trigger]
                b.follows(v) ==> forall|i: int|
                    0 <= i < 4 * g ==> at(v, #[trigger] coeffs[i]) == stream_coefficient(
                        v,
                        packed@,
                        i,
                    ),
            forall|v: Seq<u64>| #[trigger] b.honest(v) == start.honest(v),
            forall|v: Seq<u64>| #[trigger] b.passes(v) == start.passes(v),
        decreases 64 - g,
    {
        let ghost before_builder = *b;
        let ghost before = coeffs@;
        assert(b.has_all(packed@)) by {
            assert forall|k: int| 0 <= k < 72 implies b.has(#[trigger] packed@[k]) by {
                assert(start.has(packed@[k]));
            }
        }
        let group = unpack_group(b, packed, g, mask_2, mask_4, mask_6);
        coeffs[4 * g] = group[0];
        coeffs[4 * g + 1] = group[1];
        coeffs[4 * g + 2] = group[2];
        coeffs[4 * g + 3] = group[3];
        proof {
            assert forall|k: int| 0 <= k < 256 implies b.has(#[trigger] coeffs@[k]) by {
                assert(before_builder.has(before[k]));
                assert(b.has(group@[0]) && b.has(group@[1]) && b.has(group@[2]) && b.has(group@[3]));
            }
            assert forall|v: Seq<u64>| #[trigger] b.follows(v) implies forall|i: int|
                0 <= i < 4 * (g + 1) ==> at(v, #[trigger] coeffs[i]) == stream_coefficient(
                    v,
                    packed@,
                    i,
                ) by {
                assert(before_builder.follows(v));
                assert forall|i: int| 0 <= i < 4 * (g + 1) implies at(v, #[trigger] coeffs[i])
                    == stream_coefficient(v, packed@, i) by {
                    if i < 4 * g {
                        assert(coeffs@[i] == before[i]);
                    }
                }
            }
        }
        g = g + 1;
    }
    coeffs
}

/// Whether a centred coefficient is within the norm bound.
pub open spec fn within_norm(centred: int) -> bool {
    78 < centred < 262_066
}

/// Assert that every centred coefficient of a `z` polynomial is within the norm bound.
pub fn assert_norm_centered(b: &mut CircuitBuilder, coeffs: &[Wire; 256])
    requires
        old(b).is_valid(),
        old(b).has_all(coeffs@),
    ensures
        final(b).is_valid(),
        final(b).grows_from(old(b)),
        forall|v: Seq<u64>| #[trigger] final(b).honest(v) == old(b).honest(v),
        forall|v: Seq<u64>| #[trigger]
            final(b).follows(v) ==> final(b).passes(v) == (old(b).passes(v) && forall|i: int|
                0 <= i < 256 ==> within_norm(at(v, #[trigger] coeffs[i]) as int)),
{
    let ghost start = *b;
    let beta = b.add_constant_64(78);
    let upper = b.add_constant_64(262_066);
    let mut k: usize = 0;
    while k < 256
        invariant
            k <= 256,
            b.is_valid(),
            b.grows_from(&start),
            start.has_all(coeffs@),
            b.has(beta),
            b.has(upper),
            forall|v: Seq<u64>| #[trigger]
                b.follows(v) ==> at(v, beta) == 78 && at(v, upper) == 262_066,
            forall|v: Seq<u64>| #[trigger] b.honest(v) == start.honest(v),
            forall|v: Seq<u64>| #[trigger]
                b.follows(v) ==> b.passes(v) == (start.passes(v) && forall|i: int|
                    0 <= i < k ==> within_norm(at(v, #[trigger] coeffs[i]) as int)),
        decreases 256 - k,
    {
        let ghost before = *b;
        let c = coeffs[k];
        assert(start.has(coeffs@[k as int]));
        let lo_ok = b.less_than(beta, c);
        b.assert_true(lo_ok);
        let hi_ok = b.less_than(c, upper);
        b.assert_true(hi_ok);
        proof {
            assert forall|v: Seq<u64>| #[trigger] b.follows(v) implies b.passes(v) == (
            start.passes(v) && forall|i: int|
                0 <= i < k + 1 ==> within_norm(at(v, #[trigger] coeffs[i]) as int)) by {
                assert(before.follows(v));
                let ok = within_norm(at(v, coeffs[k as int]) as int);
                assert(b.passes(v) == (before.passes(v) && ok));
                if b.passes(v) {
                    assert forall|i: int| 0 <= i < k + 1 implies within_norm(
                        at(v, #[trigger] coeffs[i]) as int,
                    ) by {}
                }
                if start.passes(v) && forall|i: int|
                    0 <= i < k + 1 ==> within_norm(at(v, #[trigger] coeffs[i]) as int) {
                    assert(within_norm(at(v, coeffs[k as int]) as int));
                    assert(before.passes(v));
                }
            }
        }
        k = k + 1;
    }
}

} // verus!
