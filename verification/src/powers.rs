//! Powers of two and table sizes.

use vstd::arithmetic::power2::{lemma2_to64, lemma2_to64_rest, lemma_pow2_pos, lemma_pow2_unfold, pow2};
use vstd::prelude::*;

verus! {

/// Whether a number is a power of two.
pub open spec fn is_power_of_two(n: int) -> bool {
    exists|k: nat| n == pow2(k)
}

/// The number of times that two divides a positive number.
pub open spec fn twos_in(n: nat) -> nat
    decreases n,
{
    if n == 0 || n % 2 == 1 {
        0
    } else {
        1 + twos_in(n / 2)
    }
}

/// A power of two is divided by two as often as its exponent says.
pub proof fn lemma_twos_in_pow2(k: nat)
    ensures
        twos_in(pow2(k)) == k,
    decreases k,
{
    lemma_pow2_pos(k);
    if k == 0 {
        lemma2_to64();
    } else {
        lemma_pow2_unfold(k);
        lemma_twos_in_pow2((k - 1) as nat);
    }
}

/// Returns `2^n`.
pub fn power_of_two(n: usize) -> (r: usize)
    requires
        pow2(n as nat) <= usize::MAX,
    ensures
        r == pow2(n as nat),
{
    let mut out: usize = 1;
    let mut k: usize = 0;
    proof {
        lemma2_to64();
    }
    while k < n
        invariant
            k <= n,
            out == pow2(k as nat),
            pow2(n as nat) <= usize::MAX,
        decreases n - k,
    {
        proof {
            lemma_pow2_unfold((k + 1) as nat);
            lemma_pow2_monotone((k + 1) as nat, n as nat);
        }
        out = 2 * out;
        k = k + 1;
    }
    out
}

/// Powers of two grow with the exponent.
pub proof fn lemma_pow2_monotone(a: nat, b: nat)
    requires
        a <= b,
    ensures
        pow2(a) <= pow2(b),
    decreases b - a,
{
    if a < b {
        lemma_pow2_monotone(a, (b - 1) as nat);
        lemma_pow2_unfold(b);
    }
}

/// Returns the binary logarithm of a power of two.
pub fn log2_exact(n: usize) -> (r: usize)
    requires
        is_power_of_two(n as int),
    ensures
        n == pow2(r as nat),
        r < usize::BITS,
{
    let ghost k = choose|k: nat| n == pow2(k);
    let mut size: usize = 1;
    let mut log: usize = 0;
    proof {
        lemma2_to64();
        lemma_pow2_pos(k);
    }
    while size < n
        invariant
            n == pow2(k),
            size == pow2(log as nat),
            log <= k,
            0 < size <= n,
        decreases n - size,
    {
        proof {
            lemma_pow2_unfold((log + 1) as nat);
            if log + 1 > k {
                assert(log == k);
            }
            lemma_pow2_monotone((log + 1) as nat, k);
            lemma_log_bound(log as nat, size as nat);
        }
        size = 2 * size;
        log = log + 1;
    }
    proof {
        lemma_log_bound(log as nat, n as nat);
    }
    log
}

/// The logarithm of a machine word is less than its width.
proof fn lemma_log_bound(k: nat, n: nat)
    requires
        n == pow2(k),
        n <= usize::MAX,
    ensures
        k < usize::BITS,
{
    if k >= usize::BITS {
        lemma_pow2_monotone(usize::BITS as nat, k);
        lemma2_to64();
        lemma2_to64_rest();
    }
}

/// Decides whether a number is `2^n`.
pub fn is_power(len: usize, n: usize) -> (r: bool)
    ensures
        r == (len == pow2(n as nat)),
{
    let mut size: usize = 1;
    let mut k: usize = 0;
    proof {
        lemma2_to64();
    }
    while k < n
        invariant
            k <= n,
            size == pow2(k as nat),
        decreases n - k,
    {
        proof {
            lemma_pow2_unfold((k + 1) as nat);
        }
        if size > len / 2 {
            proof {
                lemma_pow2_monotone((k + 1) as nat, n as nat);
            }
            return false;
        }
        size = 2 * size;
        k = k + 1;
    }
    size == len
}

/// Decides whether a number is a power of two.
pub fn is_two_power(n: usize) -> (r: bool)
    ensures
        r == is_power_of_two(n as int),
{
    if n == 0 {
        proof {
            assert forall|k: nat| n != pow2(k) by {
                lemma_pow2_pos(k);
            }
        }
        return false;
    }
    let mut size: usize = 1;
    let ghost mut log: nat = 0;
    proof {
        lemma2_to64();
    }
    while size <= n / 2
        invariant
            size == pow2(log),
            size <= n,
            n > 0,
            size > 0,
        decreases n - size,
    {
        proof {
            lemma_pow2_unfold(log + 1);
            log = log + 1;
        }
        size = 2 * size;
    }
    proof {
        lemma_pow2_unfold(log + 1);
        if size < n {
            assert forall|k: nat| n != pow2(k) by {
                if k <= log {
                    lemma_pow2_monotone(k, log);
                } else {
                    lemma_pow2_monotone(log + 1, k);
                }
            }
        }
    }
    size == n
}

/// Of two powers of two, the one with the larger exponent is the larger.
pub proof fn lemma_exponents(a: nat, b: nat)
    ensures
        (pow2(a) <= pow2(b)) == (a <= b),
{
    if a <= b {
        lemma_pow2_monotone(a, b);
    } else {
        lemma_pow2_unfold(a);
        lemma_pow2_monotone(b, (a - 1) as nat);
        lemma_pow2_pos(b);
    }
}

} // verus!
