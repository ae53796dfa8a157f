//! Arithmetic modulo `Q` on native integers.

use vstd::prelude::*;

use crate::mldsa::params::Q;

verus! {

/// `(a + b) mod Q`.
pub fn add(a: u32, b: u32) -> (r: u32)
    requires
        a < Q,
        b < Q,
    ensures
        r == (a + b) % (Q as int),
{
    let s: u32 = a + b;
    if s >= Q {
        s - Q
    } else {
        s
    }
}

/// `(a - b) mod Q`.
pub fn sub(a: u32, b: u32) -> (r: u32)
    requires
        a < Q,
        b < Q,
    ensures
        r == (a - b) % (Q as int),
{
    let s: u32 = a + Q - b;
    if s >= Q {
        s - Q
    } else {
        s
    }
}

/// `(a * b) mod Q`, computed in `u64` to avoid overflow.
pub fn mul(a: u32, b: u32) -> (r: u32)
    requires
        a < Q,
        b < Q,
    ensures
        r == (a * b) % (Q as int),
{
    assert(0 <= a * b <= 8_380_417 * 8_380_417) by (nonlinear_arith)
        requires
            0 <= a <= 8_380_417,
            0 <= b <= 8_380_417,
    ;
    ((a as u64 * b as u64) % (Q as u64)) as u32
}

} // verus!
