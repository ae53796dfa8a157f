//! The layout of a Dilithium2 signature: the challenge hash `c~` in 32 bytes, the four response
//! polynomials in 2304 bytes, and the hint in 84 bytes.
//!
//! The 2420 bytes are held in 303 little-endian lanes, of which the last one is padded with zeros.

use vstd::arithmetic::power2::pow2;
use vstd::prelude::*;

use super::circuit::{at, CircuitBuilder, Wire};
use super::params::GAMMA1;
use super::polyz::{
    is_packing, law_lanes_hold_packed_coefficients, law_packed_bits, law_packing_is_unique,
    polyz_pack_centered_native,
    polyz_unpack_centered, stream_coefficient,
};
use crate::words::{lane_of_bytes, lanes_of_bytes, padded_byte, read_lane};

verus! {

/// Bytes occupied by `c~` in the signature.
pub const SIG_C_TILDE_BYTES: usize = 32;

/// Bytes occupied by `z` in the signature.
pub const SIG_Z_BYTES: usize = 2304;

/// Bytes occupied by `h` in the signature.
pub const SIG_H_BYTES: usize = 84;

/// Total signature size in bytes.
pub const SIG_PACKED_BYTES: usize = 2420;

/// Total signature size in 64-bit little-endian lanes, rounded up.
pub const SIG_PACKED_LANES: usize = 303;

/// Lane index where the `c~` section begins.
pub const SIG_C_TILDE_LANE_OFFSET: usize = 0;

/// Lane index where the `z` section begins.
pub const SIG_Z_LANE_OFFSET: usize = 4;

/// Lane index where the `h` section begins.
pub const SIG_H_LANE_OFFSET: usize = 292;

/// The sections follow each other, each at the start of a lane.
pub proof fn law_sections_fit_together()
    ensures
        SIG_PACKED_BYTES == SIG_C_TILDE_BYTES + SIG_Z_BYTES + SIG_H_BYTES,
        8 * SIG_Z_LANE_OFFSET == SIG_C_TILDE_BYTES,
        8 * SIG_H_LANE_OFFSET == SIG_C_TILDE_BYTES + SIG_Z_BYTES,
        8 * SIG_PACKED_LANES == SIG_PACKED_BYTES + 4,
        SIG_PACKED_BYTES == super::params::mode2().sig_bytes,
{
}

/// The lanes of response polynomial `p`.
pub open spec fn z_lanes(sig: Seq<Wire>, p: int) -> Seq<Wire> {
    sig.subrange(4 + 72 * p, 76 + 72 * p)
}

/// The bytes of response polynomial `p`.
pub open spec fn z_bytes(sig: Seq<u8>, p: int) -> Seq<u8> {
    sig.subrange(32 + 576 * p, 608 + 576 * p)
}

/// Extract the `c~` section from a packed signature.
pub fn unpack_c_tilde(sig: &[Wire; 303]) -> (r: [Wire; 4])
    ensures
        r@ == sig@.subrange(0, 4),
{
    let r: [Wire; 4] = [sig[0], sig[1], sig[2], sig[3]];
    assert(r@ =~= sig@.subrange(0, 4));
    r
}

/// Returns the lanes of a response polynomial.
fn polynomial_lanes(sig: &[Wire; 303], p: usize) -> (r: [Wire; 72])
    requires
        p < 4,
    ensures
        r@ == z_lanes(sig@, p as int),
{
    let mut lanes: [Wire; 72] = [sig[0];72];
    let mut i: usize = 0;
    while i < 72
        invariant
            i <= 72,
            p < 4,
            forall|k: int| 0 <= k < i ==> lanes[k] == sig[4 + 72 * p + k],
        decreases 72 - i,
    {
        lanes[i] = sig[4 + 72 * p + i];
        i = i + 1;
    }
    assert(lanes@ =~= z_lanes(sig@, p as int));
    lanes
}

/// Whether wires hold the centred coefficients of the first `n` response polynomials.
pub open spec fn holds_z(v: Seq<u64>, sig: Seq<Wire>, z: Seq<[Wire; 256]>, n: int) -> bool {
    forall|p: int, i: int|
        0 <= p < n && 0 <= i < 256 ==> at(v, #[trigger] z[p][i]) == stream_coefficient(
            v,
            z_lanes(sig, p),
            i,
        )
}

/// Whether all wires of the first `n` polynomials are there.
pub open spec fn has_polynomials(b: &CircuitBuilder, z: Seq<[Wire; 256]>, n: int) -> bool {
    forall|p: int, i: int| 0 <= p < n && 0 <= i < 256 ==> b.has(#[trigger] z[p][i])
}

/// Extract the `z` section into four polynomials of centred coefficient wires.
pub fn unpack_z(b: &mut CircuitBuilder, sig: &[Wire; 303]) -> (z: [[Wire; 256]; 4])
    requires
        old(b).is_valid(),
        old(b).has_all(sig@),
    ensures
        final(b).is_valid(),
        final(b).grows_from(old(b)),
        has_polynomials(final(b), z@, 4),
        forall|v: Seq<u64>| #[trigger] final(b).follows(v) ==> holds_z(v, sig@, z@, 4),
        forall|v: Seq<u64>| #[trigger] final(b).honest(v) == old(b).honest(v),
        forall|v: Seq<u64>| #[trigger] final(b).passes(v) == old(b).passes(v),
{
    let ghost start = *b;
    let mut z: [[Wire; 256]; 4] = [[sig[0];256];4];
    let mut p: usize = 0;
    while p < 4
        invariant
            p <= 4,
            b.is_valid(),
            b.grows_from(&start),
            start.has_all(sig@),
            has_polynomials(b, z@, p as int),
            forall|v: Seq<u64>| #[trigger] b.follows(v) ==> holds_z(v, sig@, z@, p as int),
            forall|v: Seq<u64>| #[trigger] b.honest(v) == start.honest(v),
            forall|v: Seq<u64>| #[trigger] b.passes(v) == start.passes(v),
        decreases 4 - p,
    {
        let ghost before_builder = *b;
        let ghost before = z@;
        let lanes = polynomial_lanes(sig, p);
        assert(b.has_all(lanes@)) by {
            assert forall|k: int| 0 <= k < 72 implies b.has(#[trigger] lanes@[k]) by {
                assert(start.has(sig@[4 + 72 * p + k]));
            }
        }
        let coeffs = polyz_unpack_centered(b, &lanes);
        z[p] = coeffs;
        proof {
            assert forall|q: int, i: int| 0 <= q < p + 1 && 0 <= i < 256 implies b.has(
                #[trigger] z@[q][i],
            ) by {
                if q < p {
                    assert(z@[q] == before[q]);
                    assert(before_builder.has(before[q][i]));
                } else {
                    assert(b.has(coeffs@[i]));
                }
            }
            assert forall|v: Seq<u64>| #[trigger] b.follows(v) implies holds_z(
                v,
                sig@,
                z@,
                p + 1,
            ) by {
                assert(before_builder.follows(v));
                assert forall|q: int, i: int| 0 <= q < p + 1 && 0 <= i < 256 implies at(
                    v,
                    #[trigger] z@[q][i],
                ) == stream_coefficient(v, z_lanes(sig@, q), i) by {
                    if q < p {
                        assert(z@[q] == before[q]);
                        assert(at(v, before[q][i]) == stream_coefficient(v, z_lanes(sig@, q), i));
                    } else {
                        assert(at(v, coeffs[i]) == stream_coefficient(v, lanes@, i));
                    }
                }
            }
        }
        p = p + 1;
    }
    z
}

/// Whether `out` is a signature with the given challenge hash and response, whatever its hint.
pub open spec fn holds_response(out: Seq<u8>, c_tilde: Seq<u8>, z: Seq<[u32; 256]>) -> bool {
    &&& out.len() == 2420
    &&& out.subrange(0, 32) == c_tilde
    &&& forall|p: int| 0 <= p < 4 ==> is_packing(#[trigger] z_bytes(out, p), z[p]@)
}

/// Whether `out` is the signature with the given challenge hash and response, and no hint.
pub open spec fn is_signature(out: Seq<u8>, c_tilde: Seq<u8>, z: Seq<[u32; 256]>) -> bool {
    &&& holds_response(out, c_tilde, z)
    &&& forall|j: int| 2336 <= j < 2420 ==> out[j] == 0
}

/// Pack `c~` and `z` into the byte layout that [`unpack_c_tilde`] and [`unpack_z`] read. The hint
/// section is filled with zeros.
pub fn pack_signature_native(c_tilde: &[u8; 32], z_centered: &[[u32; 256]; 4]) -> (out: [u8; 2420])
    requires
        forall|p: int, i: int|
            0 <= p < 4 && 0 <= i < 256 ==> (#[trigger] z_centered[p][i]) < 2 * GAMMA1,
    ensures
        is_signature(out@, c_tilde@, z_centered@),
{
    let mut out: [u8; 2420] = [0u8;2420];
    let mut i: usize = 0;
    while i < 32
        invariant
            i <= 32,
            forall|k: int| 0 <= k < i ==> out[k] == c_tilde[k],
            forall|k: int| 32 <= k < 2420 ==> out[k] == 0,
        decreases 32 - i,
    {
        out[i] = c_tilde[i];
        i = i + 1;
    }
    let mut p: usize = 0;
    while p < 4
        invariant
            p <= 4,
            forall|q: int, i: int|
                0 <= q < 4 && 0 <= i < 256 ==> (#[trigger] z_centered[q][i]) < 2 * GAMMA1,
            forall|k: int| 0 <= k < 32 ==> out[k] == c_tilde[k],
            forall|q: int| 0 <= q < p ==> is_packing(#[trigger] z_bytes(out@, q), z_centered[q]@),
            forall|k: int| 32 + 576 * p <= k < 2420 ==> out[k] == 0,
        decreases 4 - p,
    {
        let ghost before = out@;
        assert forall|k: int| 0 <= k < 256 implies (#[trigger] z_centered[p as int][k]) < 2
            * GAMMA1 by {}
        let packed = polyz_pack_centered_native(&z_centered[p]);
        let mut j: usize = 0;
        while j < 576
            invariant
                j <= 576,
                p < 4,
                forall|k: int| 0 <= k < 32 + 576 * p ==> out[k] == before[k],
                forall|k: int| 0 <= k < j ==> out[32 + 576 * p + k] == packed[k],
                forall|k: int| 32 + 576 * (p + 1) <= k < 2420 ==> out[k] == 0,
            decreases 576 - j,
        {
            out[32 + 576 * p + j] = packed[j];
            j = j + 1;
        }
        proof {
            assert forall|q: int| 0 <= q < p + 1 implies is_packing(
                #[trigger] z_bytes(out@, q),
                z_centered[q]@,
            ) by {
                if q < p {
                    assert(z_bytes(out@, q) =~= z_bytes(before, q));
                } else {
                    assert(z_bytes(out@, q) =~= packed@);
                }
            }
        }
        p = p + 1;
    }
    assert(out@.subrange(0, 32) =~= c_tilde@);
    out
}

/// Convert a 2420-byte signature into its 303 lanes.
pub fn signature_to_lanes(packed: &[u8; 2420]) -> (out: [u64; 303])
    ensures
        out@ == lanes_of_bytes(packed@, 303),
{
    let mut out: [u64; 303] = [0u64;303];
    let mut i: usize = 0;
    while i < 303
        invariant
            i <= 303,
            forall|j: int| 0 <= j < i ==> out[j] == lane_of_bytes(packed@, j),
        decreases 303 - i,
    {
        out[i] = read_lane(packed.as_slice(), i);
        i = i + 1;
    }
    assert(out@ =~= lanes_of_bytes(packed@, 303));
    out
}

/// Reading a packed signature gives back the response that was packed.
pub proof fn law_response_is_read_back(
    v: Seq<u64>,
    sig: Seq<Wire>,
    bytes: Seq<u8>,
    c_tilde: Seq<u8>,
    z: Seq<[u32; 256]>,
    p: int,
    i: int,
)
    requires
        sig.len() == 303,
        z.len() == 4,
        holds_response(bytes, c_tilde, z),
        forall|l: int| 0 <= l < 303 ==> at(v, #[trigger] sig[l]) == lane_of_bytes(bytes, l),
        0 <= p < 4,
        0 <= i < 256,
    ensures
        stream_coefficient(v, z_lanes(sig, p), i) == z[p][i],
{
    let lanes = z_lanes(sig, p);
    let own = z_bytes(bytes, p);
    assert forall|l: int| 0 <= l < 72 implies at(v, #[trigger] lanes[l]) == lane_of_bytes(own, l) by {
        let m = 4 + 72 * p + l;
        assert(at(v, sig[m]) == lane_of_bytes(bytes, m));
        assert(padded_byte(bytes, 8 * m) == padded_byte(own, 8 * l));
        assert(padded_byte(bytes, 8 * m + 1) == padded_byte(own, 8 * l + 1));
        assert(padded_byte(bytes, 8 * m + 2) == padded_byte(own, 8 * l + 2));
        assert(padded_byte(bytes, 8 * m + 3) == padded_byte(own, 8 * l + 3));
        assert(padded_byte(bytes, 8 * m + 4) == padded_byte(own, 8 * l + 4));
        assert(padded_byte(bytes, 8 * m + 5) == padded_byte(own, 8 * l + 5));
        assert(padded_byte(bytes, 8 * m + 6) == padded_byte(own, 8 * l + 6));
        assert(padded_byte(bytes, 8 * m + 7) == padded_byte(own, 8 * l + 7));
    }
    law_lanes_hold_packed_coefficients(v, lanes, own, z[p]@, i);
}

/// A signature starts with the 32 bytes of the challenge hash. From there on it holds the bits of
/// all response coefficients one after the other, 18 of each, polynomial after polynomial.
pub proof fn law_response_bits(
    out: Seq<u8>,
    c_tilde: Seq<u8>,
    z: Seq<[u32; 256]>,
    j: int,
    k: int,
)
    requires
        holds_response(out, c_tilde, z),
        0 <= j < 2304,
        0 <= k < 8,
    ensures
        out.len() == 2420,
        forall|i: int| 0 <= i < 32 ==> out[i] == c_tilde[i],
        (out[32 + j] as int / pow2(k as nat) as int) % 2 == (z[(8 * j + k) / 18 / 256][(8 * j + k)
            / 18 % 256] as int / pow2(((8 * j + k) % 18) as nat) as int) % 2,
{
    let p = j / 576;
    let l = j - 576 * p;
    assert(is_packing(z_bytes(out, p), z[p]@));
    law_packed_bits(z_bytes(out, p), z[p]@, l, k);
    let s = 8 * j + k;
    assert(s == 4608 * p + (8 * l + k));
    assert(s / 18 == 256 * p + (8 * l + k) / 18 && s % 18 == (8 * l + k) % 18);
    assert(0 <= (8 * l + k) / 18 < 256);
    assert(z_bytes(out, p)[l] == out[32 + j]);
    assert forall|i: int| 0 <= i < 32 implies out[i] == c_tilde[i] by {
        assert(out.subrange(0, 32)[i] == out[i]);
    }
}

/// There is one signature with a challenge hash, a response and no hint: its last 84 bytes are zero.
pub proof fn law_signature_is_unique(
    a: Seq<u8>,
    b: Seq<u8>,
    c_tilde: Seq<u8>,
    z: Seq<[u32; 256]>,
)
    requires
        is_signature(a, c_tilde, z),
        is_signature(b, c_tilde, z),
    ensures
        a == b,
        a.len() == 2420,
        forall|j: int| 2336 <= j < 2420 ==> a[j] == 0,
{
    assert forall|j: int| 0 <= j < 2420 implies a[j] == b[j] by {
        if j < 32 {
            assert(a.subrange(0, 32)[j] == b.subrange(0, 32)[j]);
        } else if j < 2336 {
            let p = (j - 32) / 576;
            assert(is_packing(z_bytes(a, p), z[p]@) && is_packing(z_bytes(b, p), z[p]@));
            law_packing_is_unique(z_bytes(a, p), z_bytes(b, p), z[p]@);
            let l = j - 32 - 576 * p;
            assert(z_bytes(a, p)[l] == a[j] && z_bytes(b, p)[l] == b[j]);
        }
    }
    assert(a =~= b);
}

} // verus!
