//! Bit-packing of the `w1` polynomials: 6 bits for each coefficient, four coefficients in three
//! bytes.

use vstd::prelude::*;

use super::circuit::{at, CircuitBuilder, Wire};
use crate::words::{
    lane_of_bytes, lanes_of_bytes, lemma_equal_bits, lemma_lane_bits, lemma_shifted_bits,
    lemma_small_word_bits, lemma_word_bits, read_lane, word_bit,
};

verus! {

/// Packed bytes per `w1` polynomial.
pub const POLYW1_PACKED_BYTES: usize = 192;

/// The same as 64-bit lanes.
pub const POLYW1_PACKED_LANES: usize = 24;

/// Byte `j` of the packed coefficients.
pub open spec fn w1_byte(coeffs: Seq<u32>, j: int) -> u8 {
    let g = 4 * (j / 3);
    if j % 3 == 0 {
        ((coeffs[g] | (coeffs[g + 1] << 6)) & 0xff) as u8
    } else if j % 3 == 1 {
        ((coeffs[g + 1] >> 2 | (coeffs[g + 2] << 4)) & 0xff) as u8
    } else {
        ((coeffs[g + 2] >> 4 | (coeffs[g + 3] << 2)) & 0xff) as u8
    }
}

/// The packed coefficients.
pub open spec fn w1_bytes(coeffs: Seq<u32>) -> Seq<u8> {
    Seq::new(192, |j: int| w1_byte(coeffs, j))
}

proof fn lemma_packed_group(t0: u32, t1: u32, t2: u32, t3: u32, k: u64)
    by (bit_vector)
    requires
        t0 < 64,
        t1 < 64,
        t2 < 64,
        t3 < 64,
        k < 8,
    ensures
        ((((((t0 | (t1 << 6)) & 0xff) as u8) as u64) >> k) & 1 == 1) == if k < 6 {
            ((t0 as u64) >> k) & 1 == 1
        } else {
            ((t1 as u64) >> ((k - 6) as u64)) & 1 == 1
        },
        ((((((t1 >> 2 | (t2 << 4)) & 0xff) as u8) as u64) >> k) & 1 == 1) == if k < 4 {
            ((t1 as u64) >> ((k + 2) as u64)) & 1 == 1
        } else {
            ((t2 as u64) >> ((k - 4) as u64)) & 1 == 1
        },
        ((((((t2 >> 4 | (t3 << 2)) & 0xff) as u8) as u64) >> k) & 1 == 1) == if k < 2 {
            ((t2 as u64) >> ((k + 4) as u64)) & 1 == 1
        } else {
            ((t3 as u64) >> ((k - 2) as u64)) & 1 == 1
        },
{
}

/// Whether all coefficients fit in 6 bits.
pub open spec fn fit_in_six_bits(coeffs: Seq<u32>) -> bool {
    forall|i: int| 0 <= i < coeffs.len() ==> (#[trigger] coeffs[i]) < 64
}

/// Where all coefficients fit in 6 bits, coefficient `i` takes up the bits `6 * i` to `6 * i + 5` of
/// the packed bytes.
pub proof fn law_packed_bits(coeffs: Seq<u32>, j: int, k: int)
    requires
        coeffs.len() == 256,
        fit_in_six_bits(coeffs),
        0 <= j < 192,
        0 <= k < 8,
    ensures
        word_bit(w1_byte(coeffs, j) as u64, k) == word_bit(
            coeffs[(8 * j + k) / 6] as u64,
            (8 * j + k) % 6,
        ),
{
    let g = 4 * (j / 3);
    assert(coeffs[g] < 64 && coeffs[g + 1] < 64 && coeffs[g + 2] < 64 && coeffs[g + 3] < 64);
    lemma_packed_group(coeffs[g], coeffs[g + 1], coeffs[g + 2], coeffs[g + 3], k as u64);
    let s = 8 * j + k;
    if j % 3 == 0 {
        assert(s == 6 * g + k);
        if k < 6 {
            assert(s / 6 == g && s % 6 == k);
        } else {
            assert(s / 6 == g + 1 && s % 6 == k - 6);
        }
    } else if j % 3 == 1 {
        assert(s == 6 * g + 8 + k);
        if k < 4 {
            assert(s / 6 == g + 1 && s % 6 == k + 2);
        } else {
            assert(s / 6 == g + 2 && s % 6 == k - 4);
        }
    } else {
        assert(s == 6 * g + 16 + k);
        if k < 2 {
            assert(s / 6 == g + 2 && s % 6 == k + 4);
        } else {
            assert(s / 6 == g + 3 && s % 6 == k - 2);
        }
    }
}

/// Native `polyw1_pack`.
///
/// A coefficient that does not fit in 6 bits spills into its neighbours within a byte.
pub fn polyw1_pack_native(coeffs: &[u32; 256]) -> (out: [u8; 192])
    ensures
        out@ == w1_bytes(coeffs@),
{
    let mut out: [u8; 192] = [0u8;192];
    let mut i: usize = 0;
    while i < 64
        invariant
            i <= 64,
            forall|j: int| 0 <= j < 3 * i ==> out[j] == w1_byte(coeffs@, j),
        decreases 64 - i,
    {
        let t0: u32 = coeffs[4 * i];
        let t1: u32 = coeffs[4 * i + 1];
        let t2: u32 = coeffs[4 * i + 2];
        let t3: u32 = coeffs[4 * i + 3];
        out[3 * i] = ((t0 | (t1 << 6)) & 0xff) as u8;
        out[3 * i + 1] = ((t1 >> 2 | (t2 << 4)) & 0xff) as u8;
        out[3 * i + 2] = ((t2 >> 4 | (t3 << 2)) & 0xff) as u8;
        proof {
            assert((3 * i) / 3 == i && (3 * i) % 3 == 0);
            assert((3 * i + 1) / 3 == i && (3 * i + 1) % 3 == 1);
            assert((3 * i + 2) / 3 == i && (3 * i + 2) % 3 == 2);
        }
        i = i + 1;
    }
    assert(out@ =~= w1_bytes(coeffs@));
    out
}

/// Convert packed bytes into 24 little-endian 64-bit lanes, the format that [`polyw1_pack`]
/// returns.
pub fn pack_to_lanes(packed: &[u8; 192]) -> (out: [u64; 24])
    ensures
        out@ == lanes_of_bytes(packed@, 24),
{
    let mut out: [u64; 24] = [0u64;24];
    let mut i: usize = 0;
    while i < 24
        invariant
            i <= 24,
            forall|j: int| 0 <= j < i ==> out[j] == lane_of_bytes(packed@, j),
        decreases 24 - i,
    {
        out[i] = read_lane(packed.as_slice(), i);
        i = i + 1;
    }
    assert(out@ =~= lanes_of_bytes(packed@, 24));
    out
}

/// The values of coefficient wires.
pub open spec fn coefficient_values(v: Seq<u64>, coeffs: Seq<Wire>) -> Seq<u32> {
    Seq::new(coeffs.len(), |i: int| at(v, coeffs[i]) as u32)
}

/// Whether all coefficient wires hold values that fit in 6 bits.
pub open spec fn values_fit(v: Seq<u64>, coeffs: Seq<Wire>) -> bool {
    forall|i: int| 0 <= i < coeffs.len() ==> at(v, #[trigger] coeffs[i]) < 64
}

/// Whether lane wires hold the bits of the first `n` coefficients and zeros elsewhere.
spec fn holds_bits(v: Seq<u64>, lanes: Seq<Wire>, coeffs: Seq<Wire>, n: int) -> bool {
    forall|l: int, p: int|
        0 <= l < 24 && 0 <= p < 64 ==> #[trigger] word_bit(at(v, lanes[l]), p) == (64 * l + p < 6
            * n && word_bit(at(v, coeffs[(64 * l + p) / 6]), (64 * l + p) % 6))
}

/// Adding the bits of one more coefficient.
proof fn lemma_holds_bits_step(
    v: Seq<u64>,
    before: Seq<Wire>,
    after: Seq<Wire>,
    coeffs: Seq<Wire>,
    n: int,
)
    requires
        0 <= n < 256,
        coeffs.len() == 256,
        before.len() == 24,
        after.len() == 24,
        values_fit(v, coeffs),
        holds_bits(v, before, coeffs, n),
        ({
            let l = (6 * n) / 64;
            let offset = ((6 * n) % 64) as u32;
            let c = at(v, coeffs[n]);
            &&& forall|k: int|
                0 <= k < 24 && k != l && !(offset > 58 && k == l + 1) ==> at(v, #[trigger] after[k])
                    == at(v, before[k])
            &&& at(v, after[l]) == at(v, before[l]) ^ (c << offset)
            &&& offset > 58 ==> at(v, after[l + 1]) == at(v, before[l + 1]) ^ (c >> ((64 - offset)
                as u32))
        }),
    ensures
        holds_bits(v, after, coeffs, n + 1),
{
    let l0 = (6 * n) / 64;
    let offset = ((6 * n) % 64) as u32;
    let c = at(v, coeffs[n]);
    assert(c < 64);
    assert forall|l: int, p: int| 0 <= l < 24 && 0 <= p < 64 implies #[trigger] word_bit(
        at(v, after[l]),
        p,
    ) == (64 * l + p < 6 * (n + 1) && word_bit(
        at(v, coeffs[(64 * l + p) / 6]),
        (64 * l + p) % 6,
    )) by {
        let s = 64 * l + p;
        assert(word_bit(at(v, before[l]), p) == (s < 6 * n && word_bit(
            at(v, coeffs[s / 6]),
            s % 6,
        )));
        let d = s - 6 * n;
        if 0 <= d < 6 {
            assert(s / 6 == n && s % 6 == d);
        }
        if l == l0 {
            lemma_word_bits(at(v, before[l]), c << offset, p);
            lemma_shifted_bits(c, offset, p);
            assert(p - offset == d);
            if d >= 6 {
                lemma_small_word_bits(c, d);
            }
        } else if offset > 58 && l == l0 + 1 {
            let m = (64 - offset) as u32;
            lemma_word_bits(at(v, before[l]), c >> m, p);
            lemma_shifted_bits(c, m, p);
            assert(p + m == d);
            if 6 <= d < 64 {
                lemma_small_word_bits(c, d);
            }
        } else {
            assert(at(v, after[l]) == at(v, before[l]));
            assert(!(0 <= d < 6));
        }
    }
}

/// Pack one `w1` polynomial into 24 lanes.
///
/// Where every coefficient fits in 6 bits, the lanes hold the packed bytes.
pub fn polyw1_pack(b: &mut CircuitBuilder, coeffs: &[Wire; 256]) -> (out: [Wire; 24])
    requires
        old(b).is_valid(),
        old(b).has_all(coeffs@),
    ensures
        final(b).is_valid(),
        final(b).grows_from(old(b)),
        final(b).has_all(out@),
        forall|v: Seq<u64>| #[trigger]
            final(b).follows(v) && values_fit(v, coeffs@) ==> forall|l: int|
                0 <= l < 24 ==> at(v, #[trigger] out[l]) == lane_of_bytes(
                    w1_bytes(coefficient_values(v, coeffs@)),
                    l,
                ),
        forall|v: Seq<u64>| #[trigger] final(b).honest(v) == old(b).honest(v),
        forall|v: Seq<u64>| #[trigger] final(b).passes(v) == old(b).passes(v),
{
    let ghost start = *b;
    let zero = b.add_constant_64(0);
    let mut lanes: [Wire; 24] = [zero;24];
    proof {
        assert forall|v: Seq<u64>| #[trigger] b.follows(v) implies holds_bits(
            v,
            lanes@,
            coeffs@,
            0,
        ) by {
            assert forall|l: int, p: int| 0 <= l < 24 && 0 <= p < 64 implies !(#[trigger] word_bit(
                at(v, lanes@[l]),
                p,
            )) by {
                lemma_word_bits(0, 0, p);
            }
        }
    }
    let mut i: usize = 0;
    while i < 256
        invariant
            i <= 256,
            b.is_valid(),
            b.grows_from(&start),
            b.has_all(lanes@),
            start.has_all(coeffs@),
            forall|v: Seq<u64>| #[trigger]
                b.follows(v) && values_fit(v, coeffs@) ==> holds_bits(
                    v,
                    lanes@,
                    coeffs@,
                    i as int,
                ),
            forall|v: Seq<u64>| #[trigger] b.honest(v) == start.honest(v),
            forall|v: Seq<u64>| #[trigger] b.passes(v) == start.passes(v),
        decreases 256 - i,
    {
        let ghost before_builder = *b;
        let ghost before = lanes@;
        let bit_start: usize = 6 * i;
        let lane: usize = bit_start / 64;
        let offset: u32 = (bit_start % 64) as u32;
        let c = coeffs[i];
        assert(start.has(coeffs@[i as int]));
        assert(b.has(before[lane as int]));
        let curr = b.shl(c, offset);
        let joined = b.bxor(lanes[lane], curr);
        lanes[lane] = joined;
        if offset > 58 {
            assert(lane + 1 < 24);
            assert(before_builder.has(before[lane + 1]));
            let next = b.shr(c, 64 - offset);
            let joined_next = b.bxor(lanes[lane + 1], next);
            lanes[lane + 1] = joined_next;
        }
        proof {
            assert forall|k: int| 0 <= k < 24 implies b.has(#[trigger] lanes@[k]) by {
                assert(before_builder.has(before[k]));
            }
            assert forall|v: Seq<u64>| #[trigger]
                b.follows(v) && values_fit(v, coeffs@) implies holds_bits(
                v,
                lanes@,
                coeffs@,
                i + 1,
            ) by {
                assert(before_builder.follows(v));
                lemma_holds_bits_step(v, before, lanes@, coeffs@, i as int);
            }
        }
        i = i + 1;
    }
    proof {
        assert forall|v: Seq<u64>| #[trigger]
            b.follows(v) && values_fit(v, coeffs@) implies forall|l: int|
            0 <= l < 24 ==> at(v, #[trigger] lanes[l]) == lane_of_bytes(
                w1_bytes(coefficient_values(v, coeffs@)),
                l,
            ) by {
            let values = coefficient_values(v, coeffs@);
            let bytes = w1_bytes(values);
            assert(fit_in_six_bits(values)) by {
                assert forall|k: int| 0 <= k < 256 implies (#[trigger] values[k]) < 64 by {
                    assert(at(v, coeffs@[k]) < 64);
                }
            }
            assert forall|l: int| 0 <= l < 24 implies at(v, #[trigger] lanes[l]) == lane_of_bytes(
                bytes,
                l,
            ) by {
                let word = at(v, lanes[l]);
                let expected = lane_of_bytes(bytes, l);
                assert forall|p: int| 0 <= p < 64 implies word_bit(word, p) == word_bit(
                    expected,
                    p,
                ) by {
                    let (n, k) = (p / 8, p % 8);
                    lemma_lane_bits(bytes, l, n, k);
                    law_packed_bits(values, 8 * l + n, k);
                    let s = 64 * l + p;
                    assert(8 * (8 * l + n) + k == s);
                    assert(word_bit(at(v, lanes@[l]), p) == (s < 6 * 256 && word_bit(
                        at(v, coeffs@[s / 6]),
                        s % 6,
                    )));
                    assert(at(v, coeffs@[s / 6]) < 64);
                }
                lemma_equal_bits(word, expected);
            }
        }
    }
    lanes
}

} // verus!
