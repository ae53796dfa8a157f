//! `Decompose` and `UseHint` for Dilithium2.

use vstd::prelude::*;

use super::circuit::{at, CircuitBuilder, Gate, Wire};
use super::params::Q;

verus! {

/// `2 * gamma2`, which is `(Q - 1) / 44`.
pub const TWO_GAMMA2: u32 = 190_464;

/// The size of the high-bit alphabet, `(Q - 1) / (2 * gamma2)`.
pub const ALPHA: u32 = 44;

/// The largest high part.
pub const R1_MAX: u32 = 43;

/// The high part of a residue: the nearest multiple of `2 * gamma2`, the lower one of two, where
/// the multiple `44` counts as zero.
pub open spec fn high_part(r: int) -> int {
    ((r + 95_231) / 190_464) % 44
}

/// The low part of a residue: what is left, centred around zero.
pub open spec fn low_part(r: int) -> int {
    let rest = r - high_part(r) * 190_464;
    if rest > 95_232 {
        rest - Q
    } else {
        rest
    }
}

/// What a hint makes of a residue: its high part, or the neighbour on the side of its low part.
pub open spec fn hinted_part(r: int, hint: int) -> int {
    if hint == 0 {
        high_part(r)
    } else if low_part(r) > 0 {
        (high_part(r) + 1) % 44
    } else {
        (high_part(r) + 43) % 44
    }
}

/// For every residue, the two parts are in their ranges and make it up again modulo `Q`.
pub proof fn law_decomposition(r: int)
    requires
        0 <= r < Q,
    ensures
        0 <= high_part(r) < 44,
        -95_232 <= low_part(r) <= 95_232,
        (high_part(r) * 190_464 + low_part(r)) % (Q as int) == r,
        high_part(r) * 190_464 + low_part(r) == r || high_part(r) * 190_464 + low_part(r) == r - Q,
{
    let k = (r + 95_231) / 190_464;
    assert(0 <= k <= 44);
    if k == 44 {
        assert(high_part(r) == 0);
        assert(r >= 44 * 190_464 - 95_231);
    } else {
        assert(high_part(r) == k);
        assert(190_464 * k <= r + 95_231 < 190_464 * k + 190_464);
    }
}

/// Native `decompose` for Dilithium2.
///
/// Returns the high part and the centred low part of `r`.
pub fn decompose_native(r: u32) -> (out: (u32, i32))
    requires
        r < Q,
    ensures
        out.0 == high_part(r as int),
        out.1 == low_part(r as int),
{
    let t: u32 = (r + 127) / 128;
    let scaled: u32 = (t * 11275 + 8_388_608) / 16_777_216;
    proof {
        // ceil(r / 128) determines the nearest multiple of 2 * gamma2 == 128 * 1488
        let k = (t as int + 743) / 1488;
        assert(1488 * k <= t + 743 < 1488 * k + 1488);
        assert(0 <= k <= 44);
        assert(16_777_216 * k <= t * 11275 + 8_388_608 < 16_777_216 * (k + 1));
        assert(scaled == k);
        assert(128 * t <= r + 127 < 128 * t + 128);
        assert((r as int + 95_231) / 190_464 == k) by {
            assert(190_464 * k <= r + 95_231 < 190_464 * k + 190_464);
        }
        law_decomposition(r as int);
    }
    let a1: u32 = if scaled > 43 {
        0
    } else {
        scaled
    };
    let mut a0: i32 = (r as i32) - (a1 * 190_464) as i32;
    if a0 > 4_190_208 {
        a0 = a0 - 8_380_417;
    }
    (a1, a0)
}

/// Native `use_hint` for Dilithium2.
pub fn use_hint_native(r: u32, hint: u32) -> (out: u32)
    requires
        r < Q,
        hint < 2,
    ensures
        out == hinted_part(r as int, hint as int),
{
    proof {
        law_decomposition(r as int);
    }
    let (a1, a0) = decompose_native(r);
    if hint == 0 {
        return a1;
    }
    if a0 > 0 {
        if a1 == R1_MAX {
            0
        } else {
            a1 + 1
        }
    } else if a1 == 0 {
        R1_MAX
    } else {
        a1 - 1
    }
}

/// Whether `r1` and `r0_p` are a high part and a shifted low part that make up a residue.
///
/// The shifted low part is the low part plus `gamma2`, so that it is not negative.
pub open spec fn is_decomposition(r: int, r1: int, r0_p: int) -> bool {
    &&& 0 <= r1 < 44
    &&& 0 <= r0_p <= 190_464
    &&& (r + 95_232) % (Q as int) == r1 * 190_464 + r0_p
}

/// Whether a residue lies in the middle between two multiples of `2 * gamma2`, so that it can be
/// decomposed in two ways.
pub open spec fn is_tie(r: int) -> bool {
    r % 190_464 == 95_232 && r < 87 * 95_232
}

/// The canonical parts are a decomposition.
pub proof fn law_canonical_parts_decompose(r: int)
    requires
        0 <= r < Q,
    ensures
        is_decomposition(r, high_part(r), low_part(r) + 95_232),
{
    law_decomposition(r);
    let k = (r + 95_231) / 190_464;
    if k == 44 {
        assert(r + 95_232 >= Q);
        assert((r + 95_232) % (Q as int) == r + 95_232 - Q);
    } else {
        assert(r + 95_232 < Q) by {
            assert(r + 95_231 < 44 * 190_464);
        }
    }
}

/// A residue that is not a tie can be decomposed in one way; a tie also as the multiple above it,
/// minus `gamma2`.
pub proof fn law_decompositions(r: int, r1: int, r0_p: int)
    requires
        0 <= r < Q,
        is_decomposition(r, r1, r0_p),
    ensures
        (r1 == high_part(r) && r0_p == low_part(r) + 95_232) || (is_tie(r) && r1 == high_part(r) + 1
            && r0_p == 0),
{
    law_canonical_parts_decompose(r);
    law_decomposition(r);
    let (h, l) = (high_part(r), low_part(r) + 95_232);
    assert(r1 * 190_464 + r0_p == h * 190_464 + l);
    if r1 != h {
        // the low parts differ by a whole multiple of 190464, so that they are its two ends
        if r1 > h {
            assert(r1 * 190_464 >= h * 190_464 + 190_464);
            assert(l == 190_464 && r0_p == 0);
            assert(low_part(r) == 95_232);
            assert(r == h * 190_464 + 95_232);
            assert(r1 == h + 1);
        } else {
            assert(h * 190_464 >= r1 * 190_464 + 190_464);
            assert(l == 0 && r0_p == 190_464);
            assert(low_part(r) == -95_232);
        }
    }
}

/// What a hint makes of a decomposition.
pub open spec fn hinted_choice(r1: int, r0_p: int, hint: int) -> int {
    if hint == 0 {
        r1
    } else if r0_p > 95_232 {
        (r1 + 1) % 44
    } else {
        (r1 + 43) % 44
    }
}

/// Whether `w` is what a hint makes of some decomposition of a residue.
pub open spec fn is_hinted(r: int, hint: int, w: int) -> bool {
    exists|r1: int, r0_p: int|
        #![trigger is_decomposition(r, r1, r0_p)]
        is_decomposition(r, r1, r0_p) && w == hinted_choice(r1, r0_p, hint)
}

/// For a residue that is not a tie, there is one value that a hint can make of it.
pub proof fn law_hinted_is_unique(r: int, hint: int, w: int)
    requires
        0 <= r < Q,
        !is_tie(r),
        is_hinted(r, hint, w),
    ensures
        w == hinted_part(r, hint),
{
    let (r1, r0_p) = choose|r1: int, r0_p: int|
        #![trigger is_decomposition(r, r1, r0_p)]
        is_decomposition(r, r1, r0_p) && w == hinted_choice(r1, r0_p, hint);
    law_decompositions(r, r1, r0_p);
}

/// Where a residue is `h * 2 * gamma2 + l` with `l` in the half-open range around zero, or `l` below
/// `Q` with `l` negative, its parts are `h` and `l`. A hint of zero leaves `h`; a hint of one moves to
/// the next multiple above where `l` is positive and to the one below otherwise, round the circle of
/// 44 multiples.
pub proof fn law_hint_moves_to_neighbour(r: int, h: int, l: int)
    requires
        0 <= r < Q,
        (0 <= h < 44 && -95_232 < l <= 95_232 && r == h * 190_464 + l) || (h == 0 && -95_232 <= l
            < 0 && r == Q + l),
    ensures
        high_part(r) == h,
        low_part(r) == l,
        hinted_part(r, 0) == h,
        hinted_part(r, 1) == if l > 0 {
            if h == 43 {
                0
            } else {
                h + 1
            }
        } else {
            if h == 0 {
                43
            } else {
                h - 1
            }
        },
{
    assert(high_part(r) == h);
}

/// Of a tie between the multiples `h` and `h + 1` a hint of zero makes one of these two, and so does
/// a hint of one.
pub proof fn law_hinted_tie(h: int, hint: int, w: int)
    requires
        0 <= h < 43,
        0 <= hint < 2,
        is_hinted(h * 190_464 + 95_232, hint, w),
    ensures
        is_tie(h * 190_464 + 95_232),
        w == h || w == h + 1,
{
    let r = h * 190_464 + 95_232;
    let (r1, r0_p) = choose|r1: int, r0_p: int|
        #![trigger is_decomposition(r, r1, r0_p)]
        is_decomposition(r, r1, r0_p) && w == hinted_choice(r1, r0_p, hint);
    law_decompositions(r, r1, r0_p);
    law_hint_moves_to_neighbour(r, h, 95_232);
}

/// `Decompose(r)` for Dilithium2.
///
/// The prover supplies the high part and the shifted low part, and the gadget checks that they are
/// a decomposition of the residue. Every decomposition passes, both of them where the residue is a
/// tie; the hint supplies the canonical parts.
pub fn decompose(b: &mut CircuitBuilder, r: Wire) -> (out: (Wire, Wire))
    requires
        old(b).is_valid(),
        old(b).has(r),
    ensures
        final(b).is_valid(),
        final(b).grows_from(old(b)),
        final(b).has(out.0),
        final(b).has(out.1),
        final(b).gates@[out.0.index as int] == Gate::HighHint(r),
        final(b).gates@[out.1.index as int] == Gate::LowHint(r),
        forall|v: Seq<u64>| #[trigger]
            final(b).follows(v) && final(b).passes(v) ==> at(v, out.0) < 44 && at(v, out.1)
                <= 190_464 && (at(v, r) < Q ==> is_decomposition(
                at(v, r) as int,
                at(v, out.0) as int,
                at(v, out.1) as int,
            )),
        forall|v: Seq<u64>| #[trigger]
            final(b).follows(v) && at(v, r) < Q ==> final(b).passes(v) == (old(b).passes(v)
                && is_decomposition(
                at(v, r) as int,
                at(v, out.0) as int,
                at(v, out.1) as int,
            )),
        forall|v: Seq<u64>| #[trigger]
            final(b).follows(v) && final(b).honest(v) && old(b).passes(v) && at(v, r) < Q
                ==> final(b).passes(v) && at(v, out.0) == high_part(at(v, r) as int) && at(v, out.1)
                == low_part(at(v, r) as int) + 95_232,
{
    let ghost start = *b;
    let gamma2_const = b.add_constant_64(95_232);
    let two_gamma2_const = b.add_constant_64(190_464);
    let r_prime = crate::mldsa::zq::add(b, r, gamma2_const);
    let (r1, r0_p) = b.decompose_hint(r);
    let r1_bound = b.add_constant_64(44);
    let r1_ok = b.less_than(r1, r1_bound);
    b.assert_true(r1_ok);
    let r0_p_bound = b.add_constant_64(190_465);
    let r0_p_ok = b.less_than(r0_p, r0_p_bound);
    b.assert_true(r0_p_ok);
    let (r1_two_g_hi, r1_two_g_lo) = b.imul(r1, two_gamma2_const);
    b.assert_zero(r1_two_g_hi);
    let (sum, carry) = b.iadd(r1_two_g_lo, r0_p);
    b.assert_false(carry);
    b.assert_eq(sum, r_prime);
    proof {
        assert forall|v: Seq<u64>| #[trigger] b.follows(v) && b.passes(v) implies at(v, r1) < 44
            && at(v, r0_p) <= 190_464 && (at(v, r) < Q ==> is_decomposition(
            at(v, r) as int,
            at(v, r1) as int,
            at(v, r0_p) as int,
        )) by {
            assert(at(v, r1_two_g_lo) == at(v, r1) * 190_464);
        }
        assert forall|v: Seq<u64>| #[trigger]
            b.follows(v) && at(v, r) < Q implies b.passes(v) == (start.passes(v)
            && is_decomposition(at(v, r) as int, at(v, r1) as int, at(v, r0_p) as int)) by {
            if start.passes(v) && is_decomposition(
                at(v, r) as int,
                at(v, r1) as int,
                at(v, r0_p) as int,
            ) {
                assert(at(v, r1_two_g_lo) == at(v, r1) * 190_464);
                assert(b.passes(v));
            }
        }
        assert forall|v: Seq<u64>| #[trigger]
            b.follows(v) && b.honest(v) && start.passes(v) && at(v, r) < Q implies b.passes(v)
            && at(v, r1) == high_part(at(v, r) as int) && at(v, r0_p) == low_part(at(v, r) as int)
            + 95_232 by {
            law_canonical_parts_decompose(at(v, r) as int);
            assert(at(v, r1_two_g_lo) == at(v, r1) * 190_464);
        }
    }
    (r1, r0_p)
}

/// Applies a hint to the parts of a residue.
fn apply_hint(b: &mut CircuitBuilder, r1: Wire, r0_p: Wire, hint: Wire) -> (out: Wire)
    requires
        old(b).is_valid(),
        old(b).has(r1),
        old(b).has(r0_p),
        old(b).has(hint),
    ensures
        final(b).is_valid(),
        final(b).grows_from(old(b)),
        final(b).has(out),
        forall|v: Seq<u64>| #[trigger] final(b).honest(v) == old(b).honest(v),
        forall|v: Seq<u64>| #[trigger] final(b).passes(v) == old(b).passes(v),
        forall|v: Seq<u64>| #[trigger]
            final(b).follows(v) && at(v, r1) < 44 && at(v, hint) < 2 ==> at(v, out)
                == hinted_choice(at(v, r1) as int, at(v, r0_p) as int, at(v, hint) as int),
{
    let zero = b.add_constant_64(0);
    let one = b.add_constant_64(1);
    let gamma2_const = b.add_constant_64(95_232);
    let r1_max_const = b.add_constant_64(43);
    let r0_pos = b.less_than(gamma2_const, r0_p);
    let hint_set = b.less_than(zero, hint);
    let (r1_plus_one, _carry) = b.iadd(r1, one);
    let r1_lt_43 = b.less_than(r1, r1_max_const);
    let r1_plus_one_wrap = b.select(r1_lt_43, r1_plus_one, zero);
    let r1_minus_one = b.isub(r1, one);
    let r1_gt_zero = b.less_than(zero, r1);
    let r1_minus_one_wrap = b.select(r1_gt_zero, r1_minus_one, r1_max_const);
    let case_when_hint = b.select(r0_pos, r1_plus_one_wrap, r1_minus_one_wrap);
    let out = b.select(hint_set, case_when_hint, r1);
    out
}

/// Whether the wires that a builder got take any decomposition of a residue on the wires `parts`,
/// and lead from there to what the hint makes of it.
pub open spec fn hints_through(
    before: CircuitBuilder,
    after: CircuitBuilder,
    r: Wire,
    hint: Wire,
    parts: (Wire, Wire),
    out: Wire,
) -> bool {
    &&& after.has(parts.0)
    &&& after.has(parts.1)
    &&& after.gates@[parts.0.index as int] == Gate::HighHint(r)
    &&& after.gates@[parts.1.index as int] == Gate::LowHint(r)
    &&& forall|v: Seq<u64>| #[trigger]
        after.follows(v) && at(v, r) < Q ==> after.passes(v) == (before.passes(v) && at(v, hint) < 2
            && is_decomposition(
            at(v, r) as int,
            at(v, parts.0) as int,
            at(v, parts.1) as int,
        ))
    &&& forall|v: Seq<u64>| #[trigger]
        after.follows(v) && at(v, parts.0) < 44 && at(v, hint) < 2 ==> at(v, out) == hinted_choice(
            at(v, parts.0) as int,
            at(v, parts.1) as int,
            at(v, hint) as int,
        )
}

/// The wires of the gadget pass for a residue exactly where the hint is a bit and the parts make up
/// the residue, shifted by `gamma2`, modulo `Q`. The result is then the high part, or its neighbour
/// on the side of the low part.
pub proof fn law_gadget_takes_decompositions(
    before: CircuitBuilder,
    after: CircuitBuilder,
    r: Wire,
    hint: Wire,
    parts: (Wire, Wire),
    out: Wire,
    v: Seq<u64>,
)
    requires
        hints_through(before, after, r, hint, parts, out),
        after.follows(v),
        at(v, r) < 8_380_417,
    ensures
        after.passes(v) <==> {
            &&& before.passes(v)
            &&& at(v, hint) < 2
            &&& at(v, parts.0) < 44
            &&& at(v, parts.1) <= 190_464
            &&& (at(v, r) + 95_232) % 8_380_417 == at(v, parts.0) * 190_464 + at(v, parts.1)
        },
        after.passes(v) && at(v, hint) == 0 ==> at(v, out) == at(v, parts.0),
        after.passes(v) && at(v, hint) == 1 && at(v, parts.1) > 95_232 ==> at(v, out) == if at(
            v,
            parts.0,
        ) == 43 {
            0
        } else {
            at(v, parts.0) + 1
        },
        after.passes(v) && at(v, hint) == 1 && at(v, parts.1) <= 95_232 ==> at(v, out) == if at(
            v,
            parts.0,
        ) == 0 {
            43
        } else {
            at(v, parts.0) - 1
        },
        after.has(parts.0),
        after.has(parts.1),
        after.gates@[parts.0.index as int] == Gate::HighHint(r),
        after.gates@[parts.1.index as int] == Gate::LowHint(r),
{
}

/// `UseHint(r, h)` for Dilithium2.
///
/// The gadget checks that the hint is a bit and that the result is what the hint makes of a
/// decomposition of the residue, which the prover supplies. Every decomposition passes.
pub fn use_hint(b: &mut CircuitBuilder, r: Wire, hint: Wire) -> (out: Wire)
    requires
        old(b).is_valid(),
        old(b).has(r),
        old(b).has(hint),
    ensures
        final(b).is_valid(),
        final(b).grows_from(old(b)),
        final(b).has(out),
        forall|v: Seq<u64>| #[trigger]
            final(b).follows(v) && final(b).passes(v) ==> at(v, hint) < 2 && at(v, out) < 44 && (at(
                v,
                r,
            ) < Q ==> is_hinted(at(v, r) as int, at(v, hint) as int, at(v, out) as int)),
        exists|parts: (Wire, Wire)| #[trigger]
            hints_through(*old(b), *final(b), r, hint, parts, out),
        forall|v: Seq<u64>| #[trigger]
            final(b).follows(v) && final(b).honest(v) && old(b).passes(v) && at(v, r) < Q && at(
                v,
                hint,
            ) < 2 ==> final(b).passes(v) && at(v, out) == hinted_part(
                at(v, r) as int,
                at(v, hint) as int,
            ),
{
    let ghost start = *b;
    let two = b.add_constant_64(2);
    let hint_ok = b.less_than(hint, two);
    b.assert_true(hint_ok);
    let (r1, r0_p) = decompose(b, r);
    let out = apply_hint(b, r1, r0_p, hint);
    proof {
        assert forall|v: Seq<u64>| #[trigger] b.follows(v) && b.passes(v) implies at(v, hint) < 2
            && at(v, out) < 44 && (at(v, r) < Q ==> is_hinted(
            at(v, r) as int,
            at(v, hint) as int,
            at(v, out) as int,
        )) by {
            assert(at(v, r1) < 44);
        }
        assert forall|v: Seq<u64>| #[trigger]
            b.follows(v) && b.honest(v) && start.passes(v) && at(v, r) < Q && at(v, hint)
                < 2 implies b.passes(v) && at(v, out) == hinted_part(
            at(v, r) as int,
            at(v, hint) as int,
        ) by {
            law_decomposition(at(v, r) as int);
        }
        assert(hints_through(start, *b, r, hint, (r1, r0_p), out));
    }
    out
}

/// The hint handler of [`decompose`]: it supplies the canonical parts.
pub struct DecomposeMode2Hint;

impl DecomposeMode2Hint {
    /// Returns the number of inputs and outputs.
    pub fn shape(&self) -> (r: (usize, usize))
        ensures
            r == (1usize, 2usize),
    {
        (1, 2)
    }

    /// Returns the high part and the shifted low part of a residue.
    pub fn execute(&self, input: u64) -> (r: (u64, u64))
        requires
            input < Q,
        ensures
            r.0 == high_part(input as int),
            r.1 == low_part(input as int) + 95_232,
    {
        proof {
            law_decomposition(input as int);
        }
        let (r1, r0_signed) = decompose_native(input as u32);
        (r1 as u64, (r0_signed + 95_232) as u64)
    }
}

} // verus!
