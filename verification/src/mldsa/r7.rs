//! The final hash of the verifier: `c~` is SHAKE256 of `mu` and the packed `w1` polynomials, where
//! `w1` is what the hint makes of `wApprox`.

use vstd::prelude::*;

use super::circuit::{at, CircuitBuilder, Wire};
use super::params::Q;
use super::polyw1::{coefficient_values, polyw1_pack, values_fit, w1_bytes};
use super::rounding::{hinted_part, is_hinted, is_tie, law_hinted_is_unique, use_hint};
use super::shake::{shake256, shake256_lane, values};
use super::sigdecode::has_polynomials;
use crate::words::lane_of_bytes;

verus! {

/// Bytes occupied by the packed `w1` polynomial vector.
pub const POLYVECK_W1_PACKED_BYTES: usize = 768;

/// The same as 64-bit lanes.
pub const POLYVECK_W1_PACKED_LANES: usize = 96;

/// Bytes of `mu`.
pub const MU_BYTES: usize = 64;

/// The same as 64-bit lanes.
pub const MU_LANES: usize = 8;

/// Total bytes hashed.
pub const HASH_INPUT_BYTES: usize = 832;

/// The same as 64-bit lanes.
pub const HASH_INPUT_LANES: usize = 104;

/// `c~` size in 64-bit lanes.
pub const C_TILDE_LANES: usize = 4;

/// The values of polynomial wires.
pub open spec fn polynomial_values(v: Seq<u64>, p: Seq<[Wire; 256]>) -> Seq<Seq<u32>> {
    Seq::new(4, |k: int| coefficient_values(v, p[k]@))
}

/// Whether all wires hold residues.
pub open spec fn are_residues(v: Seq<u64>, w: Seq<[Wire; 256]>) -> bool {
    forall|k: int, i: int| 0 <= k < 4 && 0 <= i < 256 ==> at(v, #[trigger] w[k][i]) < Q
}

/// Whether all wires hold bits.
pub open spec fn are_hint_bits(v: Seq<u64>, h: Seq<[Wire; 256]>) -> bool {
    forall|k: int, i: int| 0 <= k < 4 && 0 <= i < 256 ==> at(v, #[trigger] h[k][i]) < 2
}

/// Whether `w1` is what the hint makes of decompositions of the residues.
pub open spec fn is_w1(
    v: Seq<u64>,
    w_approx: Seq<[Wire; 256]>,
    hint: Seq<[Wire; 256]>,
    w1: Seq<Seq<u32>>,
) -> bool {
    &&& w1.len() == 4
    &&& forall|k: int| 0 <= k < 4 ==> (#[trigger] w1[k]).len() == 256
    &&& forall|k: int, i: int|
        0 <= k < 4 && 0 <= i < 256 ==> (#[trigger] w1[k][i]) < 44 && (at(v, w_approx[k][i]) < Q
            ==> is_hinted(at(v, w_approx[k][i]) as int, at(v, hint[k][i]) as int, w1[k][i] as int))
}

/// What the hint makes of the canonical decompositions of the residues.
pub open spec fn canonical_w1(
    v: Seq<u64>,
    w_approx: Seq<[Wire; 256]>,
    hint: Seq<[Wire; 256]>,
) -> Seq<Seq<u32>> {
    Seq::new(
        4,
        |k: int|
            Seq::new(
                256,
                |i: int|
                    hinted_part(at(v, w_approx[k][i]) as int, at(v, hint[k][i]) as int) as u32,
            ),
    )
}

/// Where no residue is a tie, there is one `w1`: the canonical one.
pub proof fn law_w1_is_unique(
    v: Seq<u64>,
    w_approx: Seq<[Wire; 256]>,
    hint: Seq<[Wire; 256]>,
    w1: Seq<Seq<u32>>,
)
    requires
        is_w1(v, w_approx, hint, w1),
        are_residues(v, w_approx),
        forall|k: int, i: int|
            0 <= k < 4 && 0 <= i < 256 ==> !is_tie(at(v, #[trigger] w_approx[k][i]) as int),
    ensures
        w1 == canonical_w1(v, w_approx, hint),
{
    let c = canonical_w1(v, w_approx, hint);
    assert forall|k: int| 0 <= k < 4 implies w1[k] == c[k] by {
        assert forall|i: int| 0 <= i < 256 implies w1[k][i] == c[k][i] by {
            let r = at(v, w_approx[k][i]) as int;
            let h = at(v, hint[k][i]) as int;
            assert(w1[k][i] < 44);
            assert(at(v, w_approx[k][i]) < Q);
            assert(!is_tie(at(v, w_approx[k][i]) as int));
            law_hinted_is_unique(r, h, w1[k][i] as int);
        }
        assert(w1[k] =~= c[k]);
    }
    assert(w1 =~= c);
}

/// The lanes that are hashed: `mu`, followed by the packed `w1` polynomials.
pub open spec fn hash_input(mu: Seq<u64>, w1: Seq<Seq<u32>>) -> Seq<u64> {
    Seq::new(
        104,
        |i: int|
            if i < 8 {
                mu[i]
            } else {
                lane_of_bytes(w1_bytes(w1[(i - 8) / 24]), (i - 8) % 24)
            },
    )
}

/// Lane `i` of the final hash.
pub open spec fn r7_lane(mu: Seq<u64>, w1: Seq<Seq<u32>>, i: int) -> u64 {
    shake256_lane(hash_input(mu, w1), 832, i)
}

/// Apply `use_hint` to the coefficients of one polynomial.
fn use_hint_poly(b: &mut CircuitBuilder, w_approx: &[Wire; 256], hint: &[Wire; 256]) -> (out: [Wire;
    256])
    requires
        old(b).is_valid(),
        old(b).has_all(w_approx@),
        old(b).has_all(hint@),
    ensures
        final(b).is_valid(),
        final(b).grows_from(old(b)),
        final(b).has_all(out@),
        forall|v: Seq<u64>| #[trigger]
            final(b).follows(v) && final(b).passes(v) ==> forall|i: int|
                0 <= i < 256 ==> at(v, #[trigger] out[i]) < 44 && at(v, hint[i]) < 2 && (at(
                    v,
                    w_approx[i],
                ) < Q ==> is_hinted(
                    at(v, w_approx[i]) as int,
                    at(v, hint[i]) as int,
                    at(v, out[i]) as int,
                )),
        forall|v: Seq<u64>| #[trigger]
            final(b).follows(v) && final(b).honest(v) && old(b).passes(v) && (forall|i: int|
                0 <= i < 256 ==> at(v, #[trigger] w_approx[i]) < Q && at(v, hint[i]) < 2)
                ==> final(b).passes(v) && forall|i: int|
                0 <= i < 256 ==> at(v, #[trigger] out[i]) == hinted_part(
                    at(v, w_approx[i]) as int,
                    at(v, hint[i]) as int,
                ),
{
    let ghost start = *b;
    let mut out: [Wire; 256] = *w_approx;
    let mut n: usize = 0;
    while n < 256
        invariant
            n <= 256,
            b.is_valid(),
            b.grows_from(&start),
            start.has_all(w_approx@),
            start.has_all(hint@),
            forall|k: int| 0 <= k < n ==> b.has(#[trigger] out@[k]),
            forall|v: Seq<u64>| #[trigger]
                b.follows(v) && b.passes(v) ==> forall|i: int|
                    0 <= i < n ==> at(v, #[trigger] out[i]) < 44 && at(v, hint[i]) < 2 && (at(
                        v,
                        w_approx[i],
                    ) < Q ==> is_hinted(
                        at(v, w_approx[i]) as int,
                        at(v, hint[i]) as int,
                        at(v, out[i]) as int,
                    )),
            forall|v: Seq<u64>| #[trigger]
                b.follows(v) && b.honest(v) && start.passes(v) && (forall|i: int|
                    0 <= i < 256 ==> at(v, #[trigger] w_approx[i]) < Q && at(v, hint[i]) < 2)
                    ==> b.passes(v) && forall|i: int|
                    0 <= i < n ==> at(v, #[trigger] out[i]) == hinted_part(
                        at(v, w_approx[i]) as int,
                        at(v, hint[i]) as int,
                    ),
        decreases 256 - n,
    {
        let ghost before = *b;
        let ghost wires = out@;
        assert(start.has(w_approx@[n as int]) && start.has(hint@[n as int]));
        let next = use_hint(b, w_approx[n], hint[n]);
        out[n] = next;
        proof {
            assert forall|k: int| 0 <= k < n + 1 implies b.has(#[trigger] out@[k]) by {
                if k < n {
                    assert(before.has(wires[k]));
                }
            }
            assert forall|v: Seq<u64>| #[trigger] b.follows(v) && b.passes(v) implies forall|
                i: int,
            |
                0 <= i < n + 1 ==> at(v, #[trigger] out[i]) < 44 && at(v, hint[i]) < 2 && (at(
                    v,
                    w_approx[i],
                ) < Q ==> is_hinted(
                    at(v, w_approx[i]) as int,
                    at(v, hint[i]) as int,
                    at(v, out[i]) as int,
                )) by {
                assert(before.follows(v) && before.passes(v));
                assert forall|i: int| 0 <= i < n + 1 implies at(v, #[trigger] out[i]) < 44 && at(
                    v,
                    hint[i],
                ) < 2 && (at(v, w_approx[i]) < Q ==> is_hinted(
                    at(v, w_approx[i]) as int,
                    at(v, hint[i]) as int,
                    at(v, out[i]) as int,
                )) by {
                    if i < n {
                        assert(out@[i] == wires[i]);
                    }
                }
            }
            assert forall|v: Seq<u64>| #[trigger]
                b.follows(v) && b.honest(v) && start.passes(v) && (forall|i: int|
                    0 <= i < 256 ==> at(v, #[trigger] w_approx[i]) < Q && at(v, hint[i])
                        < 2) implies b.passes(v) && forall|i: int|
                0 <= i < n + 1 ==> at(v, #[trigger] out[i]) == hinted_part(
                    at(v, w_approx[i]) as int,
                    at(v, hint[i]) as int,
                ) by {
                assert(before.follows(v) && before.honest(v));
                assert(before.passes(v));
                assert(at(v, w_approx[n as int]) < Q);
                assert forall|i: int| 0 <= i < n + 1 implies at(v, #[trigger] out[i])
                    == hinted_part(at(v, w_approx[i]) as int, at(v, hint[i]) as int) by {
                    if i < n {
                        assert(out@[i] == wires[i]);
                    }
                }
            }
        }
        n = n + 1;
    }
    out
}

/// The rows of polynomial wires are lists of wires that are there.
proof fn lemma_row_is_there(before: &CircuitBuilder, b: &CircuitBuilder, h: Seq<[Wire; 256]>, k: int)
    requires
        has_polynomials(before, h, 4),
        b.size() >= before.size(),
        0 <= k < 4,
    ensures
        b.has_all(h[k]@),
{
    assert forall|p: int| 0 <= p < h[k]@.len() implies b.has(#[trigger] h[k]@[p]) by {
        assert(before.has(h[k][p]));
    }
}

/// Apply `use_hint` per coefficient over the polynomial vector.
pub fn use_hint_polyvec(
    b: &mut CircuitBuilder,
    w_approx: &[[Wire; 256]; 4],
    hint: &[[Wire; 256]; 4],
) -> (out: [[Wire; 256]; 4])
    requires
        old(b).is_valid(),
        has_polynomials(old(b), w_approx@, 4),
        has_polynomials(old(b), hint@, 4),
    ensures
        final(b).is_valid(),
        final(b).grows_from(old(b)),
        has_polynomials(final(b), out@, 4),
        forall|v: Seq<u64>| #[trigger]
            final(b).follows(v) && final(b).passes(v) ==> are_hint_bits(v, hint@) && is_w1(
                v,
                w_approx@,
                hint@,
                polynomial_values(v, out@),
            ) && values_fit(v, out[0]@) && values_fit(v, out[1]@) && values_fit(v, out[2]@)
                && values_fit(v, out[3]@),
        forall|v: Seq<u64>| #[trigger]
            final(b).follows(v) && final(b).honest(v) && old(b).passes(v) && are_residues(
                v,
                w_approx@,
            ) && are_hint_bits(v, hint@) ==> final(b).passes(v) && polynomial_values(v, out@)
                == canonical_w1(v, w_approx@, hint@),
{
    let ghost start = *b;
    proof {
        lemma_row_is_there(&start, b, w_approx@, 0);
        lemma_row_is_there(&start, b, hint@, 0);
    }
    let p0 = use_hint_poly(b, &w_approx[0], &hint[0]);
    let ghost s0 = *b;
    proof {
        lemma_row_is_there(&start, b, w_approx@, 1);
        lemma_row_is_there(&start, b, hint@, 1);
    }
    let p1 = use_hint_poly(b, &w_approx[1], &hint[1]);
    let ghost s1 = *b;
    proof {
        lemma_row_is_there(&start, b, w_approx@, 2);
        lemma_row_is_there(&start, b, hint@, 2);
    }
    let p2 = use_hint_poly(b, &w_approx[2], &hint[2]);
    let ghost s2 = *b;
    proof {
        lemma_row_is_there(&start, b, w_approx@, 3);
        lemma_row_is_there(&start, b, hint@, 3);
    }
    let p3 = use_hint_poly(b, &w_approx[3], &hint[3]);
    let out: [[Wire; 256]; 4] = [p0, p1, p2, p3];
    proof {
        assert(out@[0] == p0 && out@[1] == p1 && out@[2] == p2 && out@[3] == p3);
        assert forall|k: int, i: int| 0 <= k < 4 && 0 <= i < 256 implies b.has(
            #[trigger] out@[k][i],
        ) by {
            if k == 0 {
                assert(s0.has(p0@[i]));
            } else if k == 1 {
                assert(s1.has(p1@[i]));
            } else if k == 2 {
                assert(s2.has(p2@[i]));
            } else {
                assert(b.has(p3@[i]));
            }
        }
        assert forall|v: Seq<u64>| #[trigger] b.follows(v) && b.passes(v) implies are_hint_bits(
            v,
            hint@,
        ) && is_w1(v, w_approx@, hint@, polynomial_values(v, out@)) && values_fit(v, out[0]@)
            && values_fit(v, out[1]@) && values_fit(v, out[2]@) && values_fit(v, out[3]@) by {
            assert(s2.follows(v) && s2.passes(v));
            assert(s1.follows(v) && s1.passes(v));
            assert(s0.follows(v) && s0.passes(v));
            let w1 = polynomial_values(v, out@);
            assert forall|k: int, i: int| 0 <= k < 4 && 0 <= i < 256 implies at(v, hint@[k][i]) < 2
                && at(v, #[trigger] out@[k][i]) < 44 && (at(v, w_approx@[k][i]) < Q ==> is_hinted(
                at(v, w_approx@[k][i]) as int,
                at(v, hint@[k][i]) as int,
                at(v, out@[k][i]) as int,
            )) by {
                if k == 0 {
                    assert(at(v, p0[i]) < 44);
                } else if k == 1 {
                    assert(at(v, p1[i]) < 44);
                } else if k == 2 {
                    assert(at(v, p2[i]) < 44);
                } else {
                    assert(at(v, p3[i]) < 44);
                }
            }
            assert forall|k: int, i: int| 0 <= k < 4 && 0 <= i < 256 implies at(
                v,
                #[trigger] hint@[k][i],
            ) < 2 by {
                assert(at(v, out@[k][i]) < 44);
            }
            assert forall|k: int, i: int| 0 <= k < 4 && 0 <= i < 256 implies (#[trigger] w1[k][i])
                < 44 && (at(v, w_approx@[k][i]) < Q ==> is_hinted(
                at(v, w_approx@[k][i]) as int,
                at(v, hint@[k][i]) as int,
                w1[k][i] as int,
            )) by {
                assert(at(v, out@[k][i]) < 44);
            }
            assert forall|i: int| 0 <= i < 256 implies at(v, #[trigger] out[0]@[i]) < 64 by {
                assert(at(v, out@[0][i]) < 44);
            }
            assert forall|i: int| 0 <= i < 256 implies at(v, #[trigger] out[1]@[i]) < 64 by {
                assert(at(v, out@[1][i]) < 44);
            }
            assert forall|i: int| 0 <= i < 256 implies at(v, #[trigger] out[2]@[i]) < 64 by {
                assert(at(v, out@[2][i]) < 44);
            }
            assert forall|i: int| 0 <= i < 256 implies at(v, #[trigger] out[3]@[i]) < 64 by {
                assert(at(v, out@[3][i]) < 44);
            }
        }
        assert forall|v: Seq<u64>| #[trigger]
            b.follows(v) && b.honest(v) && start.passes(v) && are_residues(v, w_approx@)
                && are_hint_bits(v, hint@) implies b.passes(v) && polynomial_values(v, out@)
            == canonical_w1(v, w_approx@, hint@) by {
            assert(s2.follows(v) && s2.honest(v));
            assert(s1.follows(v) && s1.honest(v));
            assert(s0.follows(v) && s0.honest(v));
            assert forall|k: int, i: int| 0 <= k < 4 && 0 <= i < 256 implies at(
                v,
                #[trigger] w_approx[k][i],
            ) < Q && at(v, hint[k][i]) < 2 by {
                assert(at(v, w_approx@[k][i]) < Q);
                assert(at(v, hint@[k][i]) < 2);
            }
            assert forall|i: int| 0 <= i < 256 implies at(v, #[trigger] w_approx[0][i]) < Q && at(
                v,
                hint[0][i],
            ) < 2 by {}
            assert(s0.passes(v));
            assert forall|i: int| 0 <= i < 256 implies at(v, #[trigger] w_approx[1][i]) < Q && at(
                v,
                hint[1][i],
            ) < 2 by {}
            assert(s1.passes(v));
            assert forall|i: int| 0 <= i < 256 implies at(v, #[trigger] w_approx[2][i]) < Q && at(
                v,
                hint[2][i],
            ) < 2 by {}
            assert(s2.passes(v));
            assert forall|i: int| 0 <= i < 256 implies at(v, #[trigger] w_approx[3][i]) < Q && at(
                v,
                hint[3][i],
            ) < 2 by {}
            let (a, c) = (polynomial_values(v, out@), canonical_w1(v, w_approx@, hint@));
            assert forall|k: int| 0 <= k < 4 implies a[k] == c[k] by {
                assert forall|i: int| 0 <= i < 256 implies a[k][i] == c[k][i] by {
                    let r = at(v, w_approx@[k][i]) as int;
                    let t = at(v, hint@[k][i]) as int;
                    if k == 0 {
                        assert(at(v, p0[i]) == hinted_part(r, t));
                    } else if k == 1 {
                        assert(at(v, p1[i]) == hinted_part(r, t));
                    } else if k == 2 {
                        assert(at(v, p2[i]) == hinted_part(r, t));
                    } else {
                        assert(at(v, p3[i]) == hinted_part(r, t));
                    }
                }
                assert(a[k] =~= c[k]);
            }
            assert(a =~= c);
        }
    }
    out
}

/// Pack the `w1` polynomial vector into 96 lanes, 24 for each polynomial.
pub fn pack_w1_polyvec(b: &mut CircuitBuilder, w1: &[[Wire; 256]; 4]) -> (out: [Wire; 96])
    requires
        old(b).is_valid(),
        has_polynomials(old(b), w1@, 4),
    ensures
        final(b).is_valid(),
        final(b).grows_from(old(b)),
        final(b).has_all(out@),
        forall|v: Seq<u64>| #[trigger] final(b).honest(v) == old(b).honest(v),
        forall|v: Seq<u64>| #[trigger] final(b).passes(v) == old(b).passes(v),
        forall|v: Seq<u64>| #[trigger]
            final(b).follows(v) && values_fit(v, w1[0]@) && values_fit(v, w1[1]@) && values_fit(
                v,
                w1[2]@,
            ) && values_fit(v, w1[3]@) ==> forall|i: int|
                0 <= i < 96 ==> at(v, #[trigger] out[i]) == lane_of_bytes(
                    w1_bytes(polynomial_values(v, w1@)[i / 24]),
                    i % 24,
                ),
{
    let ghost start = *b;
    let zero = b.add_constant_64(0);
    let mut out: [Wire; 96] = [zero;96];
    let mut k: usize = 0;
    while k < 4
        invariant
            k <= 4,
            b.is_valid(),
            b.grows_from(&start),
            has_polynomials(&start, w1@, 4),
            b.has_all(out@),
            forall|v: Seq<u64>| #[trigger] b.honest(v) == start.honest(v),
            forall|v: Seq<u64>| #[trigger] b.passes(v) == start.passes(v),
            forall|v: Seq<u64>| #[trigger]
                b.follows(v) && values_fit(v, w1[0]@) && values_fit(v, w1[1]@) && values_fit(
                    v,
                    w1[2]@,
                ) && values_fit(v, w1[3]@) ==> forall|i: int|
                    0 <= i < 24 * k ==> at(v, #[trigger] out[i]) == lane_of_bytes(
                        w1_bytes(polynomial_values(v, w1@)[i / 24]),
                        i % 24,
                    ),
        decreases 4 - k,
    {
        let ghost before = *b;
        let ghost wires = out@;
        proof {
            lemma_row_is_there(&start, b, w1@, k as int);
        }
        let packed = polyw1_pack(b, &w1[k]);
        let mut l: usize = 0;
        while l < 24
            invariant
                l <= 24,
                k < 4,
                b.size() >= before.size(),
                before.has_all(wires),
                b.has_all(packed@),
                b.has_all(out@),
                forall|i: int| 0 <= i < 24 * k ==> out[i] == wires[i],
                forall|i: int| 0 <= i < l ==> out[24 * k + i] == packed[i],
                wires.len() == 96,
            decreases 24 - l,
        {
            let ghost old_out = out@;
            assert(b.has(packed@[l as int]));
            out[24 * k + l] = packed[l];
            assert forall|i: int| 0 <= i < 96 implies b.has(#[trigger] out@[i]) by {
                assert(b.has(old_out[i]));
            }
            l = l + 1;
        }
        proof {
            assert forall|v: Seq<u64>| #[trigger]
                b.follows(v) && values_fit(v, w1[0]@) && values_fit(v, w1[1]@) && values_fit(
                    v,
                    w1[2]@,
                ) && values_fit(v, w1[3]@) implies forall|i: int|
                0 <= i < 24 * (k + 1) ==> at(v, #[trigger] out[i]) == lane_of_bytes(
                    w1_bytes(polynomial_values(v, w1@)[i / 24]),
                    i % 24,
                ) by {
                assert(before.follows(v));
                assert(values_fit(v, w1[k as int]@));
                assert forall|i: int| 0 <= i < 24 * (k + 1) implies at(v, #[trigger] out[i])
                    == lane_of_bytes(w1_bytes(polynomial_values(v, w1@)[i / 24]), i % 24) by {
                    if i < 24 * k {
                        assert(out[i] == wires[i]);
                    } else {
                        let l = i - 24 * k;
                        assert(out[24 * k + l] == packed[l]);
                        assert(i / 24 == k && i % 24 == l);
                    }
                }
            }
        }
        k = k + 1;
    }
    out
}

/// Whether `c~` is the final hash for some `w1` that the hint makes of the residues.
pub open spec fn r7_holds(
    v: Seq<u64>,
    w_approx: Seq<[Wire; 256]>,
    hint: Seq<[Wire; 256]>,
    mu: Seq<Wire>,
    c_tilde: Seq<Wire>,
) -> bool {
    exists|w1: Seq<Seq<u32>>| #[trigger]
        is_w1(v, w_approx, hint, w1) && is_final_hash(values(v, mu), w1, values(v, c_tilde))
}

/// Whether lanes are the final hash for `mu` and `w1`.
pub open spec fn is_final_hash(mu: Seq<u64>, w1: Seq<Seq<u32>>, c_tilde: Seq<u64>) -> bool {
    forall|i: int| 0 <= i < 4 ==> #[trigger] c_tilde[i] == r7_lane(mu, w1, i)
}

/// Constrain `c~` to be the hash of `mu` and the packed `w1`, where `w1` is derived from `wApprox`
/// and the hint.
///
/// What passes has hint bits and meets the hash equation for a `w1` that the hint makes of the
/// residues; the honest `w1` passes where it meets the hash equation.
pub fn assert_r7(
    b: &mut CircuitBuilder,
    w_approx: &[[Wire; 256]; 4],
    hint: &[[Wire; 256]; 4],
    mu_lanes: &[Wire; 8],
    c_tilde_lanes: &[Wire; 4],
)
    requires
        old(b).is_valid(),
        has_polynomials(old(b), w_approx@, 4),
        has_polynomials(old(b), hint@, 4),
        old(b).has_all(mu_lanes@),
        old(b).has_all(c_tilde_lanes@),
    ensures
        final(b).is_valid(),
        final(b).grows_from(old(b)),
        forall|v: Seq<u64>| #[trigger]
            final(b).follows(v) && final(b).passes(v) ==> are_hint_bits(v, hint@) && r7_holds(
                v,
                w_approx@,
                hint@,
                mu_lanes@,
                c_tilde_lanes@,
            ),
        forall|v: Seq<u64>| #[trigger]
            final(b).follows(v) && final(b).honest(v) && old(b).passes(v) && are_residues(
                v,
                w_approx@,
            ) && are_hint_bits(v, hint@) && is_final_hash(
                values(v, mu_lanes@),
                canonical_w1(v, w_approx@, hint@),
                values(v, c_tilde_lanes@),
            ) ==> final(b).passes(v),
{
    let ghost start = *b;
    let w1 = use_hint_polyvec(b, w_approx, hint);
    let ghost after_hint = *b;
    let packed_w1 = pack_w1_polyvec(b, &w1);
    let ghost after_pack = *b;
    let zero = b.add_constant_64(0);
    let mut input: [Wire; 104] = [zero;104];
    let mut i: usize = 0;
    while i < 104
        invariant
            i <= 104,
            forall|k: int| 0 <= k < i ==> input[k] == if k < 8 {
                mu_lanes[k]
            } else {
                packed_w1[k - 8]
            },
        decreases 104 - i,
    {
        input[i] = if i < 8 {
            mu_lanes[i]
        } else {
            packed_w1[i - 8]
        };
        i = i + 1;
    }
    assert(b.has_all(input@)) by {
        assert forall|k: int| 0 <= k < 104 implies b.has(#[trigger] input@[k]) by {
            if k < 8 {
                assert(start.has(mu_lanes@[k]));
            } else {
                assert(after_pack.has(packed_w1@[k - 8]));
            }
        }
    }
    let computed = shake256(b, input.as_slice(), 832, 4);
    let ghost after_hash = *b;
    assert(b.has(computed@[0]) && b.has(computed@[1]) && b.has(computed@[2]) && b.has(computed@[3]));
    assert(start.has(c_tilde_lanes@[0]) && start.has(c_tilde_lanes@[1]) && start.has(
        c_tilde_lanes@[2],
    ) && start.has(c_tilde_lanes@[3]));
    b.assert_eq(computed[0], c_tilde_lanes[0]);
    b.assert_eq(computed[1], c_tilde_lanes[1]);
    b.assert_eq(computed[2], c_tilde_lanes[2]);
    b.assert_eq(computed[3], c_tilde_lanes[3]);
    proof {
        assert forall|v: Seq<u64>| #[trigger] after_hash.follows(v) && values_fit(v, w1[0]@)
            && values_fit(v, w1[1]@) && values_fit(v, w1[2]@) && values_fit(v, w1[3]@) implies forall|
            k: int,
        | 0 <= k < 4 ==> at(v, #[trigger] computed@[k]) == r7_lane(
            values(v, mu_lanes@),
            polynomial_values(v, w1@),
            k,
        ) by {
            assert(after_pack.follows(v));
            let hashed = hash_input(values(v, mu_lanes@), polynomial_values(v, w1@));
            assert forall|k: int| 0 <= k < 104 implies values(v, input@)[k] == hashed[k] by {
                if k >= 8 {
                    assert(at(v, packed_w1[k - 8]) == lane_of_bytes(
                        w1_bytes(polynomial_values(v, w1@)[(k - 8) / 24]),
                        (k - 8) % 24,
                    ));
                }
            }
            assert(values(v, input@) =~= hashed);
        }
        assert forall|v: Seq<u64>| #[trigger] b.follows(v) && b.passes(v) implies are_hint_bits(
            v,
            hint@,
        ) && r7_holds(v, w_approx@, hint@, mu_lanes@, c_tilde_lanes@) by {
            assert(after_hash.follows(v));
            assert(after_pack.follows(v));
            assert(after_hint.follows(v) && after_hint.passes(v));
            let w = polynomial_values(v, w1@);
            assert(is_w1(v, w_approx@, hint@, w));
            let c = values(v, c_tilde_lanes@);
            assert forall|k: int| 0 <= k < 4 implies #[trigger] c[k] == r7_lane(
                values(v, mu_lanes@),
                w,
                k,
            ) by {
                assert(at(v, computed@[k]) == r7_lane(values(v, mu_lanes@), w, k));
                if k == 0 {
                } else if k == 1 {
                } else if k == 2 {
                } else {
                }
            }
        }
        assert forall|v: Seq<u64>| #[trigger]
            b.follows(v) && b.honest(v) && start.passes(v) && are_residues(v, w_approx@)
                && are_hint_bits(v, hint@) && is_final_hash(
                values(v, mu_lanes@),
                canonical_w1(v, w_approx@, hint@),
                values(v, c_tilde_lanes@),
            ) implies b.passes(v) by {
            assert(after_hash.follows(v));
            assert(after_pack.follows(v) && after_hash.honest(v) && after_pack.honest(v));
            assert(after_hint.follows(v) && after_hint.honest(v));
            assert(after_hint.passes(v));
            let c = values(v, c_tilde_lanes@);
            let w = polynomial_values(v, w1@);
            assert(at(v, computed@[0]) == r7_lane(values(v, mu_lanes@), w, 0));
            assert(at(v, computed@[1]) == r7_lane(values(v, mu_lanes@), w, 1));
            assert(at(v, computed@[2]) == r7_lane(values(v, mu_lanes@), w, 2));
            assert(at(v, computed@[3]) == r7_lane(values(v, mu_lanes@), w, 3));
            assert(c[0] == r7_lane(values(v, mu_lanes@), w, 0));
            assert(c[1] == r7_lane(values(v, mu_lanes@), w, 1));
            assert(c[2] == r7_lane(values(v, mu_lanes@), w, 2));
            assert(c[3] == r7_lane(values(v, mu_lanes@), w, 3));
        }
    }
}

} // verus!
