//! Single-signature ML-DSA verifier circuit.
//!
//! The circuit reads `c~`, `z` and the hint out of the packed signature, bounds `z`, and binds `c~`
//! to the final hash over `mu` and the `w1` that the hint makes of `wApprox`. `mu` and `wApprox`
//! are inputs; the product `A * z - c * t1 * 2^D` that `wApprox` stands for is not constrained, and
//! neither is the challenge `c = SampleInBall(c~)`, which only that product needs.

use vstd::prelude::*;

use super::circuit::{at, CircuitBuilder, Wire};
use super::hint::{
    are_free_from, hint_values, holds_hint, is_hint, lemma_stay_free, stand_in_order, unpack_h,
};
use super::params::Mode;
use super::polyz::{assert_norm_centered, stream_coefficient, within_norm};
use super::r7::{
    are_hint_bits, are_residues, assert_r7, canonical_w1, is_final_hash, r7_holds,
};
use super::shake::values;
use super::sigdecode::{has_polynomials, holds_z, unpack_c_tilde, unpack_z, z_lanes};

verus! {

/// The circuit of one signature.
#[derive(Debug)]
pub struct MlDsaVerifier {
    /// Selected parameter set.
    pub mode: Mode,
    /// The wires of `c~`: the first four lanes of the signature.
    pub c_tilde: [Wire; 4],
    /// The hint wires, for the prover to fill.
    pub hint: [[Wire; 256]; 4],
}

/// Whether every coefficient that the `z` section of a signature holds is within the norm bound.
pub open spec fn response_within_norm(v: Seq<u64>, sig: Seq<Wire>) -> bool {
    forall|p: int, i: int|
        0 <= p < 4 && 0 <= i < 256 ==> within_norm(
            #[trigger] stream_coefficient(v, z_lanes(sig, p), i),
        )
}

/// Asserts the norm bound on the polynomials of the response.
fn assert_norms(b: &mut CircuitBuilder, sig: &[Wire; 303], z: &[[Wire; 256]; 4])
    requires
        old(b).is_valid(),
        has_polynomials(old(b), z@, 4),
        forall|v: Seq<u64>| #[trigger] old(b).follows(v) ==> holds_z(v, sig@, z@, 4),
    ensures
        final(b).is_valid(),
        final(b).grows_from(old(b)),
        forall|v: Seq<u64>| #[trigger] final(b).honest(v) == old(b).honest(v),
        forall|v: Seq<u64>| #[trigger]
            final(b).follows(v) ==> final(b).passes(v) == (old(b).passes(v)
                && response_within_norm(v, sig@)),
{
    let ghost start = *b;
    let mut n: usize = 0;
    while n < 4
        invariant
            n <= 4,
            b.is_valid(),
            b.grows_from(&start),
            has_polynomials(&start, z@, 4),
            forall|v: Seq<u64>| #[trigger] start.follows(v) ==> holds_z(v, sig@, z@, 4),
            forall|v: Seq<u64>| #[trigger] b.honest(v) == start.honest(v),
            forall|v: Seq<u64>| #[trigger]
                b.follows(v) ==> b.passes(v) == (start.passes(v) && forall|p: int, i: int|
                    0 <= p < n && 0 <= i < 256 ==> within_norm(
                        #[trigger] stream_coefficient(v, z_lanes(sig@, p), i),
                    )),
        decreases 4 - n,
    {
        let ghost before = *b;
        assert(b.has_all(z[n as int]@)) by {
            assert forall|i: int| 0 <= i < 256 implies b.has(#[trigger] z[n as int]@[i]) by {
                assert(start.has(z@[n as int][i]));
            }
        }
        assert_norm_centered(b, &z[n]);
        proof {
            assert forall|v: Seq<u64>| #[trigger] b.follows(v) implies b.passes(v) == (
            start.passes(v) && forall|p: int, i: int|
                0 <= p < n + 1 && 0 <= i < 256 ==> within_norm(
                    #[trigger] stream_coefficient(v, z_lanes(sig@, p), i),
                )) by {
                assert(before.follows(v) && start.follows(v));
                assert(holds_z(v, sig@, z@, 4));
                let row = z@[n as int];
                assert forall|i: int| 0 <= i < 256 implies at(v, #[trigger] row[i])
                    == stream_coefficient(v, z_lanes(sig@, n as int), i) by {
                    assert(at(v, z@[n as int][i]) == stream_coefficient(
                        v,
                        z_lanes(sig@, n as int),
                        i,
                    ));
                }
                if b.passes(v) {
                    assert forall|p: int, i: int| 0 <= p < n + 1 && 0 <= i < 256 implies within_norm(
                        #[trigger] stream_coefficient(v, z_lanes(sig@, p), i),
                    ) by {
                        if p == n {
                            assert(within_norm(at(v, row[i]) as int));
                        }
                    }
                } else if before.passes(v) {
                    let i = choose|i: int|
                        0 <= i < 256 && !within_norm(at(v, #[trigger] row[i]) as int);
                    assert(!within_norm(stream_coefficient(v, z_lanes(sig@, n as int), i)));
                }
            }
        }
        n = n + 1;
    }
}

impl MlDsaVerifier {
    /// Whether a circuit grew by the checks of one signature.
    ///
    /// The hint wires are new free wires, each of its own. What passes has a response within the
    /// norm bound, a hint section that is the encoding of the hint wires, and a `c~` that is the
    /// final hash for them. The honest values of a signature with these properties pass.
    pub open spec fn verifies(
        &self,
        before: CircuitBuilder,
        after: CircuitBuilder,
        sig: Seq<Wire>,
        mu: Seq<Wire>,
        w_approx: Seq<[Wire; 256]>,
    ) -> bool {
        &&& after.grows_from(&before)
        &&& self.c_tilde@ == sig.subrange(0, 4)
        &&& are_free_from(&after, self.hint@, before.size())
        &&& stand_in_order(self.hint@)
        &&& forall|v: Seq<u64>| #[trigger]
            after.follows(v) && after.passes(v) ==> before.passes(v) && response_within_norm(v, sig)
                && holds_hint(v, sig, self.hint@) && r7_holds(
                v,
                w_approx,
                self.hint@,
                mu,
                self.c_tilde@,
            )
        &&& forall|v: Seq<u64>| #[trigger]
            after.follows(v) && after.honest(v) && before.passes(v) && response_within_norm(v, sig)
                && holds_hint(v, sig, self.hint@) && are_residues(v, w_approx) && is_final_hash(
                values(v, mu),
                canonical_w1(v, w_approx, self.hint@),
                values(v, self.c_tilde@),
            ) ==> after.passes(v)
    }

    /// Construct the circuit for one signature.
    pub fn new(
        b: &mut CircuitBuilder,
        sig: &[Wire; 303],
        mu: &[Wire; 8],
        w_approx: &[[Wire; 256]; 4],
    ) -> (r: Self)
        requires
            old(b).is_valid(),
            old(b).has_all(sig@),
            old(b).has_all(mu@),
            has_polynomials(old(b), w_approx@, 4),
        ensures
            final(b).is_valid(),
            final(b).grows_from(old(b)),
            r.mode == Mode::Mode2,
            r.verifies(*old(b), *final(b), sig@, mu@, w_approx@),
    {
        let ghost start = *b;
        let c_tilde = unpack_c_tilde(sig);
        let z = unpack_z(b, sig);
        let ghost after_z = *b;
        assert_norms(b, sig, &z);
        let ghost after_norms = *b;
        assert(b.has_all(sig@)) by {
            assert forall|k: int| 0 <= k < 303 implies b.has(#[trigger] sig@[k]) by {
                assert(start.has(sig@[k]));
            }
        }
        let hint = unpack_h(b, sig);
        let ghost after_hint = *b;
        proof {
            assert forall|k: int, i: int| 0 <= k < 4 && 0 <= i < 256 implies b.has(
                #[trigger] w_approx@[k][i],
            ) by {
                assert(start.has(w_approx@[k][i]));
            }
            assert forall|k: int| 0 <= k < 8 implies b.has(#[trigger] mu@[k]) by {
                assert(start.has(mu@[k]));
            }
            assert forall|k: int| 0 <= k < 4 implies b.has(#[trigger] c_tilde@[k]) by {
                assert(c_tilde@[k] == sig@[k]);
                assert(start.has(sig@[k]));
            }
        }
        assert_r7(b, w_approx, &hint, mu, &c_tilde);
        proof {
            lemma_stay_free(&after_hint, b, hint@, after_norms.size());
            assert(are_free_from(b, hint@, start.size())) by {
                assert forall|k: int, i: int| 0 <= k < 4 && 0 <= i < 256 implies b.is_free(
                    #[trigger] hint@[k][i],
                ) && hint@[k][i].index >= start.size() by {
                    assert(after_norms.size() >= start.size());
                }
            }
            assert forall|v: Seq<u64>| #[trigger] b.follows(v) && b.passes(v) implies start.passes(
                v,
            ) && response_within_norm(v, sig@) && holds_hint(v, sig@, hint@) && r7_holds(
                v,
                w_approx@,
                hint@,
                mu@,
                c_tilde@,
            ) by {
                assert(after_hint.follows(v) && after_hint.passes(v));
                assert(after_norms.follows(v) && after_norms.passes(v));
                assert(after_z.follows(v) && after_z.passes(v));
            }
            assert forall|v: Seq<u64>| #[trigger]
                b.follows(v) && b.honest(v) && start.passes(v) && response_within_norm(v, sig@)
                    && holds_hint(v, sig@, hint@) && are_residues(v, w_approx@) && is_final_hash(
                    values(v, mu@),
                    canonical_w1(v, w_approx@, hint@),
                    values(v, c_tilde@),
                ) implies b.passes(v) by {
                assert(after_hint.follows(v) && after_hint.honest(v));
                assert(after_norms.follows(v) && after_norms.honest(v));
                assert(after_z.follows(v) && after_z.honest(v));
                assert(after_z.passes(v) && after_norms.passes(v) && after_hint.passes(v));
                let h = hint_values(v, hint@);
                assert(is_hint(h));
                assert forall|k: int, i: int| 0 <= k < 4 && 0 <= i < 256 implies at(
                    v,
                    #[trigger] hint@[k][i],
                ) < 2 by {
                    assert(0 <= h[k][i] < 2);
                }
                assert(are_hint_bits(v, hint@));
            }
        }
        MlDsaVerifier { mode: Mode::Mode2, c_tilde, hint }
    }
}

} // verus!
