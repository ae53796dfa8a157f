//! Honest signatures are accepted by the circuit of one signature.

use vstd::prelude::*;

use super::assignments::{differ, law_assignment_exists, law_values_can_be_placed};
use super::circuit::{at, CircuitBuilder, Wire};
use super::hint::{hint_byte, hint_values, holds_hint, is_hint, law_hint_section_is_unique};
use super::params::Q;
use super::polyz::{stream_byte, stream_coefficient, within_norm};
use super::r7::{
    are_residues, canonical_w1, hash_input, is_final_hash, is_w1, law_w1_is_unique, r7_holds,
    r7_lane,
};
use super::rounding::{hinted_part, is_tie};
use super::polyw1::w1_bytes;
use super::shake::{shake256_lane, values};
use super::sigdecode::{holds_response, law_response_is_read_back, z_lanes};
use super::signature_verifier::{response_within_norm, MlDsaVerifier};
use crate::words::{lane_of_bytes, lemma_lane_bytes, padded_byte};

verus! {

/// What a signer hands over: the packed signature and what is in it, `mu` and `wApprox`.
pub struct Signed {
    pub packed: Seq<u8>,
    pub c_tilde: Seq<u8>,
    pub z: Seq<[u32; 256]>,
    pub hint: Seq<Seq<int>>,
    pub mu: Seq<u64>,
    pub w_approx: Seq<Seq<u64>>,
}

impl Signed {
    /// What the hint makes of `wApprox`.
    pub open spec fn w1(&self) -> Seq<Seq<u32>> {
        Seq::new(
            4,
            |k: int|
                Seq::new(
                    256,
                    |i: int|
                        hinted_part(self.w_approx[k][i] as int, self.hint[k][i]) as u32,
                ),
        )
    }

    /// Whether the signature packs its parts: `c~`, the response and the hint section.
    pub open spec fn is_packed(&self) -> bool {
        &&& self.z.len() == 4
        &&& holds_response(self.packed, self.c_tilde, self.z)
        &&& is_hint(self.hint)
        &&& forall|j: int| 0 <= j < 84 ==> self.packed[2336 + j] == #[trigger] hint_byte(self.hint, j)
    }

    /// Whether the signature is a good one: packed right, with a response within the norm bound and
    /// a `c~` that is the final hash.
    pub open spec fn is_good(&self) -> bool {
        &&& self.is_packed()
        &&& forall|p: int, i: int|
            0 <= p < 4 && 0 <= i < 256 ==> within_norm((#[trigger] self.z[p][i]) as int)
        &&& self.mu.len() == 8
        &&& self.w_approx.len() == 4
        &&& forall|k: int| 0 <= k < 4 ==> (#[trigger] self.w_approx[k]).len() == 256
        &&& forall|k: int, i: int|
            0 <= k < 4 && 0 <= i < 256 ==> (#[trigger] self.w_approx[k][i]) < Q
        &&& is_final_hash(
            self.mu,
            self.w1(),
            Seq::new(4, |i: int| lane_of_bytes(self.c_tilde, i)),
        )
    }

    /// Whether wires hold the packed signature, `mu` and `wApprox`.
    pub open spec fn is_held(
        &self,
        v: Seq<u64>,
        sig: Seq<Wire>,
        mu: Seq<Wire>,
        w_approx: Seq<[Wire; 256]>,
    ) -> bool {
        &&& forall|l: int|
            0 <= l < 303 ==> at(v, #[trigger] sig[l]) == lane_of_bytes(self.packed, l)
        &&& forall|l: int| 0 <= l < 8 ==> at(v, #[trigger] mu[l]) == self.mu[l]
        &&& forall|k: int, i: int|
            0 <= k < 4 && 0 <= i < 256 ==> at(v, #[trigger] w_approx[k][i]) == self.w_approx[k][i]
    }
}

/// The input wires of the circuit, one after the other.
pub open spec fn input_wires(sig: Seq<Wire>, mu: Seq<Wire>, w_approx: Seq<[Wire; 256]>) -> Seq<
    Wire,
> {
    Seq::new(
        1335,
        |k: int|
            if k < 303 {
                sig[k]
            } else if k < 311 {
                mu[k - 303]
            } else {
                w_approx[(k - 311) / 256][(k - 311) % 256]
            },
    )
}

/// The wires of polynomials, one after the other.
spec fn flat(h: Seq<[Wire; 256]>) -> Seq<Wire> {
    Seq::new(1024, |k: int| h[k / 256][k % 256])
}

/// The values that belong to the input wires and the hint wires.
spec fn intended(s: Signed) -> Seq<u64> {
    Seq::new(
        2359,
        |k: int|
            if k < 303 {
                lane_of_bytes(s.packed, k)
            } else if k < 311 {
                s.mu[k - 303]
            } else if k < 1335 {
                s.w_approx[(k - 311) / 256][(k - 311) % 256]
            } else {
                s.hint[(k - 1335) / 256][(k - 1335) % 256] as u64
            },
    )
}

/// The bytes of the hint section that lanes of a packed signature hold.
proof fn lemma_hint_section(s: Signed, v: Seq<u64>, sig: Seq<Wire>, j: int)
    requires
        s.is_packed(),
        sig.len() == 303,
        forall|l: int| 0 <= l < 303 ==> at(v, #[trigger] sig[l]) == lane_of_bytes(s.packed, l),
        0 <= j < 84,
    ensures
        stream_byte(v, sig, 2336 + j) == hint_byte(s.hint, j),
{
    let m = 2336 + j;
    assert(at(v, sig[m / 8]) == lane_of_bytes(s.packed, m / 8));
    lemma_lane_bytes(s.packed, m / 8, m % 8);
    assert(8 * (m / 8) + m % 8 == m);
    assert(s.packed[2336 + j] == hint_byte(s.hint, j));
}

/// The lanes of `c~` are the first lanes of the packed signature.
proof fn lemma_c_tilde_lane(s: Signed, l: int)
    requires
        s.is_packed(),
        0 <= l < 4,
    ensures
        lane_of_bytes(s.packed, l) == lane_of_bytes(s.c_tilde, l),
{
    assert forall|j: int| 0 <= j < 32 implies padded_byte(s.packed, j) == padded_byte(
        s.c_tilde,
        j,
    ) by {
        assert(s.packed.subrange(0, 32)[j] == s.packed[j]);
    }
}

/// What holds of wires that hold a good signature and its hint.
proof fn lemma_good_values(
    s: Signed,
    v: Seq<u64>,
    sig: Seq<Wire>,
    mu: Seq<Wire>,
    w_approx: Seq<[Wire; 256]>,
    hint: Seq<[Wire; 256]>,
)
    requires
        s.is_good(),
        sig.len() == 303,
        mu.len() == 8,
        w_approx.len() == 4,
        s.is_held(v, sig, mu, w_approx),
        hint_values(v, hint) == s.hint,
    ensures
        response_within_norm(v, sig),
        holds_hint(v, sig, hint),
        are_residues(v, w_approx),
        is_final_hash(
            values(v, mu),
            canonical_w1(v, w_approx, hint),
            values(v, sig.subrange(0, 4)),
        ),
{
    assert forall|p: int, i: int| 0 <= p < 4 && 0 <= i < 256 implies within_norm(
        #[trigger] stream_coefficient(v, z_lanes(sig, p), i),
    ) by {
        law_response_is_read_back(v, sig, s.packed, s.c_tilde, s.z, p, i);
        assert(within_norm(s.z[p][i] as int));
    }
    assert forall|j: int| 0 <= j < 84 implies #[trigger] stream_byte(v, sig, 2336 + j) == hint_byte(
        hint_values(v, hint),
        j,
    ) by {
        lemma_hint_section(s, v, sig, j);
    }
    assert forall|k: int, i: int| 0 <= k < 4 && 0 <= i < 256 implies at(
        v,
        #[trigger] w_approx[k][i],
    ) < Q by {
        assert(s.w_approx[k][i] < Q);
    }
    assert(values(v, mu) =~= s.mu);
    let c_tilde = values(v, sig.subrange(0, 4));
    let w1 = canonical_w1(v, w_approx, hint);
    assert forall|k: int| 0 <= k < 4 implies w1[k] == s.w1()[k] by {
        assert forall|i: int| 0 <= i < 256 implies w1[k][i] == s.w1()[k][i] by {
            assert(at(v, w_approx[k][i]) == s.w_approx[k][i]);
            assert(at(v, hint[k][i]) as int == hint_values(v, hint)[k][i]);
        }
        assert(w1[k] =~= s.w1()[k]);
    }
    assert(w1 =~= s.w1());
    let lanes = Seq::new(4, |i: int| lane_of_bytes(s.c_tilde, i));
    assert forall|i: int| 0 <= i < 4 implies c_tilde[i] == lanes[i] by {
        assert(at(v, sig[i]) == lane_of_bytes(s.packed, i));
        lemma_c_tilde_lane(s, i);
    }
    assert(c_tilde =~= lanes);
}

/// Whether the input wires of a circuit can be given any values: they are free, and no two of them
/// are the same.
pub open spec fn has_free_inputs(
    b: CircuitBuilder,
    sig: Seq<Wire>,
    mu: Seq<Wire>,
    w_approx: Seq<[Wire; 256]>,
) -> bool {
    let inputs = input_wires(sig, mu, w_approx);
    &&& sig.len() == 303
    &&& mu.len() == 8
    &&& w_approx.len() == 4
    &&& differ(inputs)
    &&& forall|k: int| 0 <= k < inputs.len() ==> b.is_free(#[trigger] inputs[k])
}

/// Inputs and hint can be given any values.
proof fn lemma_inputs_can_be_placed(
    s: Signed,
    before: CircuitBuilder,
    after: CircuitBuilder,
    sig: Seq<Wire>,
    mu: Seq<Wire>,
    w_approx: Seq<[Wire; 256]>,
    verifier: MlDsaVerifier,
) -> (v: Seq<u64>)
    requires
        after.is_valid(),
        has_free_inputs(before, sig, mu, w_approx),
        verifier.verifies(before, after, sig, mu, w_approx),
    ensures
        after.follows(v),
        after.honest(v),
        forall|k: int|
            0 <= k < 1335 ==> at(v, #[trigger] input_wires(sig, mu, w_approx)[k]) == intended(s)[k],
        forall|k: int|
            0 <= k < 1024 ==> at(v, #[trigger] flat(verifier.hint@)[k]) == intended(s)[1335 + k],
{
    let inputs = input_wires(sig, mu, w_approx);
    let hints = flat(verifier.hint@);
    let all = inputs + hints;
    assert forall|k: int| 0 <= k < 1335 implies after.is_free(#[trigger] inputs[k])
        && inputs[k].index < before.size() by {
        assert(before.is_free(inputs[k]));
        let i = inputs[k].index as int;
        assert(after.gates@[i] == before.gates@[i]);
    }
    assert forall|k: int| 0 <= k < 1024 implies after.is_free(#[trigger] hints[k])
        && hints[k].index >= before.size() by {
        assert(after.is_free(verifier.hint@[k / 256][k % 256]));
    }
    assert forall|k: int| 0 <= k < all.len() implies (#[trigger] all[k]).index < after.size() by {
        if k < 1335 {
            assert(after.is_free(inputs[k]));
        } else {
            assert(after.is_free(hints[k - 1335]));
        }
    }
    assert forall|a: int, b: int| 0 <= a < b < all.len() implies (#[trigger] all[a]).index != (
    #[trigger] all[b]).index by {
        if b < 1335 {
            assert(inputs[a].index != inputs[b].index);
        } else if a < 1335 {
            assert(inputs[a].index < before.size());
            assert(hints[b - 1335].index >= before.size());
        } else {
            let (c, d) = (a - 1335, b - 1335);
            let h = verifier.hint@;
            assert(all[a] == h[c / 256][c % 256] && all[b] == h[d / 256][d % 256]);
            assert(c / 256 < d / 256 || c / 256 == d / 256 && c % 256 < d % 256);
        }
    }
    let start = law_values_can_be_placed(after.size(), all, intended(s));
    let v = law_assignment_exists(after, start);
    assert forall|k: int| 0 <= k < 1335 implies at(v, #[trigger] inputs[k]) == intended(s)[k] by {
        assert(after.is_free(inputs[k]));
        assert(at(start, all[k]) == intended(s)[k]);
    }
    assert forall|k: int| 0 <= k < 1024 implies at(v, #[trigger] hints[k]) == intended(s)[1335
        + k] by {
        assert(after.is_free(hints[k]));
        assert(at(start, all[1335 + k]) == intended(s)[1335 + k]);
    }
    v
}

/// A good signature is accepted: where the input wires of the circuit of one signature are free and
/// no two of them are the same, there is an assignment with the signature, `mu`, `wApprox` and the
/// hint on their wires that the circuit accepts. What the circuit checked before must hold of
/// these values.
pub proof fn law_good_signature_is_accepted(
    s: Signed,
    before: CircuitBuilder,
    after: CircuitBuilder,
    sig: Seq<Wire>,
    mu: Seq<Wire>,
    w_approx: Seq<[Wire; 256]>,
    verifier: MlDsaVerifier,
) -> (v: Seq<u64>)
    requires
        s.is_good(),
        after.is_valid(),
        has_free_inputs(before, sig, mu, w_approx),
        verifier.verifies(before, after, sig, mu, w_approx),
        forall|u: Seq<u64>| #[trigger]
            before.follows(u) && s.is_held(u, sig, mu, w_approx) ==> before.passes(u),
    ensures
        after.accepts(v),
        s.is_held(v, sig, mu, w_approx),
        hint_values(v, verifier.hint@) == s.hint,
{
    let v = lemma_inputs_can_be_placed(s, before, after, sig, mu, w_approx, verifier);
    let inputs = input_wires(sig, mu, w_approx);
    let values = intended(s);
    assert forall|l: int| 0 <= l < 303 implies at(v, #[trigger] sig[l]) == lane_of_bytes(
        s.packed,
        l,
    ) by {
        assert(at(v, inputs[l]) == values[l]);
    }
    assert forall|l: int| 0 <= l < 8 implies at(v, #[trigger] mu[l]) == s.mu[l] by {
        assert(at(v, inputs[303 + l]) == values[303 + l]);
    }
    assert forall|k: int, i: int| 0 <= k < 4 && 0 <= i < 256 implies at(
        v,
        #[trigger] w_approx[k][i],
    ) == s.w_approx[k][i] by {
        let m = 256 * k + i;
        assert(m / 256 == k && m % 256 == i);
        assert(at(v, inputs[311 + m]) == values[311 + m]);
    }
    let held = hint_values(v, verifier.hint@);
    assert forall|k: int| 0 <= k < 4 implies held[k] == s.hint[k] by {
        assert(s.hint[k].len() == 256);
        assert forall|i: int| 0 <= i < 256 implies held[k][i] == s.hint[k][i] by {
            let m = 256 * k + i;
            assert(m / 256 == k && m % 256 == i);
            assert(at(v, flat(verifier.hint@)[m]) == values[1335 + m]);
            assert(0 <= s.hint[k][i] < 2);
        }
        assert(held[k] =~= s.hint[k]);
    }
    assert(held =~= s.hint);
    lemma_good_values(s, v, sig, mu, w_approx, verifier.hint@);
    v
}

/// What is accepted has a response in bound: every coefficient of every polynomial that the packed
/// signature on the wires holds is strictly between 78 and 262066, so that a signature with one
/// coefficient out of bound is not accepted by any assignment.
pub proof fn law_accepted_response_is_in_bound(
    before: CircuitBuilder,
    after: CircuitBuilder,
    sig: Seq<Wire>,
    mu: Seq<Wire>,
    w_approx: Seq<[Wire; 256]>,
    verifier: MlDsaVerifier,
    v: Seq<u64>,
    packed: Seq<u8>,
    c_tilde: Seq<u8>,
    z: Seq<[u32; 256]>,
    p: int,
    i: int,
)
    requires
        sig.len() == 303,
        z.len() == 4,
        verifier.verifies(before, after, sig, mu, w_approx),
        after.accepts(v),
        holds_response(packed, c_tilde, z),
        forall|l: int| 0 <= l < 303 ==> at(v, #[trigger] sig[l]) == lane_of_bytes(packed, l),
        0 <= p < 4,
        0 <= i < 256,
    ensures
        78 < z[p][i] < 262_066,
{
    law_response_is_read_back(v, sig, packed, c_tilde, z, p, i);
    assert(response_within_norm(v, sig));
    assert(within_norm(stream_coefficient(v, z_lanes(sig, p), i)));
}

/// What is accepted has the hint of its signature on the hint wires: bits, at most eighty of them
/// set, whose encoding the hint section is byte by byte.
pub proof fn law_accepted_hint_is_encoded(
    before: CircuitBuilder,
    after: CircuitBuilder,
    sig: Seq<Wire>,
    mu: Seq<Wire>,
    w_approx: Seq<[Wire; 256]>,
    verifier: MlDsaVerifier,
    v: Seq<u64>,
    packed: Seq<u8>,
    h: Seq<Seq<int>>,
)
    requires
        sig.len() == 303,
        packed.len() == 2420,
        verifier.verifies(before, after, sig, mu, w_approx),
        after.accepts(v),
        forall|l: int| 0 <= l < 303 ==> at(v, #[trigger] sig[l]) == lane_of_bytes(packed, l),
        is_hint(h),
        forall|j: int| 0 <= j < 84 ==> packed[2336 + j] == #[trigger] hint_byte(h, j),
    ensures
        forall|k: int, p: int|
            0 <= k < 4 && 0 <= p < 256 ==> at(v, #[trigger] verifier.hint@[k][p]) == h[k][p],
{
    let held = hint_values(v, verifier.hint@);
    assert(holds_hint(v, sig, verifier.hint@));
    assert forall|j: int| 0 <= j < 84 implies #[trigger] hint_byte(held, j) == hint_byte(h, j) by {
        let m = 2336 + j;
        assert(stream_byte(v, sig, 2336 + j) == hint_byte(held, j));
        assert(at(v, sig[m / 8]) == lane_of_bytes(packed, m / 8));
        lemma_lane_bytes(packed, m / 8, m % 8);
        assert(8 * (m / 8) + m % 8 == m);
        assert(packed[2336 + j] == hint_byte(h, j));
    }
    law_hint_section_is_unique(held, h);
    assert forall|k: int, p: int| 0 <= k < 4 && 0 <= p < 256 implies at(
        v,
        #[trigger] verifier.hint@[k][p],
    ) == h[k][p] by {
        assert(held[k][p] == at(v, verifier.hint@[k][p]));
    }
}

/// What is accepted has the final hash as its `c~`: all 32 bytes are the first ones that SHAKE256
/// gives for `mu` and the packed `w1` that the hint makes of `wApprox`, provided that `wApprox`
/// holds residues and none of them is a tie.
pub proof fn law_accepted_c_tilde_is_hash(
    before: CircuitBuilder,
    after: CircuitBuilder,
    sig: Seq<Wire>,
    mu: Seq<Wire>,
    w_approx: Seq<[Wire; 256]>,
    verifier: MlDsaVerifier,
    v: Seq<u64>,
    w1: Seq<Seq<u32>>,
    i: int,
)
    requires
        sig.len() == 303,
        mu.len() == 8,
        verifier.verifies(before, after, sig, mu, w_approx),
        after.accepts(v),
        forall|k: int, p: int|
            0 <= k < 4 && 0 <= p < 256 ==> at(v, #[trigger] w_approx[k][p]) < 8_380_417 && !is_tie(
                at(v, w_approx[k][p]) as int,
            ),
        w1.len() == 4,
        forall|k: int| 0 <= k < 4 ==> (#[trigger] w1[k]).len() == 256,
        forall|k: int, p: int|
            0 <= k < 4 && 0 <= p < 256 ==> #[trigger] w1[k][p] == hinted_part(
                at(v, w_approx[k][p]) as int,
                at(v, verifier.hint@[k][p]) as int,
            ),
        0 <= i < 4,
    ensures
        at(v, sig[i]) == shake256_lane(
            Seq::new(
                104,
                |l: int|
                    if l < 8 {
                        at(v, mu[l])
                    } else {
                        lane_of_bytes(w1_bytes(w1[(l - 8) / 24]), (l - 8) % 24)
                    },
            ),
            832,
            i,
        ),
{
    let hint = verifier.hint@;
    let c = verifier.c_tilde@;
    let own = choose|u: Seq<Seq<u32>>| #[trigger]
        is_w1(v, w_approx, hint, u) && is_final_hash(values(v, mu), u, values(v, c));
    assert(r7_holds(v, w_approx, hint, mu, c));
    assert forall|k: int, p: int| 0 <= k < 4 && 0 <= p < 256 implies at(
        v,
        #[trigger] w_approx[k][p],
    ) < Q by {}
    law_w1_is_unique(v, w_approx, hint, own);
    assert forall|k: int| 0 <= k < 4 implies own[k] == w1[k] by {
        assert forall|p: int| 0 <= p < 256 implies own[k][p] == w1[k][p] by {
            assert(at(v, w_approx[k][p]) < Q);
        }
        assert(own[k] =~= w1[k]);
    }
    assert(own =~= w1);
    let lanes = Seq::new(
        104,
        |l: int|
            if l < 8 {
                at(v, mu[l])
            } else {
                lane_of_bytes(w1_bytes(w1[(l - 8) / 24]), (l - 8) % 24)
            },
    );
    assert(hash_input(values(v, mu), w1) =~= lanes);
    assert(values(v, c)[i] == r7_lane(values(v, mu), own, i));
}

/// A changed `c~` is refused: two accepted assignments with the same `mu`, `wApprox` and hint have
/// the same `c~`, provided that `wApprox` holds residues and none of them is a tie.
pub proof fn law_c_tilde_is_determined(
    before: CircuitBuilder,
    after: CircuitBuilder,
    sig: Seq<Wire>,
    mu: Seq<Wire>,
    w_approx: Seq<[Wire; 256]>,
    verifier: MlDsaVerifier,
    u: Seq<u64>,
    v: Seq<u64>,
)
    requires
        sig.len() == 303,
        verifier.verifies(before, after, sig, mu, w_approx),
        after.accepts(u),
        after.accepts(v),
        values(u, mu) == values(v, mu),
        forall|k: int, i: int|
            0 <= k < 4 && 0 <= i < 256 ==> at(u, #[trigger] w_approx[k][i]) == at(v, w_approx[k][i]),
        hint_values(u, verifier.hint@) == hint_values(v, verifier.hint@),
        are_residues(u, w_approx),
        forall|k: int, i: int|
            0 <= k < 4 && 0 <= i < 256 ==> !is_tie(at(u, #[trigger] w_approx[k][i]) as int),
    ensures
        values(u, sig.subrange(0, 4)) == values(v, sig.subrange(0, 4)),
{
    let hint = verifier.hint@;
    let c = verifier.c_tilde@;
    assert(r7_holds(u, w_approx, hint, mu, c) && r7_holds(v, w_approx, hint, mu, c));
    let a = choose|w1: Seq<Seq<u32>>| #[trigger]
        is_w1(u, w_approx, hint, w1) && is_final_hash(values(u, mu), w1, values(u, c));
    let b = choose|w1: Seq<Seq<u32>>| #[trigger]
        is_w1(v, w_approx, hint, w1) && is_final_hash(values(v, mu), w1, values(v, c));
    assert forall|k: int, i: int| 0 <= k < 4 && 0 <= i < 256 implies at(
        v,
        #[trigger] w_approx[k][i],
    ) < Q && !is_tie(at(v, w_approx[k][i]) as int) by {
        assert(at(u, w_approx[k][i]) == at(v, w_approx[k][i]));
    }
    law_w1_is_unique(u, w_approx, hint, a);
    law_w1_is_unique(v, w_approx, hint, b);
    let (x, y) = (canonical_w1(u, w_approx, hint), canonical_w1(v, w_approx, hint));
    assert forall|k: int| 0 <= k < 4 implies x[k] == y[k] by {
        assert forall|i: int| 0 <= i < 256 implies x[k][i] == y[k][i] by {
            assert(at(u, w_approx[k][i]) == at(v, w_approx[k][i]));
            assert(hint_values(u, hint)[k][i] == hint_values(v, hint)[k][i]);
        }
        assert(x[k] =~= y[k]);
    }
    assert(x =~= y);
    let (p, q) = (values(u, c), values(v, c));
    assert forall|i: int| 0 <= i < 4 implies p[i] == q[i] by {
        assert(p[i] == r7_lane(values(u, mu), a, i));
        assert(q[i] == r7_lane(values(v, mu), b, i));
    }
    assert(p =~= q);
}

} // verus!
