//! SHAKE256 over the Keccak permutation.
//!
//! A message is given in little-endian 64-bit lanes, together with its length in bytes. The bytes of
//! the last lane that are not part of the message have to be zero.

use vstd::prelude::*;

use super::circuit::{at, CircuitBuilder, Wire};
use crate::keccak_check::trace::{
    chi, chi_iota, column, keccak_f, keccak_rounds, pi_source, rho_pi, theta, theta_effect, R, RC,
};

verus! {

/// SHAKE256 rate in 64-bit lanes.
pub const SHAKE256_RATE_LANES: usize = 17;

/// SHAKE256 rate in bytes.
pub const SHAKE256_RATE_BYTES: usize = 136;

/// SHAKE256 domain-separation byte.
pub const SHAKE256_DSEP: u8 = 0x1f;

/// The values of wires.
pub open spec fn values(v: Seq<u64>, wires: Seq<Wire>) -> Seq<u64> {
    Seq::new(wires.len(), |i: int| at(v, wires[i]))
}

/// The domain-separation byte at its place within a lane.
pub open spec fn dsep_lane(len: int) -> u64 {
    0x1fu64 << ((8 * (len % 8)) as u64)
}

/// The last bit of the padding at its place within a lane.
pub open spec fn final_lane() -> u64 {
    0x8000_0000_0000_0000
}

/// The number of blocks of a message with its padding.
pub open spec fn block_count(len: int) -> int {
    len / 136 + 1
}

/// Lane `l` of a message with its padding: the domain-separation byte follows the message, and the
/// last bit of the last block is set.
pub open spec fn padded_lane(input: Seq<u64>, len: int, l: int) -> u64 {
    let base = if l < input.len() {
        input[l]
    } else {
        0
    };
    let separated = if l == len / 8 {
        base ^ dsep_lane(len)
    } else {
        base
    };
    if l == 17 * block_count(len) - 1 {
        separated ^ final_lane()
    } else {
        separated
    }
}

/// A state with block `k` of a message added to its first 17 lanes.
pub open spec fn with_block(s: Seq<u64>, input: Seq<u64>, len: int, k: int) -> Seq<u64> {
    Seq::new(
        25,
        |i: int|
            if i < 17 {
                s[i] ^ padded_lane(input, len, 17 * k + i)
            } else {
                s[i]
            },
    )
}

/// The state after `k` blocks of a message.
pub open spec fn absorbed(input: Seq<u64>, len: int, k: nat) -> Seq<u64>
    decreases k,
{
    if k == 0 {
        Seq::new(25, |i: int| 0u64)
    } else {
        keccak_f(with_block(absorbed(input, len, (k - 1) as nat), input, len, k - 1))
    }
}

/// A state after `n` more permutations.
pub open spec fn permuted(s: Seq<u64>, n: nat) -> Seq<u64>
    decreases n,
{
    if n == 0 {
        s
    } else {
        keccak_f(permuted(s, (n - 1) as nat))
    }
}

/// Lane `i` of the output of a sponge.
pub open spec fn squeezed(s: Seq<u64>, i: int) -> u64 {
    permuted(s, (i / 17) as nat)[i % 17]
}

/// Lane `i` of the SHAKE256 output for a message.
pub open spec fn shake256_lane(input: Seq<u64>, len: int, i: int) -> u64 {
    squeezed(absorbed(input, len, block_count(len) as nat), i)
}

proof fn lemma_permuted_first(s: Seq<u64>, n: nat)
    ensures
        permuted(s, n + 1) == permuted(keccak_f(s), n),
    decreases n,
{
    if n > 0 {
        lemma_permuted_first(s, (n - 1) as nat);
    } else {
        assert(permuted(s, 0) == s);
    }
}

/// The output of a sponge starts with the first 17 lanes of its state and goes on with the output of
/// the permuted state.
pub proof fn law_output_goes_on_after_permutation(s: Seq<u64>, i: int)
    requires
        0 <= i,
    ensures
        i < 17 ==> squeezed(s, i) == s[i],
        squeezed(s, i + 17) == squeezed(keccak_f(s), i),
{
    lemma_permuted_first(s, (i / 17) as nat);
    assert((i + 17) / 17 == i / 17 + 1 && (i + 17) % 17 == i % 17);
}

/// The lanes of a padded message are those of the message, up to the lane with its end. There the
/// byte `0x1f` follows the message, behind it there are zeros, and the highest bit of the last lane
/// of the last block is set.
pub proof fn law_padding_follows_message(input: Seq<u64>, len: int, l: int)
    requires
        0 <= l,
        0 <= len <= 8 * input.len() < len + 8,
    ensures
        block_count(len) * 136 - 136 <= len < block_count(len) * 136,
        l < len / 8 ==> padded_lane(input, len, l) == input[l],
        len / 8 < l && l != 17 * block_count(len) - 1 ==> padded_lane(input, len, l) == 0,
        l == len / 8 && l != 17 * block_count(len) - 1 ==> padded_lane(input, len, l) == (if len % 8
            == 0 {
            0
        } else {
            input[l]
        }) ^ (0x1fu64 << ((8 * (len % 8)) as u64)),
        l == 17 * block_count(len) - 1 && len / 8 < l ==> padded_lane(input, len, l) == 0u64
            ^ 0x8000_0000_0000_0000u64,
        l == 17 * block_count(len) - 1 && len / 8 == l ==> padded_lane(input, len, l) == (if len
            % 8 == 0 {
            0
        } else {
            input[l]
        }) ^ (0x1fu64 << ((8 * (len % 8)) as u64)) ^ 0x8000_0000_0000_0000u64,
{
    assert(len / 8 <= 17 * block_count(len) - 1);
}

/// A block is absorbed by adding its lanes to the first 17 lanes of the state, which starts with
/// zeros, and permuting it.
pub proof fn law_block_is_absorbed(input: Seq<u64>, len: int, k: nat, t: Seq<u64>)
    requires
        t.len() == 25,
        forall|i: int|
            0 <= i < 25 ==> #[trigger] t[i] == if i < 17 {
                absorbed(input, len, k)[i] ^ padded_lane(input, len, 17 * k + i)
            } else {
                absorbed(input, len, k)[i]
            },
    ensures
        absorbed(input, len, k + 1) == keccak_f(t),
        forall|i: int| 0 <= i < 25 ==> absorbed(input, len, 0)[i] == 0,
{
    assert(t =~= with_block(absorbed(input, len, k), input, len, k as int));
}

/// Adds wires for the exclusive or of the lanes of a column.
fn column_gadget(b: &mut CircuitBuilder, s: &[Wire; 25], x: usize) -> (r: Wire)
    requires
        old(b).is_valid(),
        old(b).has_all(s@),
        x < 5,
    ensures
        final(b).is_valid(),
        final(b).grows_from(old(b)),
        final(b).has(r),
        forall|v: Seq<u64>| #[trigger] final(b).honest(v) == old(b).honest(v),
        forall|v: Seq<u64>| #[trigger] final(b).passes(v) == old(b).passes(v),
        forall|v: Seq<u64>| #[trigger]
            final(b).follows(v) ==> at(v, r) == column(values(v, s@), x as int),
{
    assert(b.has(s@[x as int]) && b.has(s@[x + 5]) && b.has(s@[x + 10]) && b.has(s@[x + 15])
        && b.has(s@[x + 20]));
    let t1 = b.bxor(s[x], s[x + 5]);
    let t2 = b.bxor(t1, s[x + 10]);
    let t3 = b.bxor(t2, s[x + 15]);
    b.bxor(t3, s[x + 20])
}

/// Wires stay when a circuit grows.
proof fn lemma_stay(before: &CircuitBuilder, after: &CircuitBuilder, wires: Seq<Wire>)
    requires
        before.has_all(wires),
        after.size() >= before.size(),
    ensures
        after.has_all(wires),
{
    assert forall|k: int| 0 <= k < wires.len() implies after.has(#[trigger] wires[k]) by {
        assert(before.has(wires[k]));
    }
}

/// Adds wires for what theta adds to a column.
fn theta_effect_gadget(b: &mut CircuitBuilder, s: &[Wire; 25], x: usize) -> (r: Wire)
    requires
        old(b).is_valid(),
        old(b).has_all(s@),
        x < 5,
    ensures
        final(b).is_valid(),
        final(b).grows_from(old(b)),
        final(b).has(r),
        forall|v: Seq<u64>| #[trigger] final(b).honest(v) == old(b).honest(v),
        forall|v: Seq<u64>| #[trigger] final(b).passes(v) == old(b).passes(v),
        forall|v: Seq<u64>| #[trigger]
            final(b).follows(v) ==> at(v, r) == theta_effect(values(v, s@), x as int),
{
    let ghost start = *b;
    let left = column_gadget(b, s, (x + 4) % 5);
    proof {
        lemma_stay(&start, b, s@);
    }
    let right = column_gadget(b, s, (x + 1) % 5);
    let turned = b.rotl(right, 1);
    b.bxor(left, turned)
}

/// Adds wires for the theta step.
fn theta_gadget(b: &mut CircuitBuilder, s: &[Wire; 25]) -> (r: [Wire; 25])
    requires
        old(b).is_valid(),
        old(b).has_all(s@),
    ensures
        final(b).is_valid(),
        final(b).grows_from(old(b)),
        final(b).has_all(r@),
        forall|v: Seq<u64>| #[trigger] final(b).honest(v) == old(b).honest(v),
        forall|v: Seq<u64>| #[trigger] final(b).passes(v) == old(b).passes(v),
        forall|v: Seq<u64>| #[trigger]
            final(b).follows(v) ==> values(v, r@) == theta(values(v, s@)),
{
    let ghost start = *b;
    let d0 = theta_effect_gadget(b, s, 0);
    proof {
        lemma_stay(&start, b, s@);
    }
    let d1 = theta_effect_gadget(b, s, 1);
    proof {
        lemma_stay(&start, b, s@);
    }
    let d2 = theta_effect_gadget(b, s, 2);
    proof {
        lemma_stay(&start, b, s@);
    }
    let d3 = theta_effect_gadget(b, s, 3);
    proof {
        lemma_stay(&start, b, s@);
    }
    let d4 = theta_effect_gadget(b, s, 4);
    let d: [Wire; 5] = [d0, d1, d2, d3, d4];
    let ghost middle = *b;
    assert(forall|x: int| 0 <= x < 5 ==> middle.has(#[trigger] d@[x]));
    assert forall|v: Seq<u64>| #[trigger] middle.follows(v) implies forall|x: int|
        0 <= x < 5 ==> at(v, #[trigger] d@[x]) == theta_effect(values(v, s@), x) by {}
    let mut out: [Wire; 25] = *s;
    let mut lane: usize = 0;
    while lane < 25
        invariant
            lane <= 25,
            b.is_valid(),
            b.grows_from(&start),
            b.grows_from(&middle),
            start.has_all(s@),
            forall|x: int| 0 <= x < 5 ==> middle.has(#[trigger] d@[x]),
            forall|k: int| 0 <= k < lane ==> b.has(#[trigger] out@[k]),
            forall|v: Seq<u64>| #[trigger] b.honest(v) == start.honest(v),
            forall|v: Seq<u64>| #[trigger] b.passes(v) == start.passes(v),
            forall|v: Seq<u64>| #[trigger]
                middle.follows(v) ==> forall|x: int|
                    0 <= x < 5 ==> at(v, #[trigger] d@[x]) == theta_effect(values(v, s@), x),
            forall|v: Seq<u64>| #[trigger]
                b.follows(v) ==> forall|k: int|
                    0 <= k < lane ==> at(v, #[trigger] out@[k]) == theta(values(v, s@))[k],
        decreases 25 - lane,
    {
        let ghost before = *b;
        let ghost wires = out@;
        assert(start.has(s@[lane as int]));
        assert(middle.has(d@[lane as int % 5]));
        let next = b.bxor(s[lane], d[lane % 5]);
        out[lane] = next;
        proof {
            assert forall|k: int| 0 <= k < lane + 1 implies b.has(#[trigger] out@[k]) by {
                if k < lane {
                    assert(before.has(wires[k]));
                }
            }
            assert forall|v: Seq<u64>| #[trigger] b.follows(v) implies forall|k: int|
                0 <= k < lane + 1 ==> at(v, #[trigger] out@[k]) == theta(values(v, s@))[k] by {
                assert(before.follows(v));
                assert(middle.follows(v));
                assert forall|k: int| 0 <= k < lane + 1 implies at(v, #[trigger] out@[k]) == theta(
                    values(v, s@),
                )[k] by {
                    if k < lane {
                        assert(out@[k] == wires[k]);
                    } else {
                        assert(at(v, d@[k % 5]) == theta_effect(values(v, s@), k % 5));
                    }
                }
            }
        }
        lane = lane + 1;
    }
    proof {
        assert forall|v: Seq<u64>| #[trigger] b.follows(v) implies values(v, out@) == theta(
            values(v, s@),
        ) by {
            assert(values(v, out@) =~= theta(values(v, s@)));
        }
    }
    out
}

/// Adds wires for the rho and pi steps.
fn rho_pi_gadget(b: &mut CircuitBuilder, s: &[Wire; 25]) -> (r: [Wire; 25])
    requires
        old(b).is_valid(),
        old(b).has_all(s@),
    ensures
        final(b).is_valid(),
        final(b).grows_from(old(b)),
        final(b).has_all(r@),
        forall|v: Seq<u64>| #[trigger] final(b).honest(v) == old(b).honest(v),
        forall|v: Seq<u64>| #[trigger] final(b).passes(v) == old(b).passes(v),
        forall|v: Seq<u64>| #[trigger]
            final(b).follows(v) ==> values(v, r@) == rho_pi(values(v, s@)),
{
    let ghost start = *b;
    let mut out: [Wire; 25] = *s;
    let mut lane: usize = 0;
    while lane < 25
        invariant
            lane <= 25,
            b.is_valid(),
            b.grows_from(&start),
            start.has_all(s@),
            forall|k: int| 0 <= k < lane ==> b.has(#[trigger] out@[k]),
            forall|v: Seq<u64>| #[trigger] b.honest(v) == start.honest(v),
            forall|v: Seq<u64>| #[trigger] b.passes(v) == start.passes(v),
            forall|v: Seq<u64>| #[trigger]
                b.follows(v) ==> forall|k: int|
                    0 <= k < lane ==> at(v, #[trigger] out@[k]) == rho_pi(values(v, s@))[k],
        decreases 25 - lane,
    {
        let ghost before = *b;
        let ghost wires = out@;
        let from: usize = (lane % 5 + 3 * (lane / 5)) % 5 + 5 * (lane % 5);
        assert(from == pi_source(lane as int));
        assert(start.has(s@[from as int]));
        let turned = b.rotl(s[from], R[from] % 64);
        out[lane] = turned;
        proof {
            assert forall|k: int| 0 <= k < lane + 1 implies b.has(#[trigger] out@[k]) by {
                if k < lane {
                    assert(before.has(wires[k]));
                }
            }
            assert forall|v: Seq<u64>| #[trigger] b.follows(v) implies forall|k: int|
                0 <= k < lane + 1 ==> at(v, #[trigger] out@[k]) == rho_pi(values(v, s@))[k] by {
                assert(before.follows(v));
                assert forall|k: int| 0 <= k < lane + 1 implies at(v, #[trigger] out@[k]) == rho_pi(
                    values(v, s@),
                )[k] by {
                    if k < lane {
                        assert(out@[k] == wires[k]);
                    }
                }
            }
        }
        lane = lane + 1;
    }
    proof {
        assert forall|v: Seq<u64>| #[trigger] b.follows(v) implies values(v, out@) == rho_pi(
            values(v, s@),
        ) by {
            assert(values(v, out@) =~= rho_pi(values(v, s@)));
        }
    }
    out
}

/// Adds wires for the chi and iota steps of a round.
fn chi_iota_gadget(b: &mut CircuitBuilder, s: &[Wire; 25], round: usize) -> (r: [Wire; 25])
    requires
        old(b).is_valid(),
        old(b).has_all(s@),
        round < 24,
    ensures
        final(b).is_valid(),
        final(b).grows_from(old(b)),
        final(b).has_all(r@),
        forall|v: Seq<u64>| #[trigger] final(b).honest(v) == old(b).honest(v),
        forall|v: Seq<u64>| #[trigger] final(b).passes(v) == old(b).passes(v),
        forall|v: Seq<u64>| #[trigger]
            final(b).follows(v) ==> values(v, r@) == chi_iota(values(v, s@), round as int),
{
    let ghost start = *b;
    let mut out: [Wire; 25] = *s;
    let mut lane: usize = 0;
    while lane < 25
        invariant
            lane <= 25,
            b.is_valid(),
            b.grows_from(&start),
            start.has_all(s@),
            forall|k: int| 0 <= k < lane ==> b.has(#[trigger] out@[k]),
            forall|v: Seq<u64>| #[trigger] b.honest(v) == start.honest(v),
            forall|v: Seq<u64>| #[trigger] b.passes(v) == start.passes(v),
            forall|v: Seq<u64>| #[trigger]
                b.follows(v) ==> forall|k: int|
                    0 <= k < lane ==> at(v, #[trigger] out@[k]) == chi(values(v, s@))[k],
        decreases 25 - lane,
    {
        let ghost before = *b;
        let ghost wires = out@;
        let b_lane: usize = (lane % 5 + 1) % 5 + 5 * (lane / 5);
        let c_lane: usize = (lane % 5 + 2) % 5 + 5 * (lane / 5);
        assert(start.has(s@[lane as int]) && start.has(s@[b_lane as int]) && start.has(
            s@[c_lane as int],
        ));
        let not_b = b.bnot(s[b_lane]);
        let masked = b.band(not_b, s[c_lane]);
        let next = b.bxor(s[lane], masked);
        out[lane] = next;
        proof {
            assert forall|k: int| 0 <= k < lane + 1 implies b.has(#[trigger] out@[k]) by {
                if k < lane {
                    assert(before.has(wires[k]));
                }
            }
            assert forall|v: Seq<u64>| #[trigger] b.follows(v) implies forall|k: int|
                0 <= k < lane + 1 ==> at(v, #[trigger] out@[k]) == chi(values(v, s@))[k] by {
                assert(before.follows(v));
                assert forall|k: int| 0 <= k < lane + 1 implies at(v, #[trigger] out@[k]) == chi(
                    values(v, s@),
                )[k] by {
                    if k < lane {
                        assert(out@[k] == wires[k]);
                    }
                }
            }
        }
        lane = lane + 1;
    }
    let ghost middle = *b;
    let ghost wires = out@;
    let constant = b.add_constant_64(RC[round]);
    assert(middle.has(wires[0]));
    let first = b.bxor(out[0], constant);
    out[0] = first;
    proof {
        assert forall|k: int| 0 <= k < 25 implies b.has(#[trigger] out@[k]) by {
            assert(middle.has(wires[k]));
        }
        assert forall|v: Seq<u64>| #[trigger] b.follows(v) implies values(v, out@) == chi_iota(
            values(v, s@),
            round as int,
        ) by {
            assert(middle.follows(v));
            assert forall|k: int| 1 <= k < 25 implies at(v, #[trigger] out@[k]) == chi(
                values(v, s@),
            )[k] by {
                assert(at(v, wires[k]) == chi(values(v, s@))[k]);
            }
            assert(at(v, wires[0]) == chi(values(v, s@))[0]);
            assert(values(v, out@) =~= chi_iota(values(v, s@), round as int));
        }
    }
    out
}

/// Adds wires for the Keccak permutation.
pub fn keccak_gadget(b: &mut CircuitBuilder, s: &[Wire; 25]) -> (r: [Wire; 25])
    requires
        old(b).is_valid(),
        old(b).has_all(s@),
    ensures
        final(b).is_valid(),
        final(b).grows_from(old(b)),
        final(b).has_all(r@),
        forall|v: Seq<u64>| #[trigger] final(b).honest(v) == old(b).honest(v),
        forall|v: Seq<u64>| #[trigger] final(b).passes(v) == old(b).passes(v),
        forall|v: Seq<u64>| #[trigger]
            final(b).follows(v) ==> values(v, r@) == keccak_f(values(v, s@)),
{
    let ghost start = *b;
    let mut state: [Wire; 25] = *s;
    let mut round: usize = 0;
    while round < 24
        invariant
            round <= 24,
            b.is_valid(),
            b.grows_from(&start),
            b.has_all(state@),
            forall|v: Seq<u64>| #[trigger] b.honest(v) == start.honest(v),
            forall|v: Seq<u64>| #[trigger] b.passes(v) == start.passes(v),
            forall|v: Seq<u64>| #[trigger]
                b.follows(v) ==> values(v, state@) == keccak_rounds(
                    values(v, s@),
                    round as nat,
                ),
        decreases 24 - round,
    {
        let after_theta = theta_gadget(b, &state);
        let after_pi = rho_pi_gadget(b, &after_theta);
        state = chi_iota_gadget(b, &after_pi, round);
        round = round + 1;
    }
    state
}

/// Adds a wire for a lane of the message with its padding.
fn padded_lane_gadget(
    b: &mut CircuitBuilder,
    input: &[Wire],
    len_bytes: usize,
    lane: usize,
    zero: Wire,
    last_lane: usize,
) -> (r: Wire)
    requires
        old(b).is_valid(),
        old(b).has_all(input@),
        old(b).has(zero),
        last_lane == 17 * block_count(len_bytes as int) - 1,
    ensures
        final(b).is_valid(),
        final(b).grows_from(old(b)),
        final(b).has(r),
        forall|v: Seq<u64>| #[trigger] final(b).honest(v) == old(b).honest(v),
        forall|v: Seq<u64>| #[trigger] final(b).passes(v) == old(b).passes(v),
        forall|v: Seq<u64>| #[trigger]
            final(b).follows(v) && at(v, zero) == 0 ==> at(v, r) == padded_lane(
                values(v, input@),
                len_bytes as int,
                lane as int,
            ),
{
    let mut acc = zero;
    if lane < input.len() {
        assert(b.has(input@[lane as int]));
        acc = input[lane];
    }
    if lane == len_bytes / 8 {
        let shift: u64 = 8 * ((len_bytes % 8) as u64);
        let separator = b.add_constant_64(0x1fu64 << shift);
        let joined = b.bxor(acc, separator);
        acc = joined;
    }
    if lane == last_lane {
        let last = b.add_constant_64(0x8000_0000_0000_0000);
        let joined = b.bxor(acc, last);
        acc = joined;
    }
    acc
}

/// Adds wires for a state with a block of the message added.
fn add_block(
    b: &mut CircuitBuilder,
    state: &[Wire; 25],
    input: &[Wire],
    len_bytes: usize,
    block: usize,
    zero: Wire,
    last_lane: usize,
) -> (r: [Wire; 25])
    requires
        old(b).is_valid(),
        old(b).has_all(state@),
        old(b).has_all(input@),
        old(b).has(zero),
        last_lane == 17 * block_count(len_bytes as int) - 1,
        17 * block + 17 <= last_lane + 1,
    ensures
        final(b).is_valid(),
        final(b).grows_from(old(b)),
        final(b).has_all(r@),
        forall|v: Seq<u64>| #[trigger] final(b).honest(v) == old(b).honest(v),
        forall|v: Seq<u64>| #[trigger] final(b).passes(v) == old(b).passes(v),
        forall|v: Seq<u64>| #[trigger]
            final(b).follows(v) && at(v, zero) == 0 ==> values(v, r@) == with_block(
                values(v, state@),
                values(v, input@),
                len_bytes as int,
                block as int,
            ),
{
    let ghost start = *b;
    let mut out: [Wire; 25] = *state;
    let mut lane: usize = 0;
    while lane < 17
        invariant
            lane <= 17,
            b.is_valid(),
            b.grows_from(&start),
            start.has_all(state@),
            start.has_all(input@),
            start.has(zero),
            last_lane == 17 * block_count(len_bytes as int) - 1,
            17 * block + 17 <= last_lane + 1,
            forall|k: int| 0 <= k < 25 ==> b.has(#[trigger] out@[k]),
            forall|k: int| lane <= k < 25 ==> out@[k] == state@[k],
            forall|v: Seq<u64>| #[trigger] b.honest(v) == start.honest(v),
            forall|v: Seq<u64>| #[trigger] b.passes(v) == start.passes(v),
            forall|v: Seq<u64>| #[trigger]
                b.follows(v) && at(v, zero) == 0 ==> forall|k: int|
                    0 <= k < lane ==> at(v, #[trigger] out@[k]) == at(v, state@[k]) ^ padded_lane(
                        values(v, input@),
                        len_bytes as int,
                        17 * block + k,
                    ),
        decreases 17 - lane,
    {
        let ghost before = *b;
        let ghost wires = out@;
        proof {
            lemma_stay(&start, b, input@);
        }
        let padded = padded_lane_gadget(b, input, len_bytes, 17 * block + lane, zero, last_lane);
        assert(start.has(state@[lane as int]));
        let next = b.bxor(state[lane], padded);
        out[lane] = next;
        proof {
            assert forall|k: int| 0 <= k < 25 implies b.has(#[trigger] out@[k]) by {
                assert(before.has(wires[k]));
            }
            assert forall|v: Seq<u64>| #[trigger]
                b.follows(v) && at(v, zero) == 0 implies forall|k: int|
                0 <= k < lane + 1 ==> at(v, #[trigger] out@[k]) == at(v, state@[k]) ^ padded_lane(
                    values(v, input@),
                    len_bytes as int,
                    17 * block + k,
                ) by {
                assert(before.follows(v));
                assert forall|k: int| 0 <= k < lane + 1 implies at(v, #[trigger] out@[k]) == at(
                    v,
                    state@[k],
                ) ^ padded_lane(values(v, input@), len_bytes as int, 17 * block + k) by {
                    if k < lane {
                        assert(out@[k] == wires[k]);
                    }
                }
            }
        }
        lane = lane + 1;
    }
    proof {
        assert forall|v: Seq<u64>| #[trigger] b.follows(v) && at(v, zero) == 0 implies values(
            v,
            out@,
        ) == with_block(
            values(v, state@),
            values(v, input@),
            len_bytes as int,
            block as int,
        ) by {
            assert(values(v, out@) =~= with_block(
                values(v, state@),
                values(v, input@),
                len_bytes as int,
                block as int,
            ));
        }
    }
    out
}

/// A sponge that has absorbed a message and gives out lanes one after the other.
pub struct Shake256Sponge {
    /// The state of the permutation.
    pub state: [Wire; 25],
    /// The number of lanes of this state that have been given out.
    pub cursor: usize,
}

/// The number of permutations behind a sponge that has given out `taken` lanes.
pub open spec fn permutations_behind(taken: nat) -> nat {
    if taken == 0 {
        0
    } else {
        ((taken - 1) / 17) as nat
    }
}

impl Shake256Sponge {
    /// Whether the wires of the state are there and the cursor is within it.
    pub open spec fn is_in(&self, b: &CircuitBuilder) -> bool {
        &&& b.has_all(self.state@)
        &&& self.cursor <= 17
    }

    /// Whether the sponge stands behind the first `taken` lanes that follow state `s`.
    pub open spec fn stands(&self, v: Seq<u64>, s: Seq<u64>, taken: nat) -> bool {
        &&& values(v, self.state@) == permuted(s, permutations_behind(taken))
        &&& self.cursor == taken - 17 * permutations_behind(taken)
    }

    /// Absorbs a message.
    pub fn absorb(b: &mut CircuitBuilder, input: &[Wire], len_bytes: usize) -> (r: Self)
        requires
            old(b).is_valid(),
            old(b).has_all(input@),
            len_bytes <= 8 * input@.len(),
            len_bytes + 136 <= usize::MAX,
        ensures
            final(b).is_valid(),
            final(b).grows_from(old(b)),
            r.is_in(final(b)),
            forall|v: Seq<u64>| #[trigger] final(b).honest(v) == old(b).honest(v),
            forall|v: Seq<u64>| #[trigger] final(b).passes(v) == old(b).passes(v),
            forall|v: Seq<u64>| #[trigger]
                final(b).follows(v) ==> r.stands(
                    v,
                    absorbed(
                        values(v, input@),
                        len_bytes as int,
                        block_count(len_bytes as int) as nat,
                    ),
                    0,
                ),
    {
        let ghost start = *b;
        let blocks: usize = len_bytes / 136 + 1;
        let last_lane: usize = 17 * blocks - 1;
        let zero = b.add_constant_64(0);
        let mut state: [Wire; 25] = [zero;25];
        proof {
            assert forall|v: Seq<u64>| #[trigger] b.follows(v) implies values(v, state@)
                == absorbed(values(v, input@), len_bytes as int, 0) by {
                assert(values(v, state@) =~= Seq::new(25, |i: int| 0u64));
            }
        }
        let mut k: usize = 0;
        while k < blocks
            invariant
                k <= blocks,
                b.is_valid(),
                b.grows_from(&start),
                start.has_all(input@),
                b.has(zero),
                b.has_all(state@),
                blocks == block_count(len_bytes as int),
                last_lane == 17 * blocks - 1,
                forall|v: Seq<u64>| #[trigger] b.honest(v) == start.honest(v),
                forall|v: Seq<u64>| #[trigger] b.passes(v) == start.passes(v),
                forall|v: Seq<u64>| #[trigger]
                    b.follows(v) ==> at(v, zero) == 0 && values(v, state@) == absorbed(
                        values(v, input@),
                        len_bytes as int,
                        k as nat,
                    ),
            decreases blocks - k,
        {
            proof {
                lemma_stay(&start, b, input@);
            }
            let joined = add_block(b, &state, input, len_bytes, k, zero, last_lane);
            state = keccak_gadget(b, &joined);
            k = k + 1;
        }
        Shake256Sponge { state, cursor: 0 }
    }

    /// Gives out the next `n` lanes.
    pub fn squeeze(&mut self, b: &mut CircuitBuilder, n: usize) -> (r: Vec<Wire>)
        requires
            old(b).is_valid(),
            old(self).is_in(old(b)),
        ensures
            final(b).is_valid(),
            final(b).grows_from(old(b)),
            final(self).is_in(final(b)),
            final(b).has_all(r@),
            r@.len() == n,
            forall|v: Seq<u64>| #[trigger] final(b).honest(v) == old(b).honest(v),
            forall|v: Seq<u64>| #[trigger] final(b).passes(v) == old(b).passes(v),
            forall|v: Seq<u64>, s: Seq<u64>, taken: nat|
                final(b).follows(v) && #[trigger] old(self).stands(v, s, taken) ==> (
                final(self).stands(v, s, taken + n as nat) && forall|i: int|
                    0 <= i < n ==> at(v, #[trigger] r@[i]) == squeezed(s, taken + i)),
    {
        let ghost start = *b;
        let ghost begin = *self;
        let mut out: Vec<Wire> = Vec::with_capacity(n);
        let mut i: usize = 0;
        while i < n
            invariant
                i <= n,
                b.is_valid(),
                b.grows_from(&start),
                self.is_in(b),
                b.has_all(out@),
                out@.len() == i,
                forall|v: Seq<u64>| #[trigger] b.honest(v) == start.honest(v),
                forall|v: Seq<u64>| #[trigger] b.passes(v) == start.passes(v),
                forall|v: Seq<u64>, s: Seq<u64>, taken: nat|
                    b.follows(v) && #[trigger] begin.stands(v, s, taken) ==> self.stands(
                        v,
                        s,
                        taken + i as nat,
                    ) && forall|k: int|
                        0 <= k < i ==> at(v, #[trigger] out@[k]) == squeezed(s, taken + k),
            decreases n - i,
        {
            let ghost before = *b;
            let ghost before_self = *self;
            let ghost before_out = out@;
            if self.cursor == 17 {
                let next = keccak_gadget(b, &self.state);
                self.state = next;
                self.cursor = 0;
            }
            let wire = self.state[self.cursor];
            assert(b.has(self.state@[self.cursor as int]));
            out.push(wire);
            self.cursor = self.cursor + 1;
            proof {
                assert forall|k: int| 0 <= k < out@.len() implies b.has(#[trigger] out@[k]) by {
                    if k < i {
                        assert(before.has(before_out[k]));
                    }
                }
                assert forall|v: Seq<u64>, s: Seq<u64>, taken: nat|
                    b.follows(v) && #[trigger] begin.stands(v, s, taken) implies self.stands(
                    v,
                    s,
                    taken + (i + 1) as nat,
                ) && forall|k: int|
                    0 <= k < i + 1 ==> at(v, #[trigger] out@[k]) == squeezed(s, taken + k) by {
                    assert(before.follows(v));
                    assert(before_self.stands(v, s, taken + i as nat));
                    lemma_squeeze_step(v, before_self, *self, s, taken + i as nat);
                    assert forall|k: int| 0 <= k < i + 1 implies at(v, #[trigger] out@[k])
                        == squeezed(s, taken + k) by {
                        if k < i {
                            assert(out@[k] == before_out[k]);
                        }
                    }
                }
            }
            i = i + 1;
        }
        out
    }
}

/// Giving out one lane.
proof fn lemma_squeeze_step(
    v: Seq<u64>,
    before: Shake256Sponge,
    after: Shake256Sponge,
    s: Seq<u64>,
    taken: nat,
)
    requires
        before.stands(v, s, taken),
        before.cursor <= 17,
        before.cursor == 17 ==> values(v, after.state@) == keccak_f(values(v, before.state@))
            && after.cursor == 1,
        before.cursor < 17 ==> after.state@ == before.state@ && after.cursor == before.cursor + 1,
    ensures
        after.stands(v, s, taken + 1),
        at(v, after.state@[after.cursor - 1]) == squeezed(s, taken as int),
{
    let n = permutations_behind(taken);
    let m = permutations_behind(taken + 1);
    assert(m == (taken as int) / 17);
    if before.cursor == 17 {
        assert(taken == 17 * n + 17);
        assert(m == n + 1);
        assert(permuted(s, m) == keccak_f(permuted(s, n)));
    } else {
        assert(m == n);
    }
    assert(taken as int % 17 == after.cursor - 1);
    assert(values(v, after.state@)[after.cursor - 1] == at(v, after.state@[after.cursor - 1]));
}

/// Compute SHAKE256 of a message and squeeze `out_lanes` lanes.
pub fn shake256(b: &mut CircuitBuilder, input: &[Wire], len_bytes: usize, out_lanes: usize) -> (r:
    Vec<Wire>)
    requires
        old(b).is_valid(),
        old(b).has_all(input@),
        len_bytes <= 8 * input@.len(),
        len_bytes + 136 <= usize::MAX,
    ensures
        final(b).is_valid(),
        final(b).grows_from(old(b)),
        final(b).has_all(r@),
        r@.len() == out_lanes,
        forall|v: Seq<u64>| #[trigger] final(b).honest(v) == old(b).honest(v),
        forall|v: Seq<u64>| #[trigger] final(b).passes(v) == old(b).passes(v),
        forall|v: Seq<u64>| #[trigger]
            final(b).follows(v) ==> forall|i: int|
                0 <= i < out_lanes ==> at(v, #[trigger] r@[i]) == shake256_lane(
                    values(v, input@),
                    len_bytes as int,
                    i,
                ),
{
    let ghost start = *b;
    let mut sponge = Shake256Sponge::absorb(b, input, len_bytes);
    let ghost middle = *b;
    let ghost ready = sponge;
    let out = sponge.squeeze(b, out_lanes);
    proof {
        assert forall|v: Seq<u64>| #[trigger] b.follows(v) implies forall|i: int|
            0 <= i < out_lanes ==> at(v, #[trigger] out@[i]) == shake256_lane(
                values(v, input@),
                len_bytes as int,
                i,
            ) by {
            assert(middle.follows(v));
            let s = absorbed(
                values(v, input@),
                len_bytes as int,
                block_count(len_bytes as int) as nat,
            );
            assert(ready.stands(v, s, 0));
        }
    }
    out
}

/// Compute SHAKE256 of a message that fits in one block and squeeze at most one block.
pub fn shake256_fixed(
    b: &mut CircuitBuilder,
    input: &[Wire],
    len_bytes: usize,
    out_lanes: usize,
) -> (r: Vec<Wire>)
    requires
        old(b).is_valid(),
        old(b).has_all(input@),
        len_bytes <= 8 * input@.len(),
        len_bytes < 136,
        1 <= out_lanes <= 17,
    ensures
        final(b).is_valid(),
        final(b).grows_from(old(b)),
        final(b).has_all(r@),
        r@.len() == out_lanes,
        forall|v: Seq<u64>| #[trigger] final(b).honest(v) == old(b).honest(v),
        forall|v: Seq<u64>| #[trigger] final(b).passes(v) == old(b).passes(v),
        forall|v: Seq<u64>| #[trigger]
            final(b).follows(v) ==> forall|i: int|
                0 <= i < out_lanes ==> at(v, #[trigger] r@[i]) == shake256_lane(
                    values(v, input@),
                    len_bytes as int,
                    i,
                ),
{
    shake256(b, input, len_bytes, out_lanes)
}

} // verus!
