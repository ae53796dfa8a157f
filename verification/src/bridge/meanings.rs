//! What accepted relations, packed sums, bit tables and scalars of the bridge say, entry by entry.

use vstd::arithmetic::power::pow;
use vstd::arithmetic::power2::pow2;
use vstd::prelude::*;

use super::fp128::{are_inverse, lemma_modulus, residue, residues};
use super::lift::lifted;
use super::masks::{bit_table, counts_of, selected_mask, BitSliceOracle};
use super::packing::{
    byte_bit, byte_stream_bit, is_packing, lemma_stream_index, lemma_stream_len, stream, total_width,
    width,
};
use super::parity::{basis_products, bit_value, parity_holds, tally};
use super::relation::{sums_accepted, vertex, BridgeTape, ClaimReducedTape};
use super::rounds::{final_claim, holds_messages, rounds_of};
use super::tables::{eq_product, first_powers};
use super::wire::{holds_scalar, residues_between, word_at};
use crate::ghash::{bit, B128};
use crate::multilinear::{dot, evaluation, law_evaluation_at_vertex};
use crate::words::word_bit;

verus! {

/// An accepted relation rests on 128 sums. Each is within its bound and has the parity of its bit of
/// the claim. The first sumcheck starts from their combination by the powers of `alpha` and ends in
/// the product of the opened value and the value of the mask. The second starts from zero and ends
/// in `b * (b - 1)` for the opened value `b`, weighted by the equality polynomial.
pub proof fn law_accepted_relation(
    tape: BridgeTape,
    rounds: nat,
    transparent: Seq<B128>,
    claim: B128,
) -> (sums: Seq<u64>)
    requires
        tape.accepted(rounds, transparent, claim),
    ensures
        sums.len() == 128,
        forall|k: int|
            0 <= k < 128 ==> (#[trigger] sums[k]) <= tally(basis_products(transparent), k)
                && sums[k] as int % 2 == bit_value(claim.val, k),
        tape.selected.initial_claim@ == residue(
            dot(
                Seq::new(128, |k: int| pow(tape.alpha@, k as nat)),
                Seq::new(128, |k: int| sums[k] as int),
            ),
        ),
        tape.selected.challenges@.len() == rounds,
        tape.selected.proof.round_evals@.len() == rounds,
        final_claim(
            tape.selected.initial_claim@,
            rounds_of(tape.selected.proof.round_evals@),
            residues(tape.selected.challenges@),
        ) == Some(
            residue(
                tape.selected_opening@ * evaluation(
                    selected_mask(transparent, tape.alpha@),
                    residues(tape.selected.challenges@),
                ),
            ),
        ),
        tape.booleanity.initial_claim@ == 0,
        tape.bool_weight_point@.len() == rounds,
        tape.booleanity.challenges@.len() == rounds,
        tape.booleanity.proof.round_evals@.len() == rounds,
        final_claim(
            0,
            rounds_of(tape.booleanity.proof.round_evals@),
            residues(tape.booleanity.challenges@),
        ) == Some(
            residue(
                eq_product(
                    residues(tape.bool_weight_point@),
                    residues(tape.booleanity.challenges@),
                ) * (tape.bool_opening@ * (tape.bool_opening@ - 1)),
            ),
        ),
{
    let (bounds, sums) = choose|bounds: Seq<u64>, sums: Seq<u64>| #[trigger]
        sums_accepted(tape.parity_bytes@, transparent, claim, bounds, sums)
            && tape.sumchecks_accepted(rounds, transparent, sums);
    assert forall|k: int| 0 <= k < 128 implies (#[trigger] sums[k]) <= tally(
        basis_products(transparent),
        k,
    ) && sums[k] as int % 2 == bit_value(claim.val, k) by {
        assert(bounds[k] == 1 * tally(basis_products(transparent), k));
        assert(parity_holds(sums, bounds, claim, k));
    }
    assert(Seq::new(128, |k: int| pow(tape.alpha@, k as nat)) =~= first_powers(tape.alpha@, 128));
    assert(Seq::new(128, |k: int| sums[k] as int) =~= counts_of(sums));
    let b = tape.bool_opening@;
    let e = eq_product(
        residues(tape.bool_weight_point@),
        residues(tape.booleanity.challenges@),
    );
    assert(e * (b * (b - 1)) == e * b * (b - 1)) by (nonlinear_arith);
    sums
}

/// An accepted claim-reduced relation is an accepted relation whose two openings `s` and `b` are
/// combined to `s + cr_alpha * b`, from which a third sumcheck starts, and whose combined indicator
/// has an inverse.
pub proof fn law_accepted_claim_reduced_relation(
    tape: ClaimReducedTape,
    rounds: nat,
    transparent: Seq<B128>,
    claim: B128,
) -> (y: int)
    requires
        tape.accepted(rounds, transparent, claim),
    ensures
        tape.bridge.accepted(rounds, transparent, claim),
        tape.reduction.initial_claim@ == residue(
            tape.bridge.selected_opening@ + tape.cr_alpha@ * tape.bridge.bool_opening@,
        ),
        tape.reduction.challenges@.len() == rounds,
        tape.reduction.proof.round_evals@.len() == rounds,
        final_claim(
            tape.reduction.initial_claim@,
            rounds_of(tape.reduction.proof.round_evals@),
            residues(tape.reduction.challenges@),
        ) is Some,
        residue(tape.indicator() * y) == 1,
{
    let y = choose|y: int| are_inverse(tape.indicator(), y);
    y
}

/// The bounded integers of a packing stand one after the other, each in as many bits as its bound
/// has, the least significant bit first, and the last byte is filled up with zeros.
pub proof fn law_packed_values_stand_in_order(
    bytes: Seq<u8>,
    values: Seq<u64>,
    bounds: Seq<u64>,
    i: int,
    c: int,
)
    requires
        is_packing(bytes, values, bounds),
        0 <= i < 128,
        0 <= c < width(bounds[i] as nat),
    ensures
        total_width(bounds, 0) == 0,
        total_width(bounds, (i + 1) as nat) == total_width(bounds, i as nat) + width(
            bounds[i] as nat,
        ),
        8 * bytes.len() - 8 < total_width(bounds, 128) <= 8 * bytes.len(),
        total_width(bounds, i as nat) + c < 8 * bytes.len(),
        byte_bit(
            bytes[(total_width(bounds, i as nat) + c) / 8],
            (total_width(bounds, i as nat) + c) % 8,
        ) == word_bit(values[i], c),
{
    let q = total_width(bounds, i as nat) + c;
    lemma_stream_len(values, bounds, 128);
    lemma_stream_index(values, bounds, 128, i, c);
    assert(byte_stream_bit(bytes, q) == (q < stream(values, bounds, 128).len() && stream(
        values,
        bounds,
        128,
    )[q]));
}

/// The entries of a bit table are the bits of the elements, 128 of each.
pub proof fn law_bit_table_holds_bits(oracle: Seq<B128>, i: int, b: int)
    requires
        0 <= i < oracle.len(),
        0 <= b < 128,
    ensures
        bit_table(oracle).len() == 128 * oracle.len(),
        bit_table(oracle)[128 * i + b] == if bit(oracle[i].val, b) {
            1int
        } else {
            0int
        },
{
    let m = 128 * i + b;
    assert(m / 128 == i && m % 128 == b);
}

/// The slices of an oracle, flattened, are its bit table.
pub proof fn law_slices_flatten_to_bit_table(slices: BitSliceOracle, oracle: Seq<B128>)
    requires
        slices.holds(oracle),
    ensures
        residues(slices.flattened()) == bit_table(oracle),
{
    assert forall|m: int| 0 <= m < 128 * oracle.len() implies residues(slices.flattened())[m]
        == bit_table(oracle)[m] by {
        assert(slices.bit_polys@[m % 128]@[m / 128]@ == bit_value(oracle[m / 128].val, m % 128));
    }
    assert(residues(slices.flattened()) =~= bit_table(oracle));
}

/// A word is written with its least significant byte first.
pub proof fn law_word_has_bytes(bytes: Seq<u8>, at: int)
    ensures
        word_at(bytes, at) == bytes[at] + 0x100 * (bytes[at + 1] + 0x100 * (bytes[at + 2] + 0x100
            * (bytes[at + 3] + 0x100 * (bytes[at + 4] + 0x100 * (bytes[at + 5] + 0x100 * (bytes[at
            + 6] + 0x100 * bytes[at + 7])))))),
{
    reveal(word_at);
}

/// An encoded element is a residue in sixteen bytes, and a framed one has 24 bytes, of which the
/// first eight are the number 16.
pub proof fn law_framed_scalar_is_laid_out(bytes: Seq<u8>, at: int, scalar: int)
    requires
        holds_scalar(bytes, at, scalar),
        at >= 0,
    ensures
        at + 24 <= bytes.len(),
        word_at(bytes, at) == 16,
        scalar % 0x1_0000_0000_0000_0000 == word_at(bytes, at + 8),
        scalar / 0x1_0000_0000_0000_0000 == word_at(bytes, at + 16),
        0 <= scalar < 0x1_0000_0000_0000_0000 * 0x1_0000_0000_0000_0000 - 275,
{
    reveal(word_at);
    let object = bytes.subrange(at + 8, at + 24);
    assert forall|j: int| 0 <= j < 16 implies object[j] == bytes[at + 8 + j] by {}
    assert(word_at(object, 0) == word_at(bytes, at + 8));
    assert(word_at(object, 8) == word_at(bytes, at + 16));
}

/// Samples that are drawn one after the other are the samples below the number of elements of the
/// field, in their order.
pub proof fn law_drawn_samples_are_residues(samples: Seq<B128>, at: int, end: int)
    requires
        0 <= at <= end < samples.len(),
    ensures
        residues_between(samples, at, at).len() == 0,
        samples[end].val < 0x1_0000_0000_0000_0000 * 0x1_0000_0000_0000_0000 - 275
            ==> residues_between(samples, at, end + 1) == residues_between(samples, at, end).push(
            samples[end].val as int,
        ),
        samples[end].val >= 0x1_0000_0000_0000_0000 * 0x1_0000_0000_0000_0000 - 275
            ==> residues_between(samples, at, end + 1) == residues_between(samples, at, end),
{
}

/// The elements of the messages of a sumcheck determine the claim and the rounds.
pub proof fn law_messages_determine_rounds(
    scalars: Seq<int>,
    a: int,
    p: Seq<Seq<int>>,
    b: int,
    q: Seq<Seq<int>>,
    w: int,
)
    requires
        w > 0,
        forall|k: int| 0 <= k < p.len() ==> (#[trigger] p[k]).len() == w,
        forall|k: int| 0 <= k < q.len() ==> (#[trigger] q[k]).len() == w,
        holds_messages(scalars, a, p, w),
        holds_messages(scalars, b, q, w),
    ensures
        a == b,
        p == q,
        a == scalars[0],
        forall|k: int|
            0 <= k < p.len() ==> (#[trigger] p[k]) == scalars.subrange(1 + w * k, 1 + w * (k + 1)),
{
    assert(p.len() == q.len()) by (nonlinear_arith)
        requires
            w > 0,
            1 + w * p.len() == 1 + w * q.len(),
    ;
    assert forall|k: int| 0 <= k < p.len() implies (#[trigger] p[k]) == scalars.subrange(
        1 + w * k,
        1 + w * (k + 1),
    ) && p[k] == q[k] by {
        assert(0 <= w * k && w * (k + 1) == w * k + w && w * (k + 1) <= w * p.len())
            by (nonlinear_arith)
            requires
                w > 0,
                0 <= k < p.len(),
        ;
        assert forall|t: int| 0 <= t < w implies p[k][t] == scalars.subrange(
            1 + w * k,
            1 + w * (k + 1),
        )[t] && p[k][t] == q[k][t] by {}
        assert(p[k] =~= scalars.subrange(1 + w * k, 1 + w * (k + 1)));
        assert(p[k] =~= q[k]);
    }
    assert(p =~= q);
}

/// At the vertex of an index a transparent polynomial has the entry with that index.
pub proof fn law_vertex_selects_entry(table: Seq<B128>, index: int, n: nat)
    requires
        table.len() == pow2(n),
        0 <= index < table.len(),
    ensures
        evaluation(table, vertex(index, n)) == table[index],
{
    law_evaluation_at_vertex(table, vertex(index, n), index);
}

/// The lift of a scalar is its integer, less the number of elements of the field where the integer
/// is not below it.
pub proof fn law_lift_is_canonical(value: B128)
    ensures
        lifted(value) == if value.val < 0x1_0000_0000_0000_0000 * 0x1_0000_0000_0000_0000 - 275 {
            value.val as int
        } else {
            value.val - (0x1_0000_0000_0000_0000 * 0x1_0000_0000_0000_0000 - 275)
        },
{
    lemma_modulus();
}

} // verus!
