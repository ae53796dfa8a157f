//! A first round over the bit index in front of the fused reduction.
//!
//! The prover first sends the mixed residual of the round on an extension of the bit-index
//! domain, and only then is the bit challenge drawn. The suffix that follows works on packed bit
//! tables.

use vstd::arithmetic::power2::{lemma2_to64, lemma_pow2_unfold, pow2};
use vstd::prelude::*;

use super::blocks::{
    all_lanes_of, batch_scalars, combined, evaluate_lane_low_vectors_from_words, fold_low_vectors,
    folded_instances, lane_values, lanes_of, lanes_plus, law_linear_image_of_sum, mixed_lanes,
    product_image, state_scalars, Block,
};
use super::boolean::{
    law_composed_of_bits, law_linear_image_of_bits, lemma_bit_scalar_and, lemma_bit_scalar_xor,
};
use super::chi_iota::chi_round_values;
use super::claims::{
    bit_indexed_lane_claim_from_words, copy_vector, equal_vectors, is_claim_on,
    BitIndexedMixedClaim, ClaimFault, Error,
};
use super::fused_round::{verify_round_from_words, FusedRoundOutput, FusedRoundReduction};
use super::laws::{
    chi_function, chi_function_infinity, half_sums, quadratic_y_1, quadratic_y_inf, round_function,
    round_function_infinity, upper_half, values_on,
};
use super::linear_round::reversed;
use super::rotation::{
    bit_lagrange_weights, bit_weights_at, lagrange_denominators, weights_with_denominators,
    word_scalars,
};
use super::trace::{
    batch, bit_scalar, chi_iota_words, chi_next, keccak_round, pre_chi_of, scalar_bit,
    theta_rho_pi_words, State,
};
use crate::field::{
    lemma_minus_is_plus, lemma_one_times, lemma_times_zero, lemma_zero_plus, BinaryField, Field,
};
use crate::mlecheck::{
    interpolate_round_coeffs, polynomial_at, quadratic_coeffs, EvalPoint, RoundCoeffs,
    RoundCoeffsOrEval, SumcheckError,
};
use crate::multilinear::{
    block, dot, eq_ind_partial_eval, eq_table, fold_highest_var_inplace, folded_high, inner_product,
    interpolated, lemma_sum_by_blocks, lemma_sum_take, pointwise_times, sum, block_sums,
};
use crate::powers::is_power;

verus! {

/// The claim at the boundary of a round, before the bit challenge is drawn.
#[derive(Debug, Clone, PartialEq, Eq)]
pub struct OblongRoundBoundaryClaim<F> {
    /// Evaluation point of the instance variables.
    pub high_point: Vec<F>,
    /// Random verifier weights, one per lane.
    pub lane_weights: [F; 25],
}

/// What the first round over the bit index leads to.
#[derive(Debug, Clone, PartialEq, Eq)]
pub struct OblongFirstRoundOutput<F> {
    /// The challenge for the bit index.
    pub bit_challenge: F,
    /// The claim on the output states at that challenge.
    pub output_claim: BitIndexedMixedClaim<F>,
}

/// The additive prover-message domain for a 64-point Keccak bit-index round.
///
/// The base 64-point bit-index domain plus one extension basis vector for the first univariate
/// message.
pub fn prover_message_domain<F: BinaryField>() -> (r: Vec<F>)
    ensures
        r@ == Seq::new(128, |i: int| F::subspace_point(i)),
{
    let mut out: Vec<F> = Vec::with_capacity(128);
    let mut i: usize = 0;
    while i < 128
        invariant
            i <= 128,
            out@ == Seq::new(i as nat, |j: int| F::subspace_point(j)),
        decreases 128 - i,
    {
        out.push(F::subspace_element(i));
        assert(out@ =~= Seq::new((i + 1) as nat, |j: int| F::subspace_point(j)));
        i = i + 1;
    }
    out
}

/// The bits in which an output state differs from the round applied to an input state, mixed over
/// the lanes.
pub open spec fn residual_bit<F: Field>(
    input: Seq<u64>,
    output: Seq<u64>,
    round: int,
    lane_weights: Seq<F>,
    b: int,
) -> F {
    dot(
        lane_weights,
        Seq::new(
            25,
            |lane: int| bit_scalar::<F>(output[lane] ^ keccak_round(input, round)[lane], b),
        ),
    )
}

/// The residual of a round at bit `b`, mixed over lanes and instances.
pub open spec fn mixed_residual<F: Field>(
    inputs: Seq<Seq<u64>>,
    outputs: Seq<Seq<u64>>,
    round: int,
    high_point: Seq<F>,
    lane_weights: Seq<F>,
    b: int,
) -> F {
    dot(
        eq_table(high_point),
        Seq::new(
            inputs.len(),
            |i: int| residual_bit(inputs[i], outputs[i], round, lane_weights, b),
        ),
    )
}

/// Returns the state before chi.
pub fn pre_chi_words_from_input(input_state: &State) -> (r: State)
    ensures
        r@ == pre_chi_of(input_state@),
{
    let mut state: State = *input_state;
    theta_rho_pi_words(&mut state);
    state
}

/// Returns the words in which an output state differs from the round applied to an input state.
fn difference_words(input_state: &State, output_state: &State, round: usize) -> (r: State)
    requires
        round < 24,
    ensures
        forall|lane: int|
            0 <= lane < 25 ==> #[trigger] r[lane] == output_state[lane] ^ keccak_round(
                input_state@,
                round as int,
            )[lane],
{
    let mut expected = pre_chi_words_from_input(input_state);
    chi_iota_words(&mut expected, round);
    let mut out: State = [0u64;25];
    let mut lane: usize = 0;
    while lane < 25
        invariant
            lane <= 25,
            expected@ == keccak_round(input_state@, round as int),
            forall|l: int|
                0 <= l < lane ==> #[trigger] out[l] == output_state[l] ^ keccak_round(
                    input_state@,
                    round as int,
                )[l],
        decreases 25 - lane,
    {
        out[lane] = output_state[lane] ^ expected[lane];
        lane = lane + 1;
    }
    out
}

/// Compute the mixed fused-round residual on the 64-point boolean bit-index domain.
///
/// For each boolean bit index `z in {0,1}^6`, this returns
/// `sum_instance eq(high_point, instance) * sum_lane lane_weights[lane] * residual(lane, z)`,
/// where `residual = output + fused_round(input)` in characteristic two.
pub fn mixed_fused_round_residual_base_from_words<F: BinaryField>(
    input_words: &[State],
    output_words: &[State],
    round: usize,
    high_point: &[F],
    lane_weights: &[F; 25],
) -> (r: Result<[F; 64], Error>)
    ensures
        ({
            let n = pow2(high_point@.len());
            if round >= 24 {
                r == Err::<[F; 64], Error>(Error::InvalidRound(round))
            } else if input_words@.len() != n || output_words@.len() != n {
                r == Err::<[F; 64], Error>(Error::InvalidClaim(ClaimFault::WordCount))
            } else {
                r matches Ok(residual) && is_residual(
                    residual,
                    batch(input_words@),
                    batch(output_words@),
                    round as int,
                    high_point@,
                    lane_weights@,
                )
            }
        }),
{
    if round >= 24 {
        return Err(Error::InvalidRound(round));
    }
    if !is_power(input_words.len(), high_point.len()) || !is_power(
        output_words.len(),
        high_point.len(),
    ) {
        return Err(Error::InvalidClaim(ClaimFault::WordCount));
    }
    let high_eq = eq_ind_partial_eval(high_point);
    let ghost inputs = batch(input_words@);
    let ghost outputs = batch(output_words@);
    let ghost terms = Seq::new(
        64,
        |b: int|
            pointwise_times(
                high_eq@,
                Seq::new(
                    inputs.len(),
                    |i: int|
                        residual_bit(inputs[i], outputs[i], round as int, lane_weights@, b),
                ),
            ),
    );
    let mut residual: [F; 64] = [F::zero();64];
    assert forall|b: int| 0 <= b < 64 implies residual[b] == sum((#[trigger] terms[b]).take(0)) by {
        assert(terms[b].take(0) =~= Seq::<F>::empty());
    }
    let mut i: usize = 0;
    while i < high_eq.len()
        invariant
            i <= high_eq@.len(),
            round < 24,
            high_eq@.len() == input_words@.len(),
            high_eq@.len() == output_words@.len(),
            inputs == batch(input_words@),
            outputs == batch(output_words@),
            terms == Seq::new(
                64,
                |b: int|
                    pointwise_times(
                        high_eq@,
                        Seq::new(
                            inputs.len(),
                            |i: int|
                                residual_bit(
                                    inputs[i],
                                    outputs[i],
                                    round as int,
                                    lane_weights@,
                                    b,
                                ),
                        ),
                    ),
            ),
            forall|b: int| 0 <= b < 64 ==> residual[b] == sum((#[trigger] terms[b]).take(i as int)),
        decreases high_eq@.len() - i,
    {
        let instance_weight: F = high_eq[i];
        if instance_weight.is_equal(F::zero()) {
            proof {
                assert forall|b: int| 0 <= b < 64 implies residual[b] == sum(
                    (#[trigger] terms[b]).take(i + 1),
                ) by {
                    lemma_sum_take(terms[b], i as int);
                    lemma_times_zero(
                        residual_bit(
                            inputs[i as int],
                            outputs[i as int],
                            round as int,
                            lane_weights@,
                            b,
                        ),
                    );
                    F::law_plus_zero(residual[b]);
                }
            }
        } else {
            let diff = difference_words(&input_words[i], &output_words[i], round);
            let mut b: usize = 0;
            while b < 64
                invariant
                    b <= 64,
                    i < high_eq@.len(),
                    round < 24,
                    instance_weight == high_eq@[i as int],
                    high_eq@.len() == input_words@.len(),
                    high_eq@.len() == output_words@.len(),
                    inputs == batch(input_words@),
                    outputs == batch(output_words@),
                    forall|lane: int|
                        0 <= lane < 25 ==> #[trigger] diff[lane] == outputs[i as int][lane]
                            ^ keccak_round(inputs[i as int], round as int)[lane],
                    terms.len() == 64,
                    forall|c: int|
                        0 <= c < 64 ==> (#[trigger] terms[c]).len() == high_eq@.len()
                            && terms[c][i as int] == instance_weight.times(
                            residual_bit(
                                inputs[i as int],
                                outputs[i as int],
                                round as int,
                                lane_weights@,
                                c,
                            ),
                        ),
                    forall|c: int|
                        0 <= c < 64 ==> residual[c] == sum(
                            (#[trigger] terms[c]).take(
                                if c < b {
                                    i + 1
                                } else {
                                    i as int
                                },
                            ),
                        ),
                decreases 64 - b,
            {
                let mut bits: [F; 25] = [F::zero();25];
                let mut lane: usize = 0;
                while lane < 25
                    invariant
                        lane <= 25,
                        b < 64,
                        forall|l: int|
                            0 <= l < lane ==> bits[l] == bit_scalar::<F>(diff[l], b as int),
                    decreases 25 - lane,
                {
                    bits[lane] = scalar_bit(diff[lane], b);
                    lane = lane + 1;
                }
                let mixed_bit: F = inner_product(lane_weights.as_slice(), bits.as_slice());
                proof {
                    assert(bits@ =~= Seq::new(
                        25,
                        |lane: int|
                            bit_scalar::<F>(
                                outputs[i as int][lane] ^ keccak_round(
                                    inputs[i as int],
                                    round as int,
                                )[lane],
                                b as int,
                            ),
                    ));
                    lemma_sum_take(terms[b as int], i as int);
                }
                residual[b] = residual[b].add(instance_weight.mul(mixed_bit));
                b = b + 1;
            }
        }
        i = i + 1;
    }
    proof {
        assert forall|b: int| 0 <= b < 64 implies residual[b] == mixed_residual(
            inputs,
            outputs,
            round as int,
            high_point@,
            lane_weights@,
            b,
        ) by {
            assert(terms[b].take(i as int) =~= terms[b]);
        }
    }
    Ok(residual)
}

/// Whether `residual` holds the residual of a round on the bit-index domain.
pub open spec fn is_residual<F: Field>(
    residual: [F; 64],
    inputs: Seq<Seq<u64>>,
    outputs: Seq<Seq<u64>>,
    round: int,
    high_point: Seq<F>,
    lane_weights: Seq<F>,
) -> bool {
    forall|b: int|
        0 <= b < 64 ==> residual[b] == #[trigger] mixed_residual(
            inputs,
            outputs,
            round,
            high_point,
            lane_weights,
            b,
        )
}

/// The values of the residual's interpolation on the extension half of the prover-message domain.
pub open spec fn extension_values<F: BinaryField>(residual: Seq<F>) -> Seq<F> {
    Seq::new(64, |i: int| dot(residual, bit_weights_at(F::subspace_point(64 + i))))
}

/// Extrapolate a 64-point bit-index residual to the extension half of the prover-message domain.
pub fn residual_extension_evals<F: BinaryField>(residual_base: &[F; 64]) -> (r: [F; 64])
    ensures
        r@ == extension_values(residual_base@),
{
    let denominators = lagrange_denominators();
    let mut out: [F; 64] = [F::zero();64];
    let mut i: usize = 0;
    while i < 64
        invariant
            i <= 64,
            forall|j: int|
                0 <= j < 64 ==> #[trigger] denominators[j] == crate::field::inverse_or_zero(
                    super::rotation::vanishing_except(F::subspace_point(j), j, 64),
                ),
            forall|j: int| 0 <= j < i ==> out[j] == extension_values(residual_base@)[j],
        decreases 64 - i,
    {
        let weights = weights_with_denominators(F::subspace_element(64 + i), &denominators);
        out[i] = inner_product(residual_base.as_slice(), weights.as_slice());
        i = i + 1;
    }
    assert(out@ =~= extension_values(residual_base@));
    out
}

/// Whether `message` is the first message for a round.
pub open spec fn is_oblong_message<F: BinaryField>(
    message: Seq<F>,
    inputs: Seq<Seq<u64>>,
    outputs: Seq<Seq<u64>>,
    round: int,
    high_point: Seq<F>,
    lane_weights: Seq<F>,
) -> bool {
    message == extension_values(
        Seq::new(
            64,
            |b: int| mixed_residual(inputs, outputs, round, high_point, lane_weights, b),
        ),
    )
}

/// Compute the first oblong-round extension evaluations directly from explicit word traces.
pub fn mixed_fused_round_oblong_message_from_words<F: BinaryField>(
    input_words: &[State],
    output_words: &[State],
    round: usize,
    high_point: &[F],
    lane_weights: &[F; 25],
) -> (r: Result<[F; 64], Error>)
    ensures
        ({
            let n = pow2(high_point@.len());
            if round >= 24 {
                r == Err::<[F; 64], Error>(Error::InvalidRound(round))
            } else if input_words@.len() != n || output_words@.len() != n {
                r == Err::<[F; 64], Error>(Error::InvalidClaim(ClaimFault::WordCount))
            } else {
                r matches Ok(message) && is_oblong_message(
                    message@,
                    batch(input_words@),
                    batch(output_words@),
                    round as int,
                    high_point@,
                    lane_weights@,
                )
            }
        }),
{
    match mixed_fused_round_residual_base_from_words(
        input_words,
        output_words,
        round,
        high_point,
        lane_weights,
    ) {
        Ok(residual) => {
            proof {
                let residuals = Seq::new(
                    64,
                    |b: int|
                        mixed_residual(
                            batch(input_words@),
                            batch(output_words@),
                            round as int,
                            high_point@,
                            lane_weights@,
                            b,
                        ),
                );
                assert forall|b: int| 0 <= b < 64 implies residual@[b] == residuals[b] by {
                    let value = mixed_residual(
                        batch(input_words@),
                        batch(output_words@),
                        round as int,
                        high_point@,
                        lane_weights@,
                        b,
                    );
                }
                assert(residual@ =~= residuals);
            }
            Ok(residual_extension_evals(&residual))
        },
        Err(error) => Err(error),
    }
}

/// The claim on the output states once the bit challenge has been drawn.
pub fn prove_fused_round_first_message<F: BinaryField>(
    output_words: &[State],
    boundary_claim: &OblongRoundBoundaryClaim<F>,
    bit_challenge: F,
) -> (r: OblongFirstRoundOutput<F>)
    requires
        output_words@.len() == pow2(boundary_claim.high_point@.len()),
    ensures
        is_first_round_output(r, output_words@, *boundary_claim, bit_challenge),
{
    let output_claim = bit_indexed_lane_claim_from_words(
        output_words,
        bit_challenge,
        boundary_claim.high_point.as_slice(),
        boundary_claim.lane_weights,
    );
    OblongFirstRoundOutput { bit_challenge, output_claim }
}

/// Whether `out` is the claim on the output states at the bit challenge.
pub open spec fn is_first_round_output<F: BinaryField>(
    out: OblongFirstRoundOutput<F>,
    output_words: Seq<State>,
    boundary_claim: OblongRoundBoundaryClaim<F>,
    bit_challenge: F,
) -> bool {
    &&& out.bit_challenge == bit_challenge
    &&& is_claim_on(
        out.output_claim,
        batch_scalars::<F>(batch(output_words)),
        bit_challenge,
        boundary_claim.high_point@,
        boundary_claim.lane_weights@,
    )
}

/// Verify one explicit oblong first-round message over the bit index.
///
/// The challenge is the one that is drawn after the message has been received.
pub fn verify_fused_round_first_message<F: BinaryField>(
    input_words: &[State],
    output_words: &[State],
    round: usize,
    boundary_claim: &OblongRoundBoundaryClaim<F>,
    received_message: &[F; 64],
    bit_challenge: F,
) -> (r: Result<OblongFirstRoundOutput<F>, Error>)
    ensures
        ({
            let n = pow2(boundary_claim.high_point@.len());
            if round >= 24 {
                r == Err::<OblongFirstRoundOutput<F>, Error>(Error::InvalidRound(round))
            } else if input_words@.len() != n || output_words@.len() != n {
                r == Err::<OblongFirstRoundOutput<F>, Error>(
                    Error::InvalidClaim(ClaimFault::WordCount),
                )
            } else if !is_oblong_message(
                received_message@,
                batch(input_words@),
                batch(output_words@),
                round as int,
                boundary_claim.high_point@,
                boundary_claim.lane_weights@,
            ) {
                r == Err::<OblongFirstRoundOutput<F>, Error>(Error::InvalidAssert)
            } else {
                r matches Ok(out) && is_first_round_output(
                    out,
                    output_words@,
                    *boundary_claim,
                    bit_challenge,
                )
            }
        }),
{
    match mixed_fused_round_oblong_message_from_words(
        input_words,
        output_words,
        round,
        boundary_claim.high_point.as_slice(),
        &boundary_claim.lane_weights,
    ) {
        Ok(expected_message) => {
            if !equal_vectors(received_message.as_slice(), expected_message.as_slice()) {
                return Err(Error::InvalidAssert);
            }
            Ok(prove_fused_round_first_message(output_words, boundary_claim, bit_challenge))
        },
        Err(error) => Err(error),
    }
}

/// The weights of the set bits of a byte, at the place of that byte within a word.
pub open spec fn byte_value<F: Field>(bit_weights: Seq<F>, place: int, byte: int) -> F {
    dot(Seq::new(8, |k: int| bit_scalar::<F>(byte as u64, k)), block(bit_weights, 8, place))
}

/// Whether `lookup` holds the value of each byte at each place within a word.
pub open spec fn is_byte_lookup<F: Field>(lookup: [[F; 256]; 8], bit_weights: Seq<F>) -> bool {
    forall|place: int, byte: int|
        0 <= place < 8 && 0 <= byte < 256 ==> #[trigger] lookup[place][byte] == byte_value(
            bit_weights,
            place,
            byte,
        )
}

/// Tabulates the weights of the set bits of each byte, at each place within a word.
pub fn bit_weight_byte_lookup<F: Field>(bit_weights: &[F; 64]) -> (r: [[F; 256]; 8])
    ensures
        is_byte_lookup(r, bit_weights@),
{
    let mut out: [[F; 256]; 8] = [[F::zero();256];8];
    let mut place: usize = 0;
    while place < 8
        invariant
            place <= 8,
            forall|p: int, y: int|
                0 <= p < place && 0 <= y < 256 ==> #[trigger] out[p][y] == byte_value(
                    bit_weights@,
                    p,
                    y,
                ),
        decreases 8 - place,
    {
        let mut row: [F; 256] = [F::zero();256];
        let mut byte: usize = 0;
        while byte < 256
            invariant
                byte <= 256,
                place < 8,
                forall|y: int|
                    0 <= y < byte ==> #[trigger] row[y] == byte_value(
                        bit_weights@,
                        place as int,
                        y,
                    ),
            decreases 256 - byte,
        {
            let ghost terms = pointwise_times(
                Seq::new(8, |k: int| bit_scalar::<F>(byte as u64, k)),
                block(bit_weights@, 8, place as int),
            );
            let mut acc: F = F::zero();
            let mut bit: usize = 0;
            while bit < 8
                invariant
                    bit <= 8,
                    place < 8,
                    terms == pointwise_times(
                        Seq::new(8, |k: int| bit_scalar::<F>(byte as u64, k)),
                        block(bit_weights@, 8, place as int),
                    ),
                    acc == sum(terms.take(bit as int)),
                decreases 8 - bit,
            {
                proof {
                    lemma_sum_take(terms, bit as int);
                    lemma_one_times(bit_weights@[8 * place + bit]);
                    lemma_times_zero(bit_weights@[8 * place + bit]);
                    F::law_plus_zero(acc);
                }
                if ((byte as u64) >> (bit as u64)) & 1 == 1 {
                    acc = acc.add(bit_weights[8 * place + bit]);
                }
                bit = bit + 1;
            }
            assert(terms.take(8) =~= terms);
            row[byte] = acc;
            byte = byte + 1;
        }
        out[place] = row;
        place = place + 1;
    }
    out
}

proof fn lemma_byte_bit(word: u64, place: u64, k: u64)
    by (bit_vector)
    requires
        place < 8,
        k < 8,
    ensures
        ((((word >> ((8 * place) as u64)) & 0xff) >> k) & 1 == 1) == ((word >> ((8 * place + k)
            as u64)) & 1 == 1),
        (word >> ((8 * place) as u64)) & 0xff < 256,
{
}

/// Returns the sum of the weights of the set bits of a word.
fn fold_word_with_byte_lookup<F: Field>(
    word: u64,
    byte_lookup: &[[F; 256]; 8],
    Ghost(bit_weights): Ghost<Seq<F>>,
) -> (r: F)
    requires
        bit_weights.len() == 64,
        is_byte_lookup(*byte_lookup, bit_weights),
    ensures
        r == dot(word_scalars::<F>(word), bit_weights),
{
    let ghost products = pointwise_times(word_scalars::<F>(word), bit_weights);
    let ghost parts = block_sums(products, 8, 8);
    let mut acc: F = F::zero();
    let mut place: usize = 0;
    while place < 8
        invariant
            place <= 8,
            bit_weights.len() == 64,
            is_byte_lookup(*byte_lookup, bit_weights),
            products == pointwise_times(word_scalars::<F>(word), bit_weights),
            parts == block_sums(products, 8, 8),
            acc == sum(parts.take(place as int)),
        decreases 8 - place,
    {
        let shift: u64 = 8 * (place as u64);
        let byte: u64 = (word >> shift) & 0xff;
        proof {
            lemma_sum_take(parts, place as int);
            lemma_byte_bit(word, place as u64, 0);
            let bits = Seq::new(8, |k: int| bit_scalar::<F>(byte, k));
            assert forall|k: int| 0 <= k < 8 implies block(products, 8, place as int)[k]
                == pointwise_times(bits, block(bit_weights, 8, place as int))[k] by {
                lemma_byte_bit(word, place as u64, k as u64);
            }
            assert(block(products, 8, place as int) =~= pointwise_times(
                bits,
                block(bit_weights, 8, place as int),
            ));
        }
        let value: F = byte_lookup[place][byte as usize];
        assert(byte_lookup[place as int][byte as int] == byte_value(
            bit_weights,
            place as int,
            byte as int,
        ));
        acc = acc.add(value);
        place = place + 1;
    }
    proof {
        assert(parts.take(8) =~= parts);
        lemma_sum_by_blocks(products, 8, 8);
    }
    acc
}

/// Returns the place of a bit of a lane among the packed tables.
pub fn lane_bit_index(lane: usize, bit: usize) -> (r: usize)
    requires
        lane < 25,
        bit < 64,
    ensures
        r == 64 * lane + bit,
{
    lane * 64 + bit
}

/// On the bits of two states, the quadratic part of the round is that of the exclusive or of the
/// states before chi.
proof fn lemma_infinity_of_bits<F: BinaryField>(
    lo: Seq<u64>,
    hi: Seq<u64>,
    words: Seq<u64>,
    lane_weights: Seq<F>,
    bit_weights: Seq<F>,
)
    requires
        lo.len() == 25,
        hi.len() == 25,
        words.len() == 25,
        lane_weights.len() == 25,
        bit_weights.len() == 64,
        forall|lane: int|
            0 <= lane < 25 ==> #[trigger] words[lane] == (pre_chi_of(lo)[chi_next(lane, 1)]
                ^ pre_chi_of(hi)[chi_next(lane, 1)]) & (pre_chi_of(lo)[chi_next(lane, 2)]
                ^ pre_chi_of(hi)[chi_next(lane, 2)]),
    ensures
        round_function_infinity(lane_weights, bit_weights)(
            lanes_plus(state_scalars::<F>(lo), state_scalars::<F>(hi)),
        ) == mixed_lanes(state_scalars::<F>(words), lane_weights, bit_weights),
{
    let (a, b) = (state_scalars::<F>(lo), state_scalars::<F>(hi));
    law_linear_image_of_sum(a, b);
    law_linear_image_of_bits::<F>(lo);
    law_linear_image_of_bits::<F>(hi);
    let (p, q) = (pre_chi_of(lo), pre_chi_of(hi));
    let sums = lanes_plus(state_scalars::<F>(p), state_scalars::<F>(q));
    let products = product_image(sums);
    let expected = state_scalars::<F>(words);
    assert forall|lane: int| 0 <= lane < 25 implies products[lane] == expected[lane] by {
        let (l1, l2) = (chi_next(lane, 1), chi_next(lane, 2));
        assert forall|j: int| 0 <= j < 64 implies products[lane][j] == expected[lane][j] by {
            lemma_bit_scalar_xor::<F>(p[l1], q[l1], j);
            lemma_bit_scalar_xor::<F>(p[l2], q[l2], j);
            lemma_bit_scalar_and::<F>(p[l1] ^ q[l1], p[l2] ^ q[l2], j);
            assert(words[lane] == (p[l1] ^ q[l1]) & (p[l2] ^ q[l2]));
        }
        assert(products[lane] =~= expected[lane]);
    }
    assert(products =~= expected);
}

/// On the bits of a state, the weighted value after the round is that of the words after it.
pub proof fn lemma_round_function_of_bits<F: BinaryField>(
    s: Seq<u64>,
    lane_weights: Seq<F>,
    round: int,
    bit_weights: Seq<F>,
)
    requires
        s.len() == 25,
        0 <= round < 24,
        lane_weights.len() == 25,
        bit_weights.len() == 64,
    ensures
        round_function(lane_weights, round, bit_weights)(state_scalars::<F>(s)) == mixed_lanes(
            state_scalars::<F>(keccak_round(s, round)),
            lane_weights,
            bit_weights,
        ),
{
    law_linear_image_of_bits::<F>(s);
    law_composed_of_bits::<F>(pre_chi_of(s), lane_weights, round, bit_weights);
}

/// Returns the weighted value of a state whose lanes are given as words.
fn mixed_words<F: Field>(
    words: &State,
    lane_weights: &[F; 25],
    byte_lookup: &[[F; 256]; 8],
    Ghost(bit_weights): Ghost<Seq<F>>,
) -> (r: F)
    requires
        bit_weights.len() == 64,
        is_byte_lookup(*byte_lookup, bit_weights),
    ensures
        r == mixed_lanes(state_scalars::<F>(words@), lane_weights@, bit_weights),
{
    let mut values: [F; 25] = [F::zero();25];
    let mut lane: usize = 0;
    while lane < 25
        invariant
            lane <= 25,
            bit_weights.len() == 64,
            is_byte_lookup(*byte_lookup, bit_weights),
            forall|l: int|
                0 <= l < lane ==> values[l] == dot(word_scalars::<F>(words[l]), bit_weights),
        decreases 25 - lane,
    {
        values[lane] = fold_word_with_byte_lookup(words[lane], byte_lookup, Ghost(bit_weights));
        lane = lane + 1;
    }
    assert(values@ =~= lane_values(state_scalars::<F>(words@), bit_weights));
    inner_product(lane_weights.as_slice(), values.as_slice())
}

/// Returns the weighted value after the round of the upper of two states, and the weighted
/// quadratic part of their sum.
fn fused_chi_linear_word_pair_eval<F: BinaryField>(
    input_lo: &State,
    input_hi: &State,
    lane_weights: &[F; 25],
    round: usize,
    byte_lookup: &[[F; 256]; 8],
    Ghost(bit_weights): Ghost<Seq<F>>,
) -> (r: (F, F))
    requires
        round < 24,
        bit_weights.len() == 64,
        is_byte_lookup(*byte_lookup, bit_weights),
    ensures
        r.0 == round_function(lane_weights@, round as int, bit_weights)(
            state_scalars::<F>(input_hi@),
        ),
        r.1 == round_function_infinity(lane_weights@, bit_weights)(
            lanes_plus(state_scalars::<F>(input_lo@), state_scalars::<F>(input_hi@)),
        ),
{
    let pre_chi_lo = pre_chi_words_from_input(input_lo);
    let pre_chi_hi = pre_chi_words_from_input(input_hi);
    let mut words_1: State = pre_chi_hi;
    chi_iota_words(&mut words_1, round);
    let mut words_inf: State = [0u64;25];
    let mut lane: usize = 0;
    while lane < 25
        invariant
            lane <= 25,
            pre_chi_lo@ == pre_chi_of(input_lo@),
            pre_chi_hi@ == pre_chi_of(input_hi@),
            forall|l: int|
                0 <= l < lane ==> #[trigger] words_inf[l] == (pre_chi_lo[chi_next(l, 1)]
                    ^ pre_chi_hi[chi_next(l, 1)]) & (pre_chi_lo[chi_next(l, 2)]
                    ^ pre_chi_hi[chi_next(l, 2)]),
        decreases 25 - lane,
    {
        let b_lane: usize = (lane % 5 + 1) % 5 + 5 * (lane / 5);
        let c_lane: usize = (lane % 5 + 2) % 5 + 5 * (lane / 5);
        words_inf[lane] = (pre_chi_lo[b_lane] ^ pre_chi_hi[b_lane]) & (pre_chi_lo[c_lane]
            ^ pre_chi_hi[c_lane]);
        lane = lane + 1;
    }
    let acc_1: F = mixed_words(&words_1, lane_weights, byte_lookup, Ghost(bit_weights));
    let acc_inf: F = mixed_words(&words_inf, lane_weights, byte_lookup, Ghost(bit_weights));
    proof {
        lemma_round_function_of_bits::<F>(input_hi@, lane_weights@, round as int, bit_weights);
        lemma_infinity_of_bits::<F>(
            input_lo@,
            input_hi@,
            words_inf@,
            lane_weights@,
            bit_weights,
        );
    }
    (acc_1, acc_inf)
}

/// The values of instance `i` in 1600 packed tables, one for each bit of each lane.
pub open spec fn packed_lanes<F>(tables: Seq<Vec<F>>, i: int) -> Seq<Seq<F>> {
    Seq::new(25, |lane: int| Seq::new(64, |b: int| tables[64 * lane + b]@[i]))
}

/// The values of all instances in packed tables.
pub open spec fn packed_instances<F>(tables: Seq<Vec<F>>, n: nat) -> Seq<Seq<Seq<F>>> {
    Seq::new(n, |i: int| packed_lanes(tables, i))
}

/// Whether there are 1600 packed tables of length `n`.
pub open spec fn are_packed<F>(tables: Seq<Vec<F>>, n: nat) -> bool {
    &&& tables.len() == 1600
    &&& forall|k: int| 0 <= k < 1600 ==> (#[trigger] tables[k])@.len() == n
}

/// The bits of a batch of states before chi.
pub open spec fn batch_pre_chi_scalars<F: Field>(states: Seq<Seq<u64>>) -> Seq<Seq<Seq<F>>> {
    Seq::new(states.len(), |i: int| state_scalars::<F>(pre_chi_of(states[i])))
}

/// Fixes the highest instance variable of the bits before chi.
pub fn materialize_folded_pre_chi_bit_tables_from_word_pairs<F: BinaryField>(
    input_words: &[State],
    challenge: F,
) -> (r: Vec<Vec<F>>)
    ensures
        are_packed(r@, (input_words@.len() / 2) as nat),
        packed_instances(r@, (input_words@.len() / 2) as nat) == folded_instances(
            batch_pre_chi_scalars::<F>(batch(input_words@)),
            challenge,
        ),
{
    let split: usize = input_words.len() / 2;
    let ghost states = batch(input_words@);
    let ghost expected = folded_instances(batch_pre_chi_scalars::<F>(states), challenge);
    let zero: F = F::zero();
    let one: F = F::one();
    let only_low: F = one.add(challenge);
    proof {
        // the four values of a line between bits
        lemma_minus_is_plus(zero, zero);
        lemma_minus_is_plus(one, one);
        lemma_minus_is_plus(zero, one);
        lemma_minus_is_plus(one, zero);
        F::law_plus_zero(zero);
        F::law_plus_zero(one);
        lemma_zero_plus(one);
        lemma_zero_plus(challenge);
        F::law_characteristic_two(one);
        F::law_characteristic_two(zero);
        lemma_times_zero(challenge);
        F::law_times_one(challenge);
        assert(interpolated(zero, zero, challenge) == zero);
        assert(interpolated(one, zero, challenge) == only_low);
        assert(interpolated(zero, one, challenge) == challenge);
        assert(interpolated(one, one, challenge) == one);
    }
    let mut lo: Vec<State> = Vec::with_capacity(split);
    let mut hi: Vec<State> = Vec::with_capacity(split);
    let mut i: usize = 0;
    while i < split
        invariant
            i <= split,
            split == input_words@.len() / 2,
            input_words@.len() <= usize::MAX,
            lo@.len() == i,
            hi@.len() == i,
            forall|j: int| 0 <= j < i ==> (#[trigger] lo@[j])@ == pre_chi_of(input_words@[j]@),
            forall|j: int|
                0 <= j < i ==> (#[trigger] hi@[j])@ == pre_chi_of(input_words@[split + j]@),
        decreases split - i,
    {
        lo.push(pre_chi_words_from_input(&input_words[i]));
        hi.push(pre_chi_words_from_input(&input_words[split + i]));
        i = i + 1;
    }
    let mut tables: Vec<Vec<F>> = Vec::with_capacity(1600);
    let mut k: usize = 0;
    while k < 1600
        invariant
            k <= 1600,
            split == input_words@.len() / 2,
            states == batch(input_words@),
            expected == folded_instances(batch_pre_chi_scalars::<F>(states), challenge),
            zero == F::zero_spec(),
            one == F::one_spec(),
            interpolated(zero, zero, challenge) == zero,
            interpolated(one, zero, challenge) == only_low,
            interpolated(zero, one, challenge) == challenge,
            interpolated(one, one, challenge) == one,
            lo@.len() == split,
            hi@.len() == split,
            forall|j: int|
                0 <= j < split ==> (#[trigger] lo@[j])@ == pre_chi_of(input_words@[j]@),
            forall|j: int|
                0 <= j < split ==> (#[trigger] hi@[j])@ == pre_chi_of(input_words@[split + j]@),
            tables@.len() == k,
            forall|l: int|
                0 <= l < k ==> (#[trigger] tables@[l])@ == Seq::new(
                    split as nat,
                    |j: int| expected[j][l / 64][l % 64],
                ),
        decreases 1600 - k,
    {
        let lane: usize = k / 64;
        let bit: usize = k % 64;
        let ghost column = Seq::new(split as nat, |j: int| expected[j][k as int / 64][k as int % 64]);
        let mut table: Vec<F> = Vec::with_capacity(split);
        let mut j: usize = 0;
        while j < split
            invariant
                j <= split,
                k < 1600,
                lane == k / 64,
                bit == k % 64,
                split == input_words@.len() / 2,
                states == batch(input_words@),
                expected == folded_instances(batch_pre_chi_scalars::<F>(states), challenge),
                column == Seq::new(
                    split as nat,
                    |j: int| expected[j][k as int / 64][k as int % 64],
                ),
                zero == F::zero_spec(),
                one == F::one_spec(),
                interpolated(zero, zero, challenge) == zero,
                interpolated(one, zero, challenge) == only_low,
                interpolated(zero, one, challenge) == challenge,
                interpolated(one, one, challenge) == one,
                lo@.len() == split,
                hi@.len() == split,
                forall|m: int|
                    0 <= m < split ==> (#[trigger] lo@[m])@ == pre_chi_of(input_words@[m]@),
                forall|m: int|
                    0 <= m < split ==> (#[trigger] hi@[m])@ == pre_chi_of(input_words@[split + m]@),
                table@ == column.take(j as int),
            decreases split - j,
        {
            let lo_bit: bool = (lo[j][lane] >> (bit as u64)) & 1 == 1;
            let hi_bit: bool = (hi[j][lane] >> (bit as u64)) & 1 == 1;
            let value: F = if lo_bit {
                if hi_bit {
                    one
                } else {
                    only_low
                }
            } else {
                if hi_bit {
                    challenge
                } else {
                    zero
                }
            };
            proof {
                assert(lo@[j as int]@ == pre_chi_of(states[j as int]));
                assert(hi@[j as int]@ == pre_chi_of(states[j + split]));
                assert(expected[j as int][lane as int][bit as int] == interpolated(
                    bit_scalar::<F>(pre_chi_of(states[j as int])[lane as int], bit as int),
                    bit_scalar::<F>(pre_chi_of(states[j + split])[lane as int], bit as int),
                    challenge,
                ));
            }
            table.push(value);
            j = j + 1;
        }
        assert(column.take(split as int) =~= column);
        tables.push(table);
        k = k + 1;
    }
    proof {
        let packed = packed_instances(tables@, split as nat);
        assert forall|j: int| 0 <= j < split implies packed[j] == expected[j] by {
            assert forall|lane: int| 0 <= lane < 25 implies packed[j][lane] == expected[j][lane] by {
                assert forall|b: int| 0 <= b < 64 implies packed[j][lane][b]
                    == expected[j][lane][b] by {
                    let l = 64 * lane + b;
                    assert(l / 64 == lane && l % 64 == b);
                    assert(tables@[l]@[j] == expected[j][l / 64][l % 64]);
                }
                assert(packed[j][lane] =~= expected[j][lane]);
            }
            assert(packed[j] =~= expected[j]);
        }
        assert(packed =~= expected);
    }
    tables
}

/// Where the suffix prover stands: before its first fold it works on the words of the input
/// states, afterwards on packed tables of the bits before chi.
pub enum PackedOblongSuffixState<'a, F> {
    Words {
        input_words: &'a [State],
        last_coeffs_or_eval: RoundCoeffsOrEval<F>,
        point: EvalPoint<F>,
    },
    Packed {
        pre_chi_bit_tables: Vec<Vec<F>>,
        last_coeffs_or_eval: RoundCoeffsOrEval<F>,
        point: EvalPoint<F>,
    },
}

/// The prover of the rounds over the instances that follow the first message.
pub struct PackedOblongSuffixProver<'a, F> {
    pub state: PackedOblongSuffixState<'a, F>,
    pub bit_weights: [F; 64],
    pub lane_weights: [F; 25],
    pub round: usize,
}

/// Gathers the values of instance `i` from packed tables.
fn packed_block<F: Field>(tables: &Vec<Vec<F>>, i: usize) -> (r: Block<F>)
    requires
        are_packed(tables@, tables@[0]@.len()),
        i < tables@[0]@.len(),
    ensures
        lanes_of(r) == packed_lanes(tables@, i as int),
{
    let ghost expected = packed_lanes(tables@, i as int);
    let mut out: Block<F> = [[F::zero();64];25];
    let mut lane: usize = 0;
    while lane < 25
        invariant
            lane <= 25,
            are_packed(tables@, tables@[0]@.len()),
            i < tables@[0]@.len(),
            expected == packed_lanes(tables@, i as int),
            forall|l: int| 0 <= l < lane ==> (#[trigger] out[l])@ == expected[l],
        decreases 25 - lane,
    {
        let mut row: [F; 64] = [F::zero();64];
        let mut bit: usize = 0;
        while bit < 64
            invariant
                bit <= 64,
                lane < 25,
                are_packed(tables@, tables@[0]@.len()),
                i < tables@[0]@.len(),
                expected == packed_lanes(tables@, i as int),
                forall|c: int| 0 <= c < bit ==> row[c] == expected[lane as int][c],
            decreases 64 - bit,
        {
            let k: usize = lane_bit_index(lane, bit);
            assert(tables@[k as int]@.len() == tables@[0]@.len());
            row[bit] = tables[k][i];
            bit = bit + 1;
        }
        assert(row@ =~= expected[lane as int]);
        out[lane] = row;
        lane = lane + 1;
    }
    assert(lanes_of(out) =~= expected);
    out
}

/// Fixes the highest instance variable of packed tables.
fn fold_packed_tables<F: Field>(tables: &Vec<Vec<F>>, challenge: F) -> (r: Vec<Vec<F>>)
    requires
        are_packed(tables@, tables@[0]@.len()),
    ensures
        are_packed(r@, (tables@[0]@.len() / 2) as nat),
        packed_instances(r@, (tables@[0]@.len() / 2) as nat) == folded_instances(
            packed_instances(tables@, tables@[0]@.len()),
            challenge,
        ),
{
    let ghost n = tables@[0]@.len();
    let mut out: Vec<Vec<F>> = Vec::with_capacity(1600);
    let mut k: usize = 0;
    while k < 1600
        invariant
            k <= 1600,
            n == tables@[0]@.len(),
            are_packed(tables@, n),
            out@.len() == k,
            forall|l: int|
                0 <= l < k ==> (#[trigger] out@[l])@ == folded_high(tables@[l]@, challenge),
        decreases 1600 - k,
    {
        let mut table = copy_vector(tables[k].as_slice());
        fold_highest_var_inplace(&mut table, challenge);
        out.push(table);
        k = k + 1;
    }
    proof {
        let before = packed_instances(tables@, n);
        let expected = folded_instances(before, challenge);
        let packed = packed_instances(out@, n / 2);
        assert forall|k: int| 0 <= k < 1600 implies (#[trigger] out@[k])@.len() == n / 2 by {
            assert(tables@[k]@.len() == n);
        }
        assert forall|j: int| 0 <= j < n / 2 implies packed[j] == expected[j] by {
            assert forall|lane: int| 0 <= lane < 25 implies packed[j][lane] == expected[j][lane] by {
                assert forall|b: int| 0 <= b < 64 implies packed[j][lane][b]
                    == expected[j][lane][b] by {
                    let l = 64 * lane + b;
                    assert(out@[l]@ == folded_high(tables@[l]@, challenge));
                    assert(tables@[l]@.len() == n);
                }
                assert(packed[j][lane] =~= expected[j][lane]);
            }
            assert(packed[j] =~= expected[j]);
        }
        assert(packed =~= expected);
    }
    out
}

/// Returns the value at one and the leading coefficient of the round polynomial of input states.
fn words_round_values<F: BinaryField>(
    input_words: &[State],
    point: &EvalPoint<F>,
    lane_weights: &[F; 25],
    round: usize,
    bit_weights: &[F; 64],
) -> (r: (F, F))
    requires
        round < 24,
        point.coordinates@.len() > 0,
        input_words@.len() == pow2(point.coordinates@.len()),
    ensures
        ({
            let instances = batch_scalars::<F>(batch(input_words@));
            &&& r.0 == quadratic_y_1(
                instances,
                point.coordinates@,
                round_function(lane_weights@, round as int, bit_weights@),
            )
            &&& r.1 == quadratic_y_inf(
                instances,
                point.coordinates@,
                round_function_infinity(lane_weights@, bit_weights@),
            )
        }),
{
    proof {
        lemma_pow2_unfold(point.coordinates@.len());
    }
    let ghost v_1 = values_on(
        upper_half(batch_scalars::<F>(batch(input_words@))),
        round_function(lane_weights@, round as int, bit_weights@),
    );
    let ghost v_inf = values_on(
        half_sums(batch_scalars::<F>(batch(input_words@))),
        round_function_infinity(lane_weights@, bit_weights@),
    );
    let mut y_1: F = F::zero();
    let mut y_inf: F = F::zero();
    let split: usize = input_words.len() / 2;
    let eq_expansion = point.eq_expansion();
    let byte_lookup = bit_weight_byte_lookup(bit_weights);
    let ghost terms_1 = pointwise_times(eq_expansion@, v_1);
    let ghost terms_inf = pointwise_times(eq_expansion@, v_inf);
    let ghost instances = batch_scalars::<F>(batch(input_words@));
    let mut i: usize = 0;
    while i < split
        invariant
            i <= split,
            round < 24,
            input_words@.len() == 2 * split,
            input_words@.len() <= usize::MAX,
            eq_expansion@.len() == split,
            is_byte_lookup(byte_lookup, bit_weights@),
            instances == batch_scalars::<F>(batch(input_words@)),
            v_1 == values_on(
                upper_half(instances),
                round_function(
                    lane_weights@,
                    round as int,
                    bit_weights@,
                ),
            ),
            v_inf == values_on(
                half_sums(instances),
                round_function_infinity(lane_weights@, bit_weights@),
            ),
            terms_1 == pointwise_times(eq_expansion@, v_1),
            terms_inf == pointwise_times(eq_expansion@, v_inf),
            y_1 == sum(terms_1.take(i as int)),
            y_inf == sum(terms_inf.take(i as int)),
        decreases split - i,
    {
        proof {
            lemma_sum_take(terms_1, i as int);
            lemma_sum_take(terms_inf, i as int);
        }
        let (contrib_1, contrib_inf) = fused_chi_linear_word_pair_eval(
            &input_words[i],
            &input_words[split + i],
            lane_weights,
            round,
            &byte_lookup,
            Ghost(bit_weights@),
        );
        y_1 = y_1.add(eq_expansion[i].mul(contrib_1));
        y_inf = y_inf.add(eq_expansion[i].mul(contrib_inf));
        i = i + 1;
    }
    assert(terms_1.take(split as int) =~= terms_1);
    assert(terms_inf.take(split as int) =~= terms_inf);
    (y_1, y_inf)
}

/// Gathers packed tables into one block for each instance.
fn unpack_tables<F: Field>(tables: &Vec<Vec<F>>) -> (r: Vec<Block<F>>)
    requires
        are_packed(tables@, tables@[0]@.len()),
    ensures
        r@.len() == tables@[0]@.len(),
        all_lanes_of(r@) == packed_instances(tables@, tables@[0]@.len()),
{
    let n: usize = tables[0].len();
    let mut out: Vec<Block<F>> = Vec::with_capacity(n);
    let mut i: usize = 0;
    while i < n
        invariant
            i <= n,
            n == tables@[0]@.len(),
            are_packed(tables@, n as nat),
            out@.len() == i,
            forall|j: int| 0 <= j < i ==> lanes_of(#[trigger] out@[j]) == packed_lanes(tables@, j),
        decreases n - i,
    {
        out.push(packed_block(tables, i));
        i = i + 1;
    }
    assert(all_lanes_of(out@) =~= packed_instances(tables@, n as nat));
    out
}

impl<'a, F: BinaryField> PackedOblongSuffixProver<'a, F> {
    /// The coordinates that are still open.
    pub open spec fn point(&self) -> Seq<F> {
        match self.state {
            PackedOblongSuffixState::Words { point, .. } => point.coordinates@,
            PackedOblongSuffixState::Packed { point, .. } => point.coordinates@,
        }
    }

    /// The claim or the pending round polynomial.
    pub open spec fn last(&self) -> RoundCoeffsOrEval<F> {
        match self.state {
            PackedOblongSuffixState::Words { last_coeffs_or_eval, .. } => last_coeffs_or_eval,
            PackedOblongSuffixState::Packed { last_coeffs_or_eval, .. } => last_coeffs_or_eval,
        }
    }

    /// The values of the instances: the bits of the input states before the first fold, and values
    /// before chi afterwards.
    pub open spec fn instances(&self) -> Seq<Seq<Seq<F>>> {
        match self.state {
            PackedOblongSuffixState::Words { input_words, .. } => batch_scalars::<F>(
                batch(input_words@),
            ),
            PackedOblongSuffixState::Packed { pre_chi_bit_tables, point, .. } => packed_instances(
                pre_chi_bit_tables@,
                pow2(point.coordinates@.len()),
            ),
        }
    }

    /// The values of the instances before chi.
    pub open spec fn pre_chi_instances(&self) -> Seq<Seq<Seq<F>>> {
        match self.state {
            PackedOblongSuffixState::Words { input_words, .. } => batch_pre_chi_scalars::<F>(
                batch(input_words@),
            ),
            PackedOblongSuffixState::Packed { .. } => self.instances(),
        }
    }

    /// The function of an instance that the claim is about.
    pub open spec fn function(&self) -> spec_fn(Seq<Seq<F>>) -> F {
        match self.state {
            PackedOblongSuffixState::Words { .. } => round_function(
                self.lane_weights@,
                self.round as int,
                self.bit_weights@,
            ),
            PackedOblongSuffixState::Packed { .. } => chi_function(
                self.lane_weights@,
                self.round as int,
                self.bit_weights@,
            ),
        }
    }

    /// The quadratic part of that function.
    pub open spec fn function_infinity(&self) -> spec_fn(Seq<Seq<F>>) -> F {
        match self.state {
            PackedOblongSuffixState::Words { .. } => round_function_infinity(
                self.lane_weights@,
                self.bit_weights@,
            ),
            PackedOblongSuffixState::Packed { .. } => chi_function_infinity(
                self.lane_weights@,
                self.bit_weights@,
            ),
        }
    }

    /// Whether there is an instance for each vertex of the open variables, and a pending round
    /// polynomial belongs to a variable.
    pub open spec fn is_valid(&self) -> bool {
        &&& self.round < 24
        &&& self.last() is Coeffs ==> self.point().len() > 0
        &&& match self.state {
            PackedOblongSuffixState::Words { input_words, point, .. } => input_words@.len() == pow2(
                point.coordinates@.len(),
            ),
            PackedOblongSuffixState::Packed { pre_chi_bit_tables, point, .. } => are_packed(
                pre_chi_bit_tables@,
                pow2(point.coordinates@.len()),
            ),
        }
    }

    /// The coefficients of the next round polynomial for a claim.
    pub open spec fn round_coeffs(&self, claim: F) -> Seq<F> {
        quadratic_coeffs(
            claim,
            self.point().last(),
            quadratic_y_1(self.instances(), self.point(), self.function()),
            quadratic_y_inf(self.instances(), self.point(), self.function_infinity()),
        )
    }

    /// Whether the weights and the round are the same.
    pub open spec fn same_weights(&self, other: &Self) -> bool {
        &&& self.bit_weights == other.bit_weights
        &&& self.lane_weights == other.lane_weights
        &&& self.round == other.round
    }

    /// Starts the reduction of a claimed value.
    pub fn new(
        input_words: &'a [State],
        bit_weights: [F; 64],
        lane_weights: [F; 25],
        round: usize,
        eval_point: Vec<F>,
        mixed_eval: F,
    ) -> (r: Result<Self, SumcheckError>)
        requires
            round < 24,
        ensures
            input_words@.len() != pow2(eval_point@.len()) ==> r == Err::<Self, SumcheckError>(
                SumcheckError::MultilinearSizeMismatch,
            ),
            input_words@.len() == pow2(eval_point@.len()) ==> (r matches Ok(prover)
                && prover.is_valid() && prover.state is Words && prover.instances()
                == batch_scalars::<F>(batch(input_words@)) && prover.pre_chi_instances()
                == batch_pre_chi_scalars::<F>(batch(input_words@)) && prover.point() == eval_point@
                && prover.last() == RoundCoeffsOrEval::Eval(mixed_eval) && prover.bit_weights
                == bit_weights && prover.lane_weights == lane_weights && prover.round == round),
    {
        if !is_power(input_words.len(), eval_point.len()) {
            return Err(SumcheckError::MultilinearSizeMismatch);
        }
        Ok(
            PackedOblongSuffixProver {
                state: PackedOblongSuffixState::Words {
                    input_words,
                    last_coeffs_or_eval: RoundCoeffsOrEval::Eval(mixed_eval),
                    point: EvalPoint { coordinates: eval_point },
                },
                bit_weights,
                lane_weights,
                round,
            },
        )
    }

    /// Returns the number of variables that are still open.
    pub fn n_vars(&self) -> (r: usize)
        ensures
            r == self.point().len(),
    {
        match &self.state {
            PackedOblongSuffixState::Words { point, .. } => point.n_vars_remaining(),
            PackedOblongSuffixState::Packed { point, .. } => point.n_vars_remaining(),
        }
    }

    /// Returns the number of claims that the reduction is about.
    pub fn n_claims(&self) -> (r: usize)
        ensures
            r == 1,
    {
        1
    }

    /// Returns the coordinates that are still open.
    pub fn eval_point(&self) -> (r: &[F])
        ensures
            r@ == self.point(),
    {
        match &self.state {
            PackedOblongSuffixState::Words { point, .. } => point.coordinates.as_slice(),
            PackedOblongSuffixState::Packed { point, .. } => point.coordinates.as_slice(),
        }
    }

    /// Returns the value at one and the leading coefficient of the next round polynomial.
    fn round_values(&self) -> (r: (F, F))
        requires
            self.is_valid(),
            self.point().len() > 0,
        ensures
            r.0 == quadratic_y_1(self.instances(), self.point(), self.function()),
            r.1 == quadratic_y_inf(self.instances(), self.point(), self.function_infinity()),
    {
        match &self.state {
            PackedOblongSuffixState::Words { input_words, point, .. } => words_round_values(
                input_words,
                point,
                &self.lane_weights,
                self.round,
                &self.bit_weights,
            ),
            PackedOblongSuffixState::Packed { pre_chi_bit_tables, point, .. } => {
                assert(pre_chi_bit_tables@[0]@.len() == pow2(point.coordinates@.len()));
                let blocks = unpack_tables(pre_chi_bit_tables);
                chi_round_values(
                    blocks.as_slice(),
                    point,
                    &self.lane_weights,
                    self.round,
                    &self.bit_weights,
                )
            },
        }
    }

    /// Computes the next round polynomial.
    pub fn execute(&mut self) -> (r: Result<Vec<RoundCoeffs<F>>, SumcheckError>)
        requires
            old(self).is_valid(),
            old(self).last() is Eval ==> old(self).point().len() > 0,
        ensures
            final(self).is_valid(),
            final(self).instances() == old(self).instances(),
            final(self).pre_chi_instances() == old(self).pre_chi_instances(),
            final(self).point() == old(self).point(),
            final(self).state is Words == old(self).state is Words,
            final(self).same_weights(old(self)),
            match old(self).last() {
                RoundCoeffsOrEval::Coeffs(_) => r == Err::<Vec<RoundCoeffs<F>>, SumcheckError>(
                    SumcheckError::ExpectedFold,
                ) && final(self).last() == old(self).last(),
                RoundCoeffsOrEval::Eval(claim) => {
                    &&& r matches Ok(rounds) && rounds@.len() == 1 && rounds@[0].coeffs@ == old(
                        self,
                    ).round_coeffs(claim)
                    &&& final(self).last() matches RoundCoeffsOrEval::Coeffs(pending)
                        && pending.coeffs@ == old(self).round_coeffs(claim)
                },
            },
    {
        let last_eval: F = match &self.state {
            PackedOblongSuffixState::Words { last_coeffs_or_eval, .. } => match last_coeffs_or_eval {
                RoundCoeffsOrEval::Eval(eval) => *eval,
                RoundCoeffsOrEval::Coeffs(_) => {
                    return Err(SumcheckError::ExpectedFold);
                },
            },
            PackedOblongSuffixState::Packed { last_coeffs_or_eval, .. } => match last_coeffs_or_eval {
                RoundCoeffsOrEval::Eval(eval) => *eval,
                RoundCoeffsOrEval::Coeffs(_) => {
                    return Err(SumcheckError::ExpectedFold);
                },
            },
        };
        let (y_1, y_inf) = self.round_values();
        let alpha: F = match &self.state {
            PackedOblongSuffixState::Words { point, .. } => point.next_coordinate(),
            PackedOblongSuffixState::Packed { point, .. } => point.next_coordinate(),
        };
        let round_coeffs = interpolate_round_coeffs(last_eval, alpha, y_1, y_inf);
        let pending = RoundCoeffsOrEval::Coeffs(round_coeffs.copied());
        match &mut self.state {
            PackedOblongSuffixState::Words { last_coeffs_or_eval, .. } => {
                *last_coeffs_or_eval = pending;
            },
            PackedOblongSuffixState::Packed { last_coeffs_or_eval, .. } => {
                *last_coeffs_or_eval = pending;
            },
        }
        let mut out: Vec<RoundCoeffs<F>> = Vec::with_capacity(1);
        out.push(round_coeffs);
        Ok(out)
    }

    /// Fixes the highest open variable to the challenge.
    pub fn fold(&mut self, challenge: F) -> (r: Result<(), SumcheckError>)
        requires
            old(self).is_valid(),
        ensures
            final(self).is_valid(),
            final(self).same_weights(old(self)),
            match old(self).last() {
                RoundCoeffsOrEval::Eval(_) => r == Err::<(), SumcheckError>(
                    SumcheckError::ExpectedExecute,
                ) && *final(self) == *old(self),
                RoundCoeffsOrEval::Coeffs(coeffs) => {
                    &&& r == Ok::<(), SumcheckError>(())
                    &&& final(self).state is Packed
                    &&& final(self).instances() == folded_instances(
                        old(self).pre_chi_instances(),
                        challenge,
                    )
                    &&& final(self).point() == old(self).point().drop_last()
                    &&& final(self).last() == RoundCoeffsOrEval::Eval(
                        polynomial_at(coeffs.coeffs@, challenge),
                    )
                },
            },
    {
        let eval: F = match &self.state {
            PackedOblongSuffixState::Words { last_coeffs_or_eval, .. } => match last_coeffs_or_eval {
                RoundCoeffsOrEval::Coeffs(coeffs) => coeffs.evaluate(challenge),
                RoundCoeffsOrEval::Eval(_) => {
                    return Err(SumcheckError::ExpectedExecute);
                },
            },
            PackedOblongSuffixState::Packed { last_coeffs_or_eval, .. } => match last_coeffs_or_eval {
                RoundCoeffsOrEval::Coeffs(coeffs) => coeffs.evaluate(challenge),
                RoundCoeffsOrEval::Eval(_) => {
                    return Err(SumcheckError::ExpectedExecute);
                },
            },
        };
        proof {
            lemma_pow2_unfold(self.point().len());
        }
        let (pre_chi_bit_tables, mut point) = match &self.state {
            PackedOblongSuffixState::Words { input_words, point, .. } => (
                materialize_folded_pre_chi_bit_tables_from_word_pairs(*input_words, challenge),
                EvalPoint { coordinates: copy_vector(point.coordinates.as_slice()) },
            ),
            PackedOblongSuffixState::Packed { pre_chi_bit_tables, point, .. } => (
                fold_packed_tables(pre_chi_bit_tables, challenge),
                EvalPoint { coordinates: copy_vector(point.coordinates.as_slice()) },
            ),
        };
        point.fold();
        self.state = PackedOblongSuffixState::Packed {
            pre_chi_bit_tables,
            last_coeffs_or_eval: RoundCoeffsOrEval::Eval(eval),
            point,
        };
        Ok(())
    }

    /// Returns the values before chi once all variables are fixed, lane by lane.
    pub fn finish(self) -> (r: Result<Vec<F>, SumcheckError>)
        requires
            self.is_valid(),
        ensures
            self.point().len() > 0 ==> r == Err::<Vec<F>, SumcheckError>(
                match self.last() {
                    RoundCoeffsOrEval::Coeffs(_) => SumcheckError::ExpectedFold,
                    RoundCoeffsOrEval::Eval(_) => SumcheckError::ExpectedExecute,
                },
            ),
            self.point().len() == 0 ==> (r matches Ok(values) && values@ == Seq::new(
                1600,
                |k: int| self.pre_chi_instances()[0][k / 64][k % 64],
            )),
    {
        if self.n_vars() > 0 {
            let pending: bool = match &self.state {
                PackedOblongSuffixState::Words { last_coeffs_or_eval, .. } => matches!(
                    last_coeffs_or_eval,
                    RoundCoeffsOrEval::Coeffs(_)
                ),
                PackedOblongSuffixState::Packed { last_coeffs_or_eval, .. } => matches!(
                    last_coeffs_or_eval,
                    RoundCoeffsOrEval::Coeffs(_)
                ),
            };
            return Err(
                if pending {
                    SumcheckError::ExpectedFold
                } else {
                    SumcheckError::ExpectedExecute
                },
            );
        }
        proof {
            lemma2_to64();
        }
        let ghost expected = Seq::new(
            1600,
            |k: int| self.pre_chi_instances()[0][k / 64][k % 64],
        );
        let mut out: Vec<F> = Vec::with_capacity(1600);
        match &self.state {
            PackedOblongSuffixState::Words { input_words, .. } => {
                let pre_chi_words = pre_chi_words_from_input(&input_words[0]);
                assert(self.pre_chi_instances()[0] == state_scalars::<F>(pre_chi_words@));
                let mut k: usize = 0;
                while k < 1600
                    invariant
                        k <= 1600,
                        expected == Seq::new(
                            1600,
                            |k: int| state_scalars::<F>(pre_chi_words@)[k / 64][k % 64],
                        ),
                        out@ == expected.take(k as int),
                    decreases 1600 - k,
                {
                    let value: F = scalar_bit(pre_chi_words[k / 64], k % 64);
                    out.push(value);
                    k = k + 1;
                }
            },
            PackedOblongSuffixState::Packed { pre_chi_bit_tables, .. } => {
                let mut k: usize = 0;
                while k < 1600
                    invariant
                        k <= 1600,
                        are_packed(pre_chi_bit_tables@, 1),
                        expected == Seq::new(
                            1600,
                            |k: int|
                                packed_instances(pre_chi_bit_tables@, 1)[0][k / 64][k % 64],
                        ),
                        out@ == expected.take(k as int),
                    decreases 1600 - k,
                {
                    assert(pre_chi_bit_tables@[k as int]@.len() == 1);
                    assert(64 * (k as int / 64) + k as int % 64 == k);
                    assert(0 <= k as int / 64 < 25);
                    out.push(pre_chi_bit_tables[k][0]);
                    assert(out@ =~= expected.take(k + 1));
                    k = k + 1;
                }
            },
        }
        assert(expected.take(1600) =~= expected);
        Ok(out)
    }
}

/// Starts the suffix of one fused Keccak round after its first message.
pub fn start_oblong_suffix<'a, F: BinaryField>(
    input_words: &'a [State],
    first_round: &OblongFirstRoundOutput<F>,
    round: usize,
) -> (r: Result<PackedOblongSuffixProver<'a, F>, SumcheckError>)
    requires
        round < 24,
    ensures
        ({
            let point = first_round.output_claim.high_point@;
            if input_words@.len() != pow2(point.len()) {
                r == Err::<PackedOblongSuffixProver<'a, F>, SumcheckError>(
                    SumcheckError::MultilinearSizeMismatch,
                )
            } else {
                r matches Ok(prover) && prover.is_valid() && prover.state is Words
                    && prover.instances() == batch_scalars::<F>(batch(input_words@))
                    && prover.pre_chi_instances() == batch_pre_chi_scalars::<F>(
                    batch(input_words@),
                ) && prover.point() == point && prover.last() == RoundCoeffsOrEval::Eval(
                    first_round.output_claim.mixed_eval,
                ) && prover.bit_weights@ == bit_weights_at(first_round.bit_challenge)
                    && prover.lane_weights == first_round.output_claim.lane_weights
                    && prover.round == round
            }
        }),
{
    let bit_weights = bit_lagrange_weights(first_round.bit_challenge);
    PackedOblongSuffixProver::new(
        input_words,
        bit_weights,
        first_round.output_claim.lane_weights,
        round,
        copy_vector(first_round.output_claim.high_point.as_slice()),
        first_round.output_claim.mixed_eval,
    )
}

/// Ends the prover side of one fused Keccak round with an explicit oblong first-round message,
/// from the bit challenge and the challenges of the suffix rounds.
pub fn prove_fused_round_with_oblong_message<F: BinaryField>(
    input_words: &[State],
    bit_challenge: F,
    challenges: &[F],
) -> (r: FusedRoundOutput<F>)
    requires
        input_words@.len() == pow2(challenges@.len()),
    ensures
        r.reduced_high_point@ == challenges@.reverse(),
        r.input_evals@ == lane_values(
            combined(
                eq_table(challenges@.reverse()),
                batch_scalars::<F>(batch(input_words@)),
            ),
            bit_weights_at(bit_challenge),
        ),
{
    let bit_weights = bit_lagrange_weights(bit_challenge);
    let reduced_high_point = reversed(challenges);
    let input_low_vectors = evaluate_lane_low_vectors_from_words(
        input_words,
        reduced_high_point.as_slice(),
    );
    let input_evals = fold_low_vectors(&input_low_vectors, &bit_weights);
    FusedRoundOutput { reduced_high_point, input_evals }
}

/// Verify one fused Keccak round with an explicit oblong first-round message over the bit index,
/// from the received message, the bit challenge, the challenges of the suffix rounds and the claim
/// that they ended with.
pub fn verify_fused_round_with_oblong_message<F: BinaryField>(
    input_words: &[State],
    output_words: &[State],
    round: usize,
    high_point: &[F],
    lane_weights: [F; 25],
    received_message: &[F; 64],
    bit_challenge: F,
    challenges: &[F],
    eval: F,
) -> (r: Result<FusedRoundOutput<F>, Error>)
    requires
        challenges@.len() == high_point@.len(),
    ensures
        ({
            let n = pow2(high_point@.len());
            let instances = batch_scalars::<F>(batch(input_words@));
            let value = round_function(lane_weights@, round as int, bit_weights_at(bit_challenge))(
                combined(eq_table(challenges@.reverse()), instances),
            );
            if round >= 24 {
                r == Err::<FusedRoundOutput<F>, Error>(Error::InvalidRound(round))
            } else if input_words@.len() != n || output_words@.len() != n {
                r == Err::<FusedRoundOutput<F>, Error>(
                    Error::InvalidClaim(ClaimFault::WordCount),
                )
            } else if !is_oblong_message(
                received_message@,
                batch(input_words@),
                batch(output_words@),
                round as int,
                high_point@,
                lane_weights@,
            ) || value != eval {
                r == Err::<FusedRoundOutput<F>, Error>(Error::InvalidAssert)
            } else {
                r matches Ok(out) && out.reduced_high_point@ == challenges@.reverse()
                    && out.input_evals@ == lane_values(
                    combined(eq_table(challenges@.reverse()), instances),
                    bit_weights_at(bit_challenge),
                )
            }
        }),
{
    let boundary_claim = OblongRoundBoundaryClaim {
        high_point: copy_vector(high_point),
        lane_weights,
    };
    match verify_fused_round_first_message(
        input_words,
        output_words,
        round,
        &boundary_claim,
        received_message,
        bit_challenge,
    ) {
        Ok(first_round) => {
            let reduction = FusedRoundReduction { output_claim: first_round.output_claim, round };
            assert(reduction.output_claim.lane_weights@ == lane_weights@);
            verify_round_from_words(input_words, &reduction, challenges, eval)
        },
        Err(error) => Err(error),
    }
}

} // verus!
