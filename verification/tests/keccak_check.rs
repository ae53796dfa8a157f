//! Traces, rotations and reductions of the Keccak check.

use std::array;
use std::collections::BTreeMap;

use rand::rngs::StdRng;
use rand::{Rng, SeedableRng};

use binary_proofs::field::{BinaryField, Field};
use binary_proofs::ghash::B128;
use binary_proofs::keccak_check::blocks::{
    apply_linear_recipe_to_blocks, evaluate_lane_low_vectors, fold_low_vectors, lane_block_tables,
    mixed_output_from_low_vectors, words_to_block_tables, Block,
};
use binary_proofs::keccak_check::chi_iota::{self, ChiBitIndexedProver, ChiIotaReduction};
use binary_proofs::keccak_check::claims::{
    bit_indexed_lane_claim, bit_indexed_lane_claim_from_words, mixed_claim_from_evals,
    mixed_lane_claim, ClaimFault, Error,
};
use binary_proofs::keccak_check::fused_round::{self, FusedRoundProver, FusedRoundReduction};
use binary_proofs::keccak_check::linear_round::{
    self, materialize_mixed_linear_table, LinearMleCheckProver, LinearRoundReduction,
};
use binary_proofs::keccak_check::oblong_round::{
    bit_weight_byte_lookup, mixed_fused_round_oblong_message_from_words,
    mixed_fused_round_residual_base_from_words, pre_chi_words_from_input,
    prove_fused_round_first_message, prove_fused_round_with_oblong_message, prover_message_domain,
    residual_extension_evals, start_oblong_suffix, verify_fused_round_with_oblong_message,
    OblongRoundBoundaryClaim, PackedOblongSuffixProver,
};
use binary_proofs::keccak_check::protocol::{
    self, KeccakProtocol, ProtocolStep, ProverRound, VerifierRound,
};
use binary_proofs::keccak_check::recipe::{
    add_recipe_count, build_linear_recipe, linear_recipe_static, RotView,
};
use binary_proofs::keccak_check::rotation::{
    bit_lagrange_weights, permute_lane_table_inplace, rot_k_eq_vector, rotate_bit_lagrange_weights,
    rotate_lane_table,
    rotated_bit_lagrange_weights, round_constant_eval, round_constant_from_bit_weights,
    round_constant_table, round_constant_univariate_eval, BIT_INDEX_SIZE, LOG_BIT_INDEX_VARS,
};
use binary_proofs::keccak_check::runs::{
    prove_chi_iota_round, prove_fused_round, prove_linear_round, prove_oblong_round,
    prove_round_from_words,
};
use binary_proofs::keccak_check::trace::{
    chi_iota_words, compact_trace_from_inputs, idx, state_batch_to_lane_tables,
    theta_rho_pi_words, trace_from_inputs, trace_words_from_inputs, CompactTrace, FullTrace,
    LaneTables, RoundTrace, State, RC,
};
use binary_proofs::mlecheck::{RoundCoeffs, SumcheckError};
use binary_proofs::multilinear::{eq_ind_partial_eval, evaluate};

type F = B128;

const ZERO: F = B128 { val: 0 };
const ONE: F = B128 { val: 1 };

fn random_scalar(rng: &mut StdRng) -> F {
    B128::new(rng.random::<u128>())
}

fn random_scalars(rng: &mut StdRng, n: usize) -> Vec<F> {
    (0..n).map(|_| random_scalar(rng)).collect()
}

fn random_state(rng: &mut StdRng) -> State {
    array::from_fn(|_| rng.random::<u64>())
}

fn random_weights(rng: &mut StdRng) -> [F; 25] {
    array::from_fn(|_| random_scalar(rng))
}

fn vertex(n: usize, index: usize) -> Vec<F> {
    (0..n).map(|bit| if (index >> bit) & 1 == 1 { ONE } else { ZERO }).collect()
}

fn bit_domain_element(bit_index: usize) -> F {
    assert!(bit_index < BIT_INDEX_SIZE);
    F::subspace_element(bit_index)
}

fn bit_scalar(word: u64, bit: usize) -> F {
    if (word >> bit) & 1 == 1 {
        ONE
    } else {
        ZERO
    }
}

fn flip(value: F) -> F {
    if value == ZERO {
        ONE
    } else {
        ZERO
    }
}

/// A prover of a multilinear check that fixes one variable per round.
trait RoundProver {
    fn next_round(&mut self) -> RoundCoeffs<F>;
    fn take_challenge(&mut self, challenge: F);
    fn remaining(&self) -> usize;
    fn next_coordinate(&self) -> F;
    fn final_evals(self) -> Vec<F>;
}

impl RoundProver for LinearMleCheckProver<F> {
    fn next_round(&mut self) -> RoundCoeffs<F> {
        self.execute().unwrap().remove(0)
    }
    fn take_challenge(&mut self, challenge: F) {
        self.fold(challenge).unwrap();
    }
    fn remaining(&self) -> usize {
        self.n_vars()
    }
    fn next_coordinate(&self) -> F {
        *self.eval_point().last().unwrap()
    }
    fn final_evals(self) -> Vec<F> {
        self.finish().unwrap()
    }
}

impl RoundProver for ChiBitIndexedProver<F> {
    fn next_round(&mut self) -> RoundCoeffs<F> {
        self.execute().unwrap().remove(0)
    }
    fn take_challenge(&mut self, challenge: F) {
        self.fold(challenge).unwrap();
    }
    fn remaining(&self) -> usize {
        self.n_vars()
    }
    fn next_coordinate(&self) -> F {
        *self.eval_point().last().unwrap()
    }
    fn final_evals(self) -> Vec<F> {
        self.finish().unwrap()
    }
}

impl RoundProver for FusedRoundProver<F> {
    fn next_round(&mut self) -> RoundCoeffs<F> {
        self.execute().unwrap().remove(0)
    }
    fn take_challenge(&mut self, challenge: F) {
        self.fold(challenge).unwrap();
    }
    fn remaining(&self) -> usize {
        self.n_vars()
    }
    fn next_coordinate(&self) -> F {
        *self.eval_point().last().unwrap()
    }
    fn final_evals(self) -> Vec<F> {
        self.finish().unwrap()
    }
}

impl RoundProver for PackedOblongSuffixProver<'_, F> {
    fn next_round(&mut self) -> RoundCoeffs<F> {
        self.execute().unwrap().remove(0)
    }
    fn take_challenge(&mut self, challenge: F) {
        self.fold(challenge).unwrap();
    }
    fn remaining(&self) -> usize {
        self.n_vars()
    }
    fn next_coordinate(&self) -> F {
        *self.eval_point().last().unwrap()
    }
    fn final_evals(self) -> Vec<F> {
        self.finish().unwrap()
    }
}

/// Runs a prover against random challenges: the challenges, the claim that is left and what the
/// prover ends with.
fn run<P: RoundProver>(mut prover: P, claim: F, rng: &mut StdRng) -> (Vec<F>, F, Vec<F>) {
    let mut challenges = Vec::new();
    let mut eval = claim;
    while prover.remaining() > 0 {
        let alpha = prover.next_coordinate();
        let coeffs = prover.next_round();
        let (at_zero, at_one) = (coeffs.evaluate(ZERO), coeffs.evaluate(ONE));
        let mixed = ONE.sub(alpha).mul(at_zero).add(alpha.mul(at_one));
        assert_eq!(mixed, eval);
        let challenge = random_scalar(rng);
        eval = coeffs.evaluate(challenge);
        prover.take_challenge(challenge);
        challenges.push(challenge);
    }
    (challenges, eval, prover.final_evals())
}

fn copy_tables(tables: &LaneTables<F>) -> LaneTables<F> {
    array::from_fn(|lane| tables[lane].clone())
}

fn round_output_words(trace: &CompactTrace, round: usize) -> &[State] {
    if round + 1 < trace.round_inputs.len() {
        &trace.round_inputs[round + 1]
    } else {
        &trace.final_output
    }
}

// Traces

#[test]
fn test_state_batch_to_lane_tables_round_trip() {
    let state: State = array::from_fn(|i| (i as u64).wrapping_mul(0x1020_4081_0204_0811));
    let lane_tables = state_batch_to_lane_tables::<F>(&[state]);

    for lane in 0..25 {
        for bit in 0..64 {
            let point = vertex(6, bit);
            assert_eq!(evaluate(&lane_tables[lane], &point), bit_scalar(state[lane], bit));
        }
    }
}

#[test]
fn test_trace_from_inputs_round_chaining() {
    let mut rng = StdRng::seed_from_u64(0);
    let inputs = vec![random_state(&mut rng), random_state(&mut rng)];

    let word_trace = trace_words_from_inputs(&inputs);
    assert_eq!(word_trace.len(), 24);

    for round in 0..23 {
        assert_eq!(word_trace[round].output, word_trace[round + 1].input);
    }
}

#[test]
fn test_compact_trace_matches_word_trace() {
    let mut rng = StdRng::seed_from_u64(2);
    let inputs = vec![random_state(&mut rng), random_state(&mut rng)];

    let compact = compact_trace_from_inputs(&inputs);
    let word_trace = trace_words_from_inputs(&inputs);

    assert_eq!(compact.round_inputs.len(), 24);
    for round in 0..24 {
        assert_eq!(compact.round_inputs[round], word_trace[round].input);
    }
    assert_eq!(compact.final_output, word_trace[23].output);
    assert_eq!(compact.n_instances(), 2);
    assert_eq!(compact.log_n_instances(), 1);
}

#[test]
fn test_trace_from_inputs_tables_have_expected_dimension() {
    let mut rng = StdRng::seed_from_u64(1);
    let inputs: Vec<State> = (0..4).map(|_| random_state(&mut rng)).collect();

    let trace = trace_from_inputs::<F>(&inputs);
    assert_eq!(trace.rounds.len(), 24);
    assert!(trace.rounds.iter().all(|round| {
        round.input.iter().all(|lane| lane.len() == 1 << 8)
            && round.pre_chi.iter().all(|lane| lane.len() == 1 << 8)
    }));
    assert!(trace.final_output.iter().all(|lane| lane.len() == 1 << 8));

    for round in 0..23 {
        assert_eq!(trace.round_output(round), &trace.rounds[round + 1].input);
    }
    assert_eq!(trace.round_output(23), &trace.final_output);

    let point = random_scalars(&mut rng, 8);
    let _ = evaluate(&trace.rounds[0].input[0], &point);
}

#[test]
fn permutation_of_the_zero_state() {
    let trace = compact_trace_from_inputs(&[[0u64; 25]]);
    assert_eq!(trace.final_output[0][0], 0xf125_8f79_40e1_dde7);
    assert_eq!(trace.final_output[0][1], 0x84d5_ccf9_33c0_478a);
    assert_eq!(trace.final_output[0][24], 0xeaf1_ff7b_5cec_a249);
}

#[test]
fn steps_of_a_round() {
    assert_eq!(idx(3, 2), 13);
    let mut state = [0u64; 25];
    chi_iota_words(&mut state, 1);
    assert_eq!(state[0], RC[1]);
    assert!(state[1..].iter().all(|&lane| lane == 0));
    let mut state = [0u64; 25];
    state[0] = 1;
    let mut moved = state;
    theta_rho_pi_words(&mut moved);
    assert_eq!(moved[0], 1);
    assert_eq!(pre_chi_words_from_input(&state), moved);
}

// Rotations and round constants

#[test]
fn test_rot_k_eq_vector_matches_bruteforce() {
    let mut rng = StdRng::seed_from_u64(2);
    let alpha: [F; 6] = array::from_fn(|_| random_scalar(&mut rng));

    for k in 0..64u32 {
        let actual = rot_k_eq_vector(&alpha, k);
        let expected: [F; 64] = array::from_fn(|c| {
            let sigma_k_c = vertex(6, (c + k as usize) % 64);
            alpha.iter().zip(&sigma_k_c).fold(ONE, |acc, (&a, &s)| {
                acc.mul(ONE.sub(a).mul(ONE.sub(s)).add(a.mul(s)))
            })
        });
        assert_eq!(actual, expected, "rotation predicate mismatch at k={k}");
    }
}

#[test]
fn test_rotate_lane_table_matches_rotate_left_on_boolean_points() {
    let lane_word = 0xDEAD_BEEF_0123_4567u64;
    let lane_table = state_batch_to_lane_tables::<F>(&[[lane_word; 25]])[0].clone();

    for k in 0..64u32 {
        let rotated = rotate_lane_table(&lane_table, k);
        let expected_word = lane_word.rotate_left(k);

        for bit in 0..64 {
            let point = vertex(6, bit);
            assert_eq!(
                evaluate(&rotated, &point),
                bit_scalar(expected_word, bit),
                "rotated lane mismatch at k={k}, bit={bit}"
            );
        }
    }
}

#[test]
fn rotating_in_place_moves_bits_up() {
    let mut lane: Vec<F> = (0..128).map(|i| B128::new(i as u128)).collect();
    let copy = rotate_lane_table(&lane, 3);
    permute_lane_table_inplace(&mut lane, 3);
    assert_eq!(lane, copy);
    assert_eq!(lane[3].val, 0);
    assert_eq!(lane[0].val, 61);
    assert_eq!(lane[67].val, 64);
    assert_eq!(lane[64].val, 125);
}

#[test]
fn message_domain_is_the_bit_domain_and_its_shift() {
    let domain = prover_message_domain::<F>();
    assert_eq!(domain.len(), 128);
    for i in 0..64 {
        assert_eq!(domain[i], bit_domain_element(i));
        assert_eq!(domain[64 + i].val, domain[i].val ^ domain[64].val);
    }
    assert_ne!(domain[64], domain[0]);
}

#[test]
fn test_round_constant_eval_matches_table_evaluation() {
    let mut rng = StdRng::seed_from_u64(3);

    for round in [0usize, 7, 23] {
        let table = round_constant_table::<F>(round, 0);
        let point = random_scalars(&mut rng, 6);
        assert_eq!(evaluate(&table, &point), round_constant_eval(round, &point));
    }
}

#[test]
fn test_bit_lagrange_weights_matches_direct_helper() {
    let mut rng = StdRng::seed_from_u64(16);
    let z_bit = random_scalar(&mut rng);
    let actual = bit_lagrange_weights(z_bit);
    let domain: Vec<F> = (0..BIT_INDEX_SIZE).map(bit_domain_element).collect();
    let expected: [F; BIT_INDEX_SIZE] = array::from_fn(|i| {
        let mut numerator = ONE;
        let mut denominator = ONE;
        for j in 0..BIT_INDEX_SIZE {
            if j != i {
                numerator = numerator.mul(z_bit.sub(domain[j]));
                denominator = denominator.mul(domain[i].sub(domain[j]));
            }
        }
        numerator.mul(denominator.invert_or_zero())
    });

    assert_eq!(actual, expected);
}

#[test]
fn test_rotated_bit_lagrange_weights_match_rotated_lane_evaluation() {
    let lane_word = 0xDEAD_BEEF_0123_4567u64;
    let lane_table = state_batch_to_lane_tables::<F>(&[[lane_word; 25]])[0].clone();

    for rotation in [0u32, 1, 7, 13, 63] {
        let rotated_table = rotate_lane_table(&lane_table, rotation);
        for bit_index in [0usize, 1, 17, 63] {
            let z_bit = bit_domain_element(bit_index);
            let rotated_weights = rotated_bit_lagrange_weights(z_bit, rotation);
            let expected = rotated_weights
                .iter()
                .enumerate()
                .fold(ZERO, |acc, (bit, &weight)| acc.add(weight.mul(bit_scalar(lane_word, bit))));
            let point = vertex(LOG_BIT_INDEX_VARS, bit_index);
            let actual = evaluate(&rotated_table, &point);
            assert_eq!(
                actual, expected,
                "rotated bit weights mismatch at rotation={rotation}, bit_index={bit_index}"
            );
            let weights = bit_lagrange_weights(z_bit);
            assert_eq!(rotate_bit_lagrange_weights(&weights, rotation), rotated_weights);
        }
    }
}

#[test]
fn test_round_constant_univariate_eval_selects_boolean_domain_point() {
    for round in [0usize, 7, 23] {
        for bit_index in [0usize, 1, 17, 63] {
            let z_bit = bit_domain_element(bit_index);
            let expected = bit_scalar(RC[round], bit_index);
            assert_eq!(round_constant_univariate_eval(round, z_bit), expected);
            let weights = bit_lagrange_weights(z_bit);
            assert_eq!(round_constant_from_bit_weights(round, &weights), expected);
        }
    }
}

// The linear part of a round

#[test]
fn test_build_linear_recipe_has_expected_unique_view_count() {
    let (rot_views, recipe) = build_linear_recipe::<F>();
    assert_eq!(rot_views.len(), 274);
    assert_eq!(recipe.iter().map(Vec::len).sum::<usize>(), 275);
}

#[test]
fn test_linear_recipe_reconstructs_pre_chi_on_boolean_points() {
    let mut rng = StdRng::seed_from_u64(7);
    let input_state = random_state(&mut rng);
    let trace = trace_from_inputs::<F>(&[input_state]);
    let round_trace = &trace.rounds[0];

    for lane in 0..25 {
        let lane_weights: [F; 25] =
            array::from_fn(|weight_lane| if weight_lane == lane { ONE } else { ZERO });
        for bit in 0..64 {
            let bit_challenge = bit_domain_element(bit);
            let bit_weights = bit_lagrange_weights(bit_challenge);
            let reconstructed =
                materialize_mixed_linear_table(&round_trace.input, &bit_weights, lane_weights);
            let expected =
                bit_indexed_lane_claim(&round_trace.pre_chi, bit_challenge, &[], lane_weights);
            assert_eq!(
                reconstructed[0], expected.mixed_eval,
                "mismatch on lane={lane}, bit={bit}"
            );
        }
    }
}

#[test]
fn recipe_rebuilds_words_by_exclusive_or() {
    let mut rng = StdRng::seed_from_u64(70);
    let recipe = linear_recipe_static();
    let state = random_state(&mut rng);
    let mut image = state;
    theta_rho_pi_words(&mut image);
    for (lane, counts) in recipe.recipe_counts.iter().enumerate() {
        let word = counts
            .iter()
            .filter(|(_, count)| count % 2 == 1)
            .map(|&(view, _)| recipe.rot_views[view])
            .fold(0, |acc, view| acc ^ state[view.lane].rotate_left(view.rot));
        assert_eq!(word, image[lane]);
        assert_eq!(counts.iter().map(|&(_, count)| u32::from(count)).sum::<u32>(), 11);
    }
    for (place, rot) in recipe.unique_rotations.iter().enumerate() {
        assert_eq!(recipe.rotation_index.get(rot), Some(&place));
    }
    assert_eq!(recipe.rotation_index.len(), recipe.unique_rotations.len());
}

#[test]
fn counting_a_view_changes_its_own_count_alone() {
    let mut indices = BTreeMap::new();
    let mut views = Vec::new();
    let mut counts = BTreeMap::new();
    let (a, b) = (RotView { lane: 3, rot: 5 }, RotView { lane: 5, rot: 3 });
    for view in [a, b, a] {
        add_recipe_count(&mut indices, &mut views, &mut counts, view);
    }
    assert_eq!(views, vec![a, b]);
    assert_eq!(counts, BTreeMap::from([(0, 2), (1, 1)]));
    assert_eq!(indices.len(), 2);
    let mut others = BTreeMap::new();
    add_recipe_count(&mut indices, &mut views, &mut others, b);
    assert_eq!(views, vec![a, b]);
    assert_eq!(others, BTreeMap::from([(1, 1)]));
}

#[test]
fn linear_steps_are_linear_and_lose_nothing() {
    let mut rng = StdRng::seed_from_u64(71);
    let image = |mut state: State| {
        theta_rho_pi_words(&mut state);
        state
    };
    let (a, b) = (random_state(&mut rng), random_state(&mut rng));
    let sum: State = array::from_fn(|lane| a[lane] ^ b[lane]);
    let images: State = array::from_fn(|lane| image(a)[lane] ^ image(b)[lane]);
    assert_eq!(image(sum), images);
    assert_eq!(image([0; 25]), [0; 25]);
    assert_ne!(image(a), image(b));
    assert_ne!(image([u64::MAX; 25]), [0; 25]);
}

#[test]
fn test_linear_round_prove_verify() {
    let mut rng = StdRng::seed_from_u64(8);
    let inputs = vec![random_state(&mut rng), random_state(&mut rng)];
    let trace = trace_from_inputs::<F>(&inputs);
    let round_trace = &trace.rounds[0];
    let bit_challenge = random_scalar(&mut rng);
    let high_point = random_scalars(&mut rng, 1);
    let lane_weights = random_weights(&mut rng);
    let pre_chi_claim =
        bit_indexed_lane_claim(&round_trace.pre_chi, bit_challenge, &high_point, lane_weights);
    let claim = pre_chi_claim.mixed_eval;
    let reduction = LinearRoundReduction { pre_chi_claim };

    let prover = linear_round::start_round(&round_trace.input, &reduction).unwrap();
    let (challenges, eval, evals) = run(prover, claim, &mut rng);
    let prover_output =
        linear_round::prove_round(&round_trace.input, &reduction, &challenges, &evals).unwrap();
    let verifier_output =
        linear_round::verify_round(&round_trace.input, &reduction, &challenges, eval).unwrap();

    assert_eq!(prover_output, verifier_output);
    let bit_weights = bit_lagrange_weights(bit_challenge);
    assert_eq!(
        prover_output.reduced_eval,
        evaluate(
            &materialize_mixed_linear_table(
                &round_trace.input,
                &bit_weights,
                reduction.pre_chi_claim.lane_weights,
            ),
            &prover_output.reduced_high_point
        )
    );
}

#[test]
fn test_linear_round_rejects_corrupted_input() {
    let mut rng = StdRng::seed_from_u64(9);
    let inputs: Vec<State> = (0..4).map(|_| random_state(&mut rng)).collect();
    let trace = trace_from_inputs::<F>(&inputs);
    let round_trace = &trace.rounds[0];
    let bit_challenge = random_scalar(&mut rng);
    let high_point = random_scalars(&mut rng, 2);
    let lane_weights = random_weights(&mut rng);
    let pre_chi_claim =
        bit_indexed_lane_claim(&round_trace.pre_chi, bit_challenge, &high_point, lane_weights);
    let claim = pre_chi_claim.mixed_eval;
    let reduction = LinearRoundReduction { pre_chi_claim };

    let mut corrupted_input = copy_tables(&round_trace.input);
    for scalar_index in [0usize, 64, 128] {
        corrupted_input[0][scalar_index] = flip(corrupted_input[0][scalar_index]);
    }

    let prover = linear_round::start_round(&corrupted_input, &reduction).unwrap();
    let (challenges, eval, evals) = run(prover, claim, &mut rng);
    linear_round::prove_round(&corrupted_input, &reduction, &challenges, &evals).unwrap();

    assert!(
        linear_round::verify_round(&round_trace.input, &reduction, &challenges, eval).is_err()
    );
}

#[test]
fn linear_round_refuses_bad_claims() {
    let mut rng = StdRng::seed_from_u64(60);
    let trace = trace_from_inputs::<F>(&[random_state(&mut rng)]);
    let input = &trace.rounds[0].input;
    let weights = random_weights(&mut rng);
    let mut pre_chi_claim = bit_indexed_lane_claim(&trace.rounds[0].pre_chi, ONE, &[], weights);
    pre_chi_claim.high_point.push(ONE);
    let reduction = LinearRoundReduction { pre_chi_claim };
    assert_eq!(
        linear_round::validate_reduction(input, &reduction),
        Err(Error::InvalidClaim(ClaimFault::HighPointLength))
    );
    let mut uneven = copy_tables(input);
    uneven[3] = vec![ZERO; 128];
    let reduction = LinearRoundReduction {
        pre_chi_claim: bit_indexed_lane_claim(&trace.rounds[0].pre_chi, ONE, &[], weights),
    };
    assert_eq!(
        linear_round::validate_reduction(&uneven, &reduction),
        Err(Error::InvalidClaim(ClaimFault::InputDimensions))
    );
    let small: LaneTables<F> = array::from_fn(|_| vec![ZERO; 32]);
    assert_eq!(
        linear_round::validate_reduction(&small, &reduction),
        Err(Error::InvalidClaim(ClaimFault::LaneTablesTooSmall))
    );
}

#[test]
fn provers_refuse_steps_out_of_turn() {
    let mut rng = StdRng::seed_from_u64(61);
    let table = random_scalars(&mut rng, 4);
    let point = random_scalars(&mut rng, 2);
    let claim = evaluate(&table, &point);
    let mut prover = LinearMleCheckProver::new(table.clone(), point.clone(), claim).unwrap();
    assert_eq!(prover.n_claims(), 1);
    assert_eq!(prover.fold(ONE), Err(SumcheckError::ExpectedExecute));
    prover.execute().unwrap();
    assert_eq!(prover.execute().err(), Some(SumcheckError::ExpectedFold));
    let challenge = random_scalar(&mut rng);
    prover.fold(challenge).unwrap();
    prover.execute().unwrap();
    assert_eq!(prover.finish().err(), Some(SumcheckError::ExpectedFold));
    assert_eq!(
        LinearMleCheckProver::new(table, vec![ONE], claim).err(),
        Some(SumcheckError::MultilinearSizeMismatch)
    );
}

// Chi and iota

#[test]
fn test_one_round_chi_iota_prove_verify() {
    let mut rng = StdRng::seed_from_u64(4);
    let inputs = vec![random_state(&mut rng), random_state(&mut rng)];
    let trace = trace_from_inputs::<F>(&inputs);
    let round_trace = &trace.rounds[0];
    let output = trace.round_output(0);

    let bit_challenge = random_scalar(&mut rng);
    let high_point = random_scalars(&mut rng, 1);
    let lane_weights = random_weights(&mut rng);
    let output_claim = bit_indexed_lane_claim(output, bit_challenge, &high_point, lane_weights);
    let claim = output_claim.mixed_eval;
    let reduction = ChiIotaReduction { output_claim, round: 0 };

    let prover = chi_iota::start_round(output, &round_trace.pre_chi, &reduction).unwrap();
    let (challenges, eval, evals) = run(prover, claim, &mut rng);
    let prover_output = chi_iota::prove_round(output, &reduction, &challenges, &evals).unwrap();
    let verifier_output =
        chi_iota::verify_round(output, &round_trace.pre_chi, &reduction, &challenges, eval)
            .unwrap();

    assert_eq!(prover_output, verifier_output);
    let bit_weights = bit_lagrange_weights(bit_challenge);
    let expected_pre_chi = fold_low_vectors(
        &evaluate_lane_low_vectors(&round_trace.pre_chi, &prover_output.reduced_high_point),
        &bit_weights,
    );
    assert_eq!(prover_output.pre_chi_evals, expected_pre_chi);
}

#[test]
fn test_one_round_chi_iota_rejects_corrupted_pre_chi() {
    let mut rng = StdRng::seed_from_u64(5);
    let inputs = vec![random_state(&mut rng), random_state(&mut rng)];
    let trace = trace_from_inputs::<F>(&inputs);
    let round_trace = &trace.rounds[0];
    let output = trace.round_output(0);

    let mut corrupted_pre_chi = copy_tables(&round_trace.pre_chi);
    corrupted_pre_chi[0][0] = flip(corrupted_pre_chi[0][0]);

    let bit_challenge = random_scalar(&mut rng);
    let high_point = random_scalars(&mut rng, 1);
    let lane_weights = random_weights(&mut rng);
    let output_claim = bit_indexed_lane_claim(output, bit_challenge, &high_point, lane_weights);
    let claim = output_claim.mixed_eval;
    let reduction = ChiIotaReduction { output_claim, round: 0 };

    let prover = chi_iota::start_round(output, &corrupted_pre_chi, &reduction).unwrap();
    let (challenges, eval, evals) = run(prover, claim, &mut rng);
    chi_iota::prove_round(output, &reduction, &challenges, &evals).unwrap();

    assert!(
        chi_iota::verify_round(output, &round_trace.pre_chi, &reduction, &challenges, eval)
            .is_err()
    );
}

#[test]
fn test_one_round_chi_iota_domain_point_matches_folded_output_eval() {
    let mut rng = StdRng::seed_from_u64(6);
    let input_state = random_state(&mut rng);
    let trace = trace_from_inputs::<F>(&[input_state]);
    let round_trace = &trace.rounds[0];
    let output = trace.round_output(0);
    let bit_challenge = bit_domain_element(17);
    let lane_weights = random_weights(&mut rng);
    let output_claim = bit_indexed_lane_claim(output, bit_challenge, &[], lane_weights);
    let claim = output_claim.mixed_eval;
    let reduction = ChiIotaReduction { output_claim, round: 0 };

    let prover = chi_iota::start_round(output, &round_trace.pre_chi, &reduction).unwrap();
    let (challenges, _, evals) = run(prover, claim, &mut rng);
    let prover_output = chi_iota::prove_round(output, &reduction, &challenges, &evals).unwrap();

    assert_eq!(
        prover_output.reduced_eval,
        mixed_output_from_low_vectors(
            &evaluate_lane_low_vectors(output, &prover_output.reduced_high_point),
            &reduction.output_claim.lane_weights,
            &bit_lagrange_weights(bit_challenge),
        )
    );
}

#[test]
fn chi_iota_refuses_bad_claims() {
    let mut rng = StdRng::seed_from_u64(62);
    let trace = trace_from_inputs::<F>(&[random_state(&mut rng)]);
    let output = trace.round_output(0);
    let pre_chi = &trace.rounds[0].pre_chi;
    let weights = random_weights(&mut rng);
    let claim = bit_indexed_lane_claim(output, ONE, &[], weights);
    let reduction = ChiIotaReduction { output_claim: claim.copied(), round: 24 };
    assert_eq!(
        chi_iota::validate_reduction(output, pre_chi, &reduction),
        Err(Error::InvalidRound(24))
    );
    let small: LaneTables<F> = array::from_fn(|_| vec![ZERO; 128]);
    let reduction = ChiIotaReduction { output_claim: claim.copied(), round: 0 };
    assert_eq!(
        chi_iota::validate_reduction(&small, pre_chi, &reduction),
        Err(Error::InvalidClaim(ClaimFault::OutputDimensions))
    );
    assert_eq!(
        chi_iota::validate_reduction(output, &small, &reduction),
        Err(Error::InvalidClaim(ClaimFault::PreChiDimensions))
    );
    let mut wrong = claim.copied();
    wrong.mixed_eval = wrong.mixed_eval.add(ONE);
    let reduction = ChiIotaReduction { output_claim: wrong, round: 0 };
    assert_eq!(
        chi_iota::validate_output_claim_against_tables(output, &reduction),
        Err(Error::InvalidClaim(ClaimFault::OutputClaim))
    );
    let reduction = ChiIotaReduction { output_claim: claim, round: 0 };
    assert_eq!(
        chi_iota::prove_round(output, &reduction, &[], &[ONE]).err(),
        Some(Error::InvalidClaim(ClaimFault::EvaluationCount))
    );
}

// Whole rounds

#[test]
fn test_fused_round_prove_verify() {
    let mut rng = StdRng::seed_from_u64(20);
    let inputs = vec![random_state(&mut rng), random_state(&mut rng)];
    let trace = trace_from_inputs::<F>(&inputs);
    let output = trace.round_output(0);

    let bit_challenge = random_scalar(&mut rng);
    let high_point = random_scalars(&mut rng, 1);
    let lane_weights = random_weights(&mut rng);
    let output_claim = bit_indexed_lane_claim(output, bit_challenge, &high_point, lane_weights);
    let claim = output_claim.mixed_eval;
    let reduction = FusedRoundReduction { output_claim, round: 0 };

    let prover = fused_round::start_round(&trace.rounds[0].input, &reduction).unwrap();
    let (challenges, eval, evals) = run(prover, claim, &mut rng);
    let prover_output = fused_round::prove_round(&challenges, &evals).unwrap();
    let verifier_output =
        fused_round::verify_round(&trace.rounds[0].input, &reduction, &challenges, eval).unwrap();

    assert_eq!(prover_output, verifier_output);
    let words_output =
        fused_round::verify_round_from_words(&inputs, &reduction, &challenges, eval).unwrap();
    assert_eq!(words_output, verifier_output);
}

#[test]
fn test_fused_round_rejects_corrupted_input() {
    let mut rng = StdRng::seed_from_u64(21);
    let inputs = vec![random_state(&mut rng), random_state(&mut rng)];
    let trace = trace_from_inputs::<F>(&inputs);
    let output = trace.round_output(0);

    let mut corrupted_input = copy_tables(&trace.rounds[0].input);
    corrupted_input[0][0] = flip(corrupted_input[0][0]);

    let bit_challenge = random_scalar(&mut rng);
    let high_point = random_scalars(&mut rng, 1);
    let lane_weights = random_weights(&mut rng);
    let output_claim = bit_indexed_lane_claim(output, bit_challenge, &high_point, lane_weights);
    let claim = output_claim.mixed_eval;
    let reduction = FusedRoundReduction { output_claim, round: 0 };

    let prover = fused_round::start_round(&corrupted_input, &reduction).unwrap();
    let (challenges, eval, evals) = run(prover, claim, &mut rng);
    fused_round::prove_round(&challenges, &evals).unwrap();

    assert_eq!(
        fused_round::verify_round(&trace.rounds[0].input, &reduction, &challenges, eval).err(),
        Some(Error::InvalidAssert)
    );
}

#[test]
fn test_apply_linear_recipe_matches_explicit_pre_chi() {
    let mut rng = StdRng::seed_from_u64(22);
    let input_state = random_state(&mut rng);
    let trace = trace_from_inputs::<F>(&[input_state]);
    let input_blocks = lane_block_tables(&trace.rounds[0].input);
    let pre_chi_blocks = lane_block_tables(&trace.rounds[0].pre_chi);

    let recipe = linear_recipe_static();
    let computed_pre_chi: Block<F> = apply_linear_recipe_to_blocks(&recipe, &input_blocks[0]);

    assert_eq!(computed_pre_chi, pre_chi_blocks[0]);
    assert_eq!(words_to_block_tables::<F>(&[input_state]), input_blocks);
}

#[test]
fn fused_round_from_words_matches_tables() {
    let mut rng = StdRng::seed_from_u64(63);
    let inputs = vec![random_state(&mut rng), random_state(&mut rng)];
    let trace = trace_from_inputs::<F>(&inputs);
    let point = random_scalars(&mut rng, 1);
    let weights = random_weights(&mut rng);
    let bit_challenge = random_scalar(&mut rng);
    let by_tables = bit_indexed_lane_claim(&trace.rounds[0].input, bit_challenge, &point, weights);
    let by_words = bit_indexed_lane_claim_from_words(&inputs, bit_challenge, &point, weights);
    assert_eq!(by_tables, by_words);
    let reduction = FusedRoundReduction { output_claim: by_words, round: 30 };
    assert_eq!(
        fused_round::validate_reduction_from_words(&inputs, &reduction),
        Err(Error::InvalidRound(30))
    );
    let reduction = FusedRoundReduction { output_claim: by_tables, round: 3 };
    assert_eq!(
        fused_round::validate_reduction_from_words(&inputs[..1], &reduction),
        Err(Error::InvalidClaim(ClaimFault::WordCount))
    );
}

#[test]
fn mixed_claims_add_up() {
    let mut rng = StdRng::seed_from_u64(64);
    let trace = trace_from_inputs::<F>(&[random_state(&mut rng)]);
    let point = random_scalars(&mut rng, 6);
    let weights = random_weights(&mut rng);
    let claim = mixed_lane_claim(&trace.final_output, &point, weights);
    let total = claim
        .lane_evals
        .iter()
        .zip(&weights)
        .fold(ZERO, |acc, (&e, &w)| acc.add(w.mul(e)));
    assert_eq!(claim.mixed_eval, total);
    assert_eq!(claim.lane_evals[7], evaluate(&trace.final_output[7], &point));
    let again = mixed_claim_from_evals(point, weights, claim.lane_evals);
    assert_eq!(again, claim);
}

// Rounds with a message over the bit domain

#[test]
fn test_mixed_fused_round_residual_vanishes_on_valid_trace() {
    let mut rng = StdRng::seed_from_u64(17);
    let inputs = vec![random_state(&mut rng), random_state(&mut rng)];
    let trace = compact_trace_from_inputs(&inputs);
    let round = 7;
    let high_point = random_scalars(&mut rng, 1);
    let lane_weights = [ONE; 25];

    let residual = mixed_fused_round_residual_base_from_words(
        &trace.round_inputs[round],
        round_output_words(&trace, round),
        round,
        &high_point,
        &lane_weights,
    )
    .unwrap();
    let extension_evals = residual_extension_evals(&residual);

    assert!(residual.iter().all(|&value| value == ZERO));
    assert!(extension_evals.iter().all(|&value| value == ZERO));
}

#[test]
fn test_mixed_fused_round_residual_detects_corrupted_output() {
    let mut rng = StdRng::seed_from_u64(23);
    let inputs = vec![random_state(&mut rng), random_state(&mut rng)];
    let trace = compact_trace_from_inputs(&inputs);
    let round = 3;
    let high_point = random_scalars(&mut rng, 1);
    let lane_weights = [ONE; 25];
    let mut corrupted_output = round_output_words(&trace, round).to_vec();
    corrupted_output[0][0] ^= 1;

    let residual = mixed_fused_round_residual_base_from_words(
        &trace.round_inputs[round],
        &corrupted_output,
        round,
        &high_point,
        &lane_weights,
    )
    .unwrap();
    let extension_evals = mixed_fused_round_oblong_message_from_words(
        &trace.round_inputs[round],
        &corrupted_output,
        round,
        &high_point,
        &lane_weights,
    )
    .unwrap();

    assert!(residual.iter().any(|&value| value != ZERO));
    assert!(extension_evals.iter().any(|&value| value != ZERO));
}

#[test]
fn test_oblong_message_matches_zero_extension_for_valid_trace() {
    let mut rng = StdRng::seed_from_u64(29);
    let inputs = vec![random_state(&mut rng)];
    let trace = compact_trace_from_inputs(&inputs);
    let round = 23;
    let lane_weights = random_weights(&mut rng);

    let extension_evals = mixed_fused_round_oblong_message_from_words(
        &trace.round_inputs[round],
        round_output_words(&trace, round),
        round,
        &[],
        &lane_weights,
    )
    .unwrap();

    assert!(extension_evals.iter().all(|&value| value == ZERO));
}

#[test]
fn test_prove_verify_fused_round_with_oblong_message() {
    let mut rng = StdRng::seed_from_u64(31);
    let inputs = vec![random_state(&mut rng), random_state(&mut rng)];
    let trace = compact_trace_from_inputs(&inputs);
    let round = 0;
    let high_point = random_scalars(&mut rng, 1);
    let lane_weights = random_weights(&mut rng);
    let input_words = &trace.round_inputs[round];
    let output_words = round_output_words(&trace, round);

    let message = mixed_fused_round_oblong_message_from_words(
        input_words,
        output_words,
        round,
        &high_point,
        &lane_weights,
    )
    .unwrap();
    let bit_challenge = random_scalar(&mut rng);
    let boundary = OblongRoundBoundaryClaim { high_point: high_point.clone(), lane_weights };
    let first = prove_fused_round_first_message(output_words, &boundary, bit_challenge);
    let prover = start_oblong_suffix(input_words, &first, round).unwrap();
    let (challenges, eval, evals) = run(prover, first.output_claim.mixed_eval, &mut rng);
    let prover_output =
        prove_fused_round_with_oblong_message(input_words, bit_challenge, &challenges);
    let verifier_output = verify_fused_round_with_oblong_message(
        input_words,
        output_words,
        round,
        &high_point,
        lane_weights,
        &message,
        bit_challenge,
        &challenges,
        eval,
    )
    .unwrap();

    assert_eq!(prover_output, verifier_output);
    assert!(!evals.is_empty());
}

#[test]
fn test_oblong_message_round_rejects_corrupted_output() {
    let mut rng = StdRng::seed_from_u64(37);
    let inputs = vec![random_state(&mut rng), random_state(&mut rng)];
    let trace = compact_trace_from_inputs(&inputs);
    let round = 0;
    let high_point = random_scalars(&mut rng, 1);
    let lane_weights = random_weights(&mut rng);
    let input_words = &trace.round_inputs[round];
    let output_words = round_output_words(&trace, round);
    let mut corrupted_output = output_words.to_vec();
    corrupted_output[0][0] ^= 1;

    let message = mixed_fused_round_oblong_message_from_words(
        input_words,
        output_words,
        round,
        &high_point,
        &lane_weights,
    )
    .unwrap();
    let bit_challenge = random_scalar(&mut rng);
    let boundary = OblongRoundBoundaryClaim { high_point: high_point.clone(), lane_weights };
    let first = prove_fused_round_first_message(output_words, &boundary, bit_challenge);
    let prover = start_oblong_suffix(input_words, &first, round).unwrap();
    let (challenges, eval, _) = run(prover, first.output_claim.mixed_eval, &mut rng);

    assert!(verify_fused_round_with_oblong_message(
        input_words,
        &corrupted_output,
        round,
        &high_point,
        lane_weights,
        &message,
        bit_challenge,
        &challenges,
        eval,
    )
    .is_err());
}

#[test]
fn byte_lookup_sums_weights() {
    let mut rng = StdRng::seed_from_u64(65);
    let weights: [F; 64] = array::from_fn(|_| random_scalar(&mut rng));
    let lookup = bit_weight_byte_lookup(&weights);
    for (byte_index, value) in [(0usize, 0usize), (3, 0b1010_0110), (7, 255)] {
        let expected = (0..8)
            .filter(|bit| (value >> bit) & 1 == 1)
            .fold(ZERO, |acc, bit| acc.add(weights[8 * byte_index + bit]));
        assert_eq!(lookup[byte_index][value], expected);
    }
}

// The whole permutation

/// Runs the protocol over the tables of a trace: what the prover and the verifier record.
fn run_protocol(
    trace: &FullTrace<F>,
    bit_challenge: F,
    high_point: &[F],
    weights: [F; 25],
    rng: &mut StdRng,
) -> (Vec<ProverRound<F>>, Vec<VerifierRound<F>>) {
    let mut prover_rounds = Vec::new();
    let mut verifier_rounds = Vec::new();
    let mut state = KeccakProtocol::start(trace, bit_challenge, high_point, weights).unwrap();
    loop {
        let (chi_challenges, chi_eval, chi_evals, output) = match &state.step {
            ProtocolStep::ReduceChiIota(reduction) => {
                let round_output = trace.round_output(reduction.round);
                let prover = chi_iota::start_round(
                    round_output,
                    &trace.rounds[reduction.round].pre_chi,
                    reduction,
                )
                .unwrap();
                let claim = reduction.output_claim.mixed_eval;
                let (challenges, eval, evals) = run(prover, claim, rng);
                let output =
                    chi_iota::prove_round(round_output, reduction, &challenges, &evals).unwrap();
                (challenges, eval, evals, output)
            }
            _ => break,
        };
        let pre_chi_weights = random_weights(rng);
        state = state.after_chi_iota(output, pre_chi_weights);
        let (linear_challenges, linear_eval, linear_evals, output) = match &state.step {
            ProtocolStep::ReduceLinear { reduction, round } => {
                let input = &trace.rounds[*round].input;
                let prover = linear_round::start_round(input, reduction).unwrap();
                let claim = reduction.pre_chi_claim.mixed_eval;
                let (challenges, eval, evals) = run(prover, claim, rng);
                let output =
                    linear_round::prove_round(input, reduction, &challenges, &evals).unwrap();
                (challenges, eval, evals, output)
            }
            _ => break,
        };
        let input_weights = random_weights(rng);
        state = state.after_linear(output, input_weights);
        prover_rounds.push(ProverRound {
            chi_iota_challenges: chi_challenges.clone(),
            pre_chi_evals: chi_evals,
            pre_chi_weights,
            linear_challenges: linear_challenges.clone(),
            linear_evals,
            input_weights,
        });
        verifier_rounds.push(VerifierRound {
            chi_iota_challenges: chi_challenges,
            chi_iota_eval: chi_eval,
            pre_chi_weights,
            linear_challenges,
            linear_eval,
            input_weights,
        });
    }
    assert!(state.endpoint_claims().is_some());
    prover_rounds.reverse();
    verifier_rounds.reverse();
    (prover_rounds, verifier_rounds)
}

#[test]
fn test_protocol_prove_verify() {
    let mut rng = StdRng::seed_from_u64(10);
    let inputs = vec![random_state(&mut rng), random_state(&mut rng)];
    let trace = trace_from_inputs::<F>(&inputs);
    let bit_challenge = random_scalar(&mut rng);
    let high_point = random_scalars(&mut rng, 1);
    let weights = random_weights(&mut rng);

    let (proof, received) = run_protocol(&trace, bit_challenge, &high_point, weights, &mut rng);
    let prover_output =
        protocol::prove(&trace, bit_challenge, &high_point, weights, &proof).unwrap();
    let verifier_output =
        protocol::verify(&trace, bit_challenge, &high_point, weights, &received).unwrap();

    assert_eq!(prover_output, verifier_output);
    let input_claim = &prover_output.input_claim;
    let expected = bit_indexed_lane_claim(
        &trace.rounds[0].input,
        input_claim.bit_challenge,
        &input_claim.high_point,
        input_claim.lane_weights,
    );
    assert_eq!(*input_claim, expected);
}

#[test]
fn test_protocol_rejects_corrupted_trace() {
    let mut rng = StdRng::seed_from_u64(11);
    let inputs = vec![random_state(&mut rng), random_state(&mut rng)];
    let trace = trace_from_inputs::<F>(&inputs);
    let mut corrupted_trace = FullTrace {
        rounds: trace
            .rounds
            .iter()
            .map(|round| RoundTrace {
                input: copy_tables(&round.input),
                pre_chi: copy_tables(&round.pre_chi),
            })
            .collect(),
        final_output: copy_tables(&trace.final_output),
    };
    corrupted_trace.rounds[5].pre_chi[0][0] = flip(corrupted_trace.rounds[5].pre_chi[0][0]);
    let bit_challenge = random_scalar(&mut rng);
    let high_point = random_scalars(&mut rng, 1);
    let weights = random_weights(&mut rng);

    let (proof, received) =
        run_protocol(&corrupted_trace, bit_challenge, &high_point, weights, &mut rng);
    protocol::prove(&corrupted_trace, bit_challenge, &high_point, weights, &proof).unwrap();
    assert!(protocol::verify(&trace, bit_challenge, &high_point, weights, &received).is_err());
}

#[test]
fn protocol_refuses_malformed_traces() {
    let mut rng = StdRng::seed_from_u64(66);
    let mut trace = trace_from_inputs::<F>(&[random_state(&mut rng)]);
    trace.final_output[2].push(ZERO);
    assert_eq!(
        protocol::validate_trace(&trace),
        Err(Error::InvalidClaim(ClaimFault::TraceDimensions))
    );
    trace.final_output[2].pop();
    assert_eq!(protocol::validate_trace(&trace), Ok(()));
    trace.rounds.pop();
    assert_eq!(
        protocol::validate_trace(&trace),
        Err(Error::InvalidClaim(ClaimFault::TraceLength))
    );
}

#[test]
fn equality_indicator_selects_vertices() {
    let mut rng = StdRng::seed_from_u64(67);
    let point = random_scalars(&mut rng, 4);
    let table = random_scalars(&mut rng, 16);
    let total = eq_ind_partial_eval(&point).iter().fold(ZERO, |acc, &e| acc.add(e));
    assert_eq!(total, ONE);
    for index in 0..16 {
        assert_eq!(evaluate(&table, &vertex(4, index)), table[index]);
    }
}

#[test]
fn runs_with_given_challenges_pass_the_verifier() {
    let mut rng = StdRng::seed_from_u64(68);
    let inputs: Vec<State> = (0..4).map(|_| random_state(&mut rng)).collect();
    let trace = trace_from_inputs::<F>(&inputs);
    let round = &trace.rounds[0];
    let output = trace.round_output(0);
    let bit_challenge = random_scalar(&mut rng);
    let high_point = random_scalars(&mut rng, 2);
    let weights = random_weights(&mut rng);
    let challenges = random_scalars(&mut rng, 2);

    let output_claim = bit_indexed_lane_claim(output, bit_challenge, &high_point, weights);
    let reduction = ChiIotaReduction { output_claim, round: 0 };
    let (run, proved) =
        prove_chi_iota_round(output, &round.pre_chi, &reduction, &challenges).unwrap();
    assert_eq!(run.rounds.len(), 2);
    let verified =
        chi_iota::verify_round(output, &round.pre_chi, &reduction, &challenges, run.eval).unwrap();
    assert_eq!(proved, verified);

    let pre_chi_claim =
        bit_indexed_lane_claim(&round.pre_chi, bit_challenge, &high_point, weights);
    let reduction = LinearRoundReduction { pre_chi_claim };
    let (run, proved) = prove_linear_round(&round.input, &reduction, &challenges).unwrap();
    assert_eq!(run.evals, vec![run.eval]);
    let verified =
        linear_round::verify_round(&round.input, &reduction, &challenges, run.eval).unwrap();
    assert_eq!(proved, verified);

    let output_claim = bit_indexed_lane_claim(output, bit_challenge, &high_point, weights);
    let reduction = FusedRoundReduction { output_claim, round: 0 };
    let (run, proved) = prove_fused_round(&round.input, &reduction, &challenges).unwrap();
    let verified =
        fused_round::verify_round(&round.input, &reduction, &challenges, run.eval).unwrap();
    assert_eq!(proved, verified);
    let (words_run, words_proved) =
        prove_round_from_words(&inputs, &reduction, &challenges).unwrap();
    assert_eq!((words_run, words_proved), (run, proved));
    assert_eq!(
        prove_round_from_words(&inputs[..2], &reduction, &challenges).err(),
        Some(Error::InvalidClaim(ClaimFault::WordCount))
    );

    let compact = compact_trace_from_inputs(&inputs);
    let boundary = OblongRoundBoundaryClaim { high_point: high_point.clone(), lane_weights: weights };
    let output_words = round_output_words(&compact, 0);
    let run =
        prove_oblong_round(&inputs, output_words, 0, &boundary, bit_challenge, &challenges).unwrap();
    let verified = verify_fused_round_with_oblong_message(
        &inputs,
        output_words,
        0,
        &high_point,
        weights,
        &run.message,
        bit_challenge,
        &challenges,
        run.suffix.eval,
    )
    .unwrap();
    assert_eq!(run.output, verified);
    assert_eq!(run.suffix.evals.len(), 1600);
    assert_eq!(
        prove_oblong_round(&inputs, output_words, 24, &boundary, bit_challenge, &challenges).err(),
        Some(Error::InvalidRound(24))
    );
}
