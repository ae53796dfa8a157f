//! Parity sums, masks and sumchecks of the bridge.

use binary_proofs::bridge::booleanity::{
    booleanity_sumcheck_inputs, booleanity_table_sumcheck_inputs,
    prove_weighted_booleanity_sumcheck,
};
use binary_proofs::bridge::claim_reduction::{
    evaluate_claim_reduction_transparent, prove_claim_reduction_sumcheck_transcript,
    verify_claim_reduction_sumcheck_transcript,
};
use binary_proofs::bridge::error::{BatchedParityBridgeError, ChannelError};
use binary_proofs::bridge::fp128::{AkitaFieldScalar, HachiScalar, MODULUS};
use binary_proofs::bridge::interpolation::{
    evaluate_cubic_from_0_1_2_3, evaluate_quadratic_from_0_1_2,
};
use binary_proofs::bridge::lift::{BridgeObstruction, CanonicalU128Bridge};
use binary_proofs::bridge::masks::{
    batched_selected_sum_masks, batched_selected_sum_table_mask, batched_u64_sum,
    evaluate_batched_selected_sum_table_mask, BitSliceOracle,
};
use binary_proofs::bridge::parity::{
    parity_sum_bounds, prove_terminal_linear_claim, terminal_linear_claim,
    BatchedParityBridgeProof, BiniusScalar,
};
use binary_proofs::bridge::product::{prove_product_sumcheck, ProductSumcheckProver};
use binary_proofs::bridge::rounds::{
    verify_product_sumcheck_transcript, verify_weighted_booleanity_sumcheck_transcript,
    BooleanitySumcheckTape, ProductSumcheckProof, ProductSumcheckTape,
};
use binary_proofs::bridge::structured::{ConstantTransparentRelation, StructuredTransparentRelation};
use binary_proofs::bridge::tables::{evaluate_akita_eq, fold_evals, multilinear_eq_evals, powers};
use binary_proofs::field::Field;
use binary_proofs::multilinear::evaluate;

fn scalar(x: u64) -> AkitaFieldScalar {
    AkitaFieldScalar::from_u64(x)
}

fn zero() -> AkitaFieldScalar {
    scalar(0)
}

fn one() -> AkitaFieldScalar {
    scalar(1)
}

fn dot(a: &[AkitaFieldScalar], b: &[AkitaFieldScalar]) -> AkitaFieldScalar {
    a.iter().zip(b).fold(zero(), |acc, (&x, &y)| acc.add(x.mul(y)))
}

/// Evaluates a multilinear extension by folding one variable after the other.
fn multilinear_eval(table: &[AkitaFieldScalar], point: &[AkitaFieldScalar]) -> AkitaFieldScalar {
    assert_eq!(table.len(), 1 << point.len());
    let mut values = table.to_vec();
    for &c in point {
        values = (0..values.len() / 2)
            .map(|i| values[2 * i].add(c.mul(values[2 * i + 1].sub(values[2 * i]))))
            .collect();
    }
    values[0]
}

fn check_lift_is_not_additive() {
    let one = BiniusScalar::new(1);

    assert_eq!(one.add(one), BiniusScalar::new(0));
    assert_ne!(
        CanonicalU128Bridge::lift(one.add(one)),
        CanonicalU128Bridge::lift(one).add(CanonicalU128Bridge::lift(one))
    );
}

#[test]
fn protocol_canonical_lift_is_not_additive() {
    check_lift_is_not_additive();
}

#[test]
fn hachi_bridge_canonical_lift_is_not_additive() {
    check_lift_is_not_additive();
}

#[test]
fn protocol_strict_pcs_bridge_reports_obstruction() {
    assert_eq!(
        CanonicalU128Bridge::strict_pcs_obstruction(),
        Some(BridgeObstruction::NotAdditive)
    );
}

#[test]
fn hachi_bridge_strict_pcs_bridge_reports_obstruction() {
    assert_eq!(
        CanonicalU128Bridge::strict_pcs_obstruction(),
        Some(BridgeObstruction::NotAdditive)
    );
}

fn check_lifted_claims() {
    let a = [BiniusScalar::new(1), BiniusScalar::new(1)];
    let b = [BiniusScalar::new(1), BiniusScalar::new(1)];

    let binary_claim = a[0].mul(b[0]).add(a[1].mul(b[1]));
    let lifted_a = CanonicalU128Bridge::lift_slice(&a);
    let lifted_b = CanonicalU128Bridge::lift_slice(&b);
    let lifted_claim = lifted_a[0].mul(lifted_b[0]).add(lifted_a[1].mul(lifted_b[1]));

    assert_eq!(binary_claim, BiniusScalar::new(0));
    assert_ne!(CanonicalU128Bridge::lift(binary_claim), lifted_claim);
}

#[test]
fn protocol_lifted_linear_claims_are_not_binary_field_claims() {
    check_lifted_claims();
}

#[test]
fn hachi_bridge_lifted_linear_claims_are_not_binary_field_claims() {
    check_lifted_claims();
}

fn check_terminal_claim() {
    let oracle = [
        BiniusScalar::new(0x0123_4567_89ab_cdef_fedc_ba98_7654_3210),
        BiniusScalar::new(0xffff_0000_5555_aaaa_1234_5678_9abc_def0),
        BiniusScalar::new(0x0000_0000_0000_0001_8000_0000_0000_0000),
    ];
    let transparent = [
        BiniusScalar::new(0x1111_2222_3333_4444_5555_6666_7777_8888),
        BiniusScalar::new(0xdead_beef_cafe_babe_0102_0304_0506_0708),
        BiniusScalar::new(0x494e_f997_94d5_244f_9152_df59_d87a_9186),
    ];

    let (claim, proof) = prove_terminal_linear_claim(&oracle, &transparent).unwrap();
    assert_eq!(claim, terminal_linear_claim(&oracle, &transparent));
    proof.verify(&transparent, claim).unwrap();
    let product = (0..3).fold(BiniusScalar::zero(), |acc, i| acc.add(transparent[i].mul(oracle[i])));
    assert_eq!(claim, product);
}

#[test]
fn protocol_batched_parity_bridge_verifies_terminal_claim() {
    check_terminal_claim();
}

#[test]
fn hachi_bridge_batched_parity_bridge_verifies_terminal_claim() {
    check_terminal_claim();
}

fn check_tampered_sum() {
    let oracle = [BiniusScalar::new(1), BiniusScalar::new(2)];
    let transparent = [BiniusScalar::new(3), BiniusScalar::new(5)];
    let (claim, mut proof) = prove_terminal_linear_claim(&oracle, &transparent).unwrap();

    proof.opened_sums[0] += 1;

    assert_eq!(
        proof.verify(&transparent, claim),
        Err(BatchedParityBridgeError::BatchedParityCheckFailed)
    );
}

#[test]
fn protocol_batched_parity_bridge_rejects_tampered_sum() {
    check_tampered_sum();
}

#[test]
fn hachi_bridge_batched_parity_bridge_rejects_tampered_sum() {
    check_tampered_sum();
}

fn check_out_of_range_sum() {
    let oracle = [BiniusScalar::new(1)];
    let transparent = [BiniusScalar::new(0)];
    let (claim, mut proof) = prove_terminal_linear_claim(&oracle, &transparent).unwrap();

    proof.opened_sums[0] = 1;

    assert_eq!(
        proof.verify(&transparent, claim),
        Err(BatchedParityBridgeError::SumOutOfRange { bit: 0, sum: 1, bound: 0 })
    );
}

#[test]
fn protocol_batched_parity_bridge_rejects_out_of_range_sum() {
    check_out_of_range_sum();
}

#[test]
fn hachi_bridge_batched_parity_bridge_rejects_out_of_range_sum() {
    check_out_of_range_sum();
}

fn check_length_mismatch() {
    assert_eq!(
        prove_terminal_linear_claim(&[BiniusScalar::new(1)], &[]),
        Err(BatchedParityBridgeError::LengthMismatch { oracle_len: 1, transparent_len: 0 })
    );
}

#[test]
fn protocol_terminal_claim_length_mismatch_is_rejected() {
    check_length_mismatch();
}

#[test]
fn hachi_bridge_terminal_claim_length_mismatch_is_rejected() {
    check_length_mismatch();
}

#[test]
fn sums_and_bounds_count_selected_bits() {
    // bit 0 and bit 2 of the first scalar, bit 1 of the second
    let oracle = [BiniusScalar::new(5), BiniusScalar::new(2)];
    let transparent = [BiniusScalar::new(3), BiniusScalar::new(1)];
    let (claim, proof) = prove_terminal_linear_claim(&oracle, &transparent).unwrap();
    // 3 * 5 = 3 + (3 << 2) and 1 * 2 = 2
    assert_eq!(claim, BiniusScalar::new(0b1101));
    assert_eq!(proof.opened_sums[..5], [1, 2, 1, 1, 0]);
    let bounds = parity_sum_bounds(&transparent).unwrap();
    assert_eq!(bounds[0], 3);
    assert_eq!(bounds[1], 4);
    assert_eq!(bounds[5], 3);
    let short = terminal_linear_claim(&oracle, &transparent[..1]);
    assert_eq!(short, BiniusScalar::new(0b1111));
}

fn check_selected_sums() {
    let oracle = [
        BiniusScalar::new(0x0123_4567_89ab_cdef),
        BiniusScalar::new(0xfedc_ba98_7654_3210),
        BiniusScalar::new(0x1111_2222_3333_4444),
        BiniusScalar::new(0x9999_aaaa_bbbb_cccc),
    ];
    let transparent = [
        BiniusScalar::new(0x1234),
        BiniusScalar::new(0x5678),
        BiniusScalar::new(0x9abc),
        BiniusScalar::new(0xdef0),
    ];
    let (claim, parity_proof) = prove_terminal_linear_claim(&oracle, &transparent).unwrap();
    let alpha = scalar(17);
    let bit_slices = BitSliceOracle::from_binius_oracle(&oracle);
    let masks = batched_selected_sum_masks(&transparent, alpha);
    let expected_batched_sum = batched_u64_sum(&parity_proof.opened_sums, alpha);

    let challenges = [scalar(3), scalar(5)];
    let (sumcheck_claim, proof, final_lefts, final_rights) =
        prove_product_sumcheck(&bit_slices.bit_polys, &masks, &challenges).unwrap();

    assert_eq!(sumcheck_claim, expected_batched_sum);
    let final_claim = proof.verify_rounds(sumcheck_claim, &challenges).unwrap();
    assert_eq!(final_claim, dot(&final_lefts, &final_rights));
    parity_proof.verify(&transparent, claim).unwrap();
}

#[test]
fn protocol_selected_sum_product_sumcheck_matches_batched_sums() {
    check_selected_sums();
}

#[test]
fn hachi_bridge_selected_sum_product_sumcheck_matches_batched_sums() {
    check_selected_sums();
}

fn check_booleanity_accepts() {
    let oracle = [
        BiniusScalar::new(0),
        BiniusScalar::new(1),
        BiniusScalar::new(u128::MAX),
        BiniusScalar::new(0xfeed_face),
    ];
    let bit_slices = BitSliceOracle::from_binius_oracle(&oracle);
    let (lefts, rights) = booleanity_sumcheck_inputs(&bit_slices);
    let challenges = [scalar(19), scalar(23)];
    let (claim, proof, final_lefts, final_rights) =
        prove_product_sumcheck(&lefts, &rights, &challenges).unwrap();

    assert_eq!(claim, zero());
    let final_claim = proof.verify_rounds(claim, &challenges).unwrap();
    assert_eq!(final_claim, dot(&final_lefts, &final_rights));
}

#[test]
fn protocol_booleanity_product_sumcheck_accepts_bit_slices() {
    check_booleanity_accepts();
}

#[test]
fn hachi_bridge_booleanity_product_sumcheck_accepts_bit_slices() {
    check_booleanity_accepts();
}

fn check_booleanity_rejects() {
    let oracle = [BiniusScalar::new(0), BiniusScalar::new(1)];
    let mut bit_slices = BitSliceOracle::from_binius_oracle(&oracle);
    bit_slices.bit_polys[0][0] = scalar(2);
    let (lefts, rights) = booleanity_sumcheck_inputs(&bit_slices);
    let challenges = [scalar(29)];
    let (claim, proof, final_lefts, final_rights) =
        prove_product_sumcheck(&lefts, &rights, &challenges).unwrap();

    assert_ne!(claim, zero());
    let final_claim = proof.verify_rounds(claim, &challenges).unwrap();
    assert_eq!(final_claim, dot(&final_lefts, &final_rights));
}

#[test]
fn protocol_booleanity_product_sumcheck_rejects_non_boolean_slice() {
    check_booleanity_rejects();
}

#[test]
fn hachi_bridge_booleanity_product_sumcheck_rejects_non_boolean_slice() {
    check_booleanity_rejects();
}

fn bit_table_and_challenges() -> (Vec<AkitaFieldScalar>, Vec<AkitaFieldScalar>) {
    let oracle: Vec<BiniusScalar> =
        (0..8).map(|i| BiniusScalar::new((i as u128) * 0x101)).collect();
    let transparent: Vec<BiniusScalar> =
        (0..8).map(|i| BiniusScalar::new((3 * i as u128) + 1)).collect();
    let bit_slices = BitSliceOracle::from_binius_oracle(&oracle);
    let bit_table = bit_slices.to_bit_table_evals();
    let (_claim, parity) = prove_terminal_linear_claim(&oracle, &transparent).unwrap();
    let alpha = scalar(31);
    let selected_mask = batched_selected_sum_table_mask(&transparent, alpha);
    let selected_claim = batched_u64_sum(&parity.opened_sums, alpha);
    let challenges: Vec<AkitaFieldScalar> = (0..10).map(|i| scalar(37 + i as u64)).collect();
    let (claim, proof, left, right) =
        prove_product_sumcheck(&[bit_table.clone()], &[selected_mask], &challenges).unwrap();
    assert_eq!(claim, selected_claim);
    assert_eq!(proof.verify_rounds(claim, &challenges).unwrap(), left[0].mul(right[0]));

    let (bool_lefts, bool_rights) = booleanity_table_sumcheck_inputs(&bit_table);
    let (bool_claim, bool_proof, bool_left, bool_right) =
        prove_product_sumcheck(&bool_lefts, &bool_rights, &challenges).unwrap();
    assert_eq!(bool_claim, zero());
    assert_eq!(
        bool_proof.verify_rounds(bool_claim, &challenges).unwrap(),
        bool_left[0].mul(bool_right[0])
    );
    (bit_table, challenges)
}

#[test]
fn protocol_bit_table_product_sumchecks_reduce_to_single_opening() {
    let (bit_table, challenges) = bit_table_and_challenges();
    let weight_point: Vec<AkitaFieldScalar> = (0..10).map(|i| scalar(101 + i as u64)).collect();
    let (weighted_claim, weighted_proof, bool_opening) =
        prove_weighted_booleanity_sumcheck(&bit_table, &weight_point, &challenges).unwrap();
    assert_eq!(weighted_claim, zero());
    let weighted_final = weighted_proof.verify_rounds(weighted_claim, &challenges).unwrap();
    let final_weight = evaluate_akita_eq(&weight_point, &challenges).unwrap();
    assert_eq!(
        weighted_final,
        final_weight.mul(bool_opening).mul(bool_opening.sub(one()))
    );
}

#[test]
fn hachi_bridge_bit_table_product_sumchecks_reduce_to_single_opening() {
    bit_table_and_challenges();
}

#[test]
fn weighted_booleanity_rejects_cancelling_non_boolean_table() {
    let inv_five = scalar(5).inverse().expect("5 is invertible");
    let bit_table = vec![scalar(2).mul(inv_five), zero().sub(inv_five)];

    let (lefts, rights) = booleanity_table_sumcheck_inputs(&bit_table);
    let (unweighted_claim, _, _, _) =
        prove_product_sumcheck(&lefts, &rights, &[scalar(7)]).unwrap();
    assert_eq!(unweighted_claim, zero());

    let weight_point = [scalar(3)];
    let (weighted_claim, weighted_proof, bool_opening) =
        prove_weighted_booleanity_sumcheck(&bit_table, &weight_point, &[scalar(7)]).unwrap();
    assert_ne!(weighted_claim, zero());
    assert_eq!(
        weighted_proof.verify_rounds(weighted_claim, &[scalar(7)]),
        Ok(evaluate_akita_eq(&weight_point, &[scalar(7)])
            .unwrap()
            .mul(bool_opening)
            .mul(bool_opening.sub(one())))
    );
}

fn check_lazy_mask() {
    let transparent: Vec<BiniusScalar> = (0..8)
        .map(|i| {
            BiniusScalar::new(
                ((i as u128) + 1).wrapping_mul(0x0101_0203_0508_0d15_2237_5990_e979_62db),
            )
        })
        .collect();
    let alpha = scalar(43);
    let point: Vec<AkitaFieldScalar> = (0..10).map(|i| scalar(47 + i as u64)).collect();

    let selected_mask = batched_selected_sum_table_mask(&transparent, alpha);
    let expected = multilinear_eval(&selected_mask, &point);
    let actual = evaluate_batched_selected_sum_table_mask(&transparent, alpha, &point).unwrap();

    assert_eq!(actual, expected);
    assert_eq!(
        evaluate_batched_selected_sum_table_mask(&transparent, alpha, &point[..9]),
        Err(BatchedParityBridgeError::InvalidSumcheck)
    );
    assert_eq!(
        evaluate_batched_selected_sum_table_mask(&transparent, alpha, &point[..6]),
        Err(BatchedParityBridgeError::InvalidSumcheck)
    );
}

#[test]
fn protocol_selected_table_mask_lazy_eval_matches_materialized() {
    check_lazy_mask();
}

#[test]
fn hachi_bridge_selected_table_mask_lazy_eval_matches_materialized() {
    check_lazy_mask();
}

#[test]
fn constant_structured_relation_matches_materialized_checks() {
    let log_len = 4;
    let coefficient = BiniusScalar::new(0x0101_0203_0508_0d15_2237_5990_e979_62db);
    let relation = ConstantTransparentRelation::new(log_len, coefficient);
    let transparent = vec![coefficient; 1 << log_len];
    assert_eq!(relation.log_len(), log_len);

    let binius_point: Vec<BiniusScalar> =
        (0..log_len).map(|i| BiniusScalar::new(3 + i as u128)).collect();
    let materialized_eval = evaluate(&transparent, &binius_point);
    assert_eq!(relation.eval_binius(&binius_point), Ok(materialized_eval));

    assert_eq!(relation.parity_sum_bounds(), parity_sum_bounds(&transparent));

    let alpha = scalar(43);
    let akita_point: Vec<AkitaFieldScalar> =
        (0..log_len + 7).map(|i| scalar(47 + i as u64)).collect();
    let selected_mask = batched_selected_sum_table_mask(&transparent, alpha);
    let materialized_mask_eval = multilinear_eval(&selected_mask, &akita_point);
    assert_eq!(relation.eval_selected_mask(alpha, &akita_point), Ok(materialized_mask_eval));
}

#[test]
fn constant_structured_relation_rejects_wrong_point_lengths() {
    let relation = ConstantTransparentRelation::new(3, BiniusScalar::new(7));

    assert_eq!(
        relation.eval_binius(&[BiniusScalar::new(1), BiniusScalar::new(2)]),
        Err(BatchedParityBridgeError::InvalidSumcheck)
    );
    assert_eq!(
        relation.eval_selected_mask(scalar(5), &[scalar(1)]),
        Err(BatchedParityBridgeError::InvalidSumcheck)
    );
}

#[test]
fn constant_structured_relation_reports_overflow() {
    let ones = BiniusScalar::new(u128::MAX);
    assert_eq!(
        ConstantTransparentRelation::new(64, ones).parity_sum_bounds(),
        Err(BatchedParityBridgeError::InvalidSumcheck)
    );
    assert!(matches!(
        ConstantTransparentRelation::new(63, ones).parity_sum_bounds(),
        Err(BatchedParityBridgeError::BoundOverflow { .. })
    ));
}

#[test]
fn prime_field_arithmetic() {
    let top = AkitaFieldScalar::from_canonical_u128_checked(MODULUS - 1).unwrap();
    assert_eq!(top.add(one()), zero());
    assert_eq!(zero().sub(one()), top);
    assert_eq!(top.mul(top), one());
    assert_eq!(top.to_canonical_u128(), MODULUS - 1);
    assert_eq!(HachiScalar::from_canonical_u128_checked(MODULUS), None);
    assert_eq!(HachiScalar::from_canonical_u128_reduced(MODULUS + 5), scalar(5));
    let x = AkitaFieldScalar::from_canonical_u128_reduced(0x1234_5678_9abc_def0_0fed_cba9_8765_4321);
    let y = AkitaFieldScalar::from_canonical_u128_reduced(0xfedc_ba98_7654_3210_0123_4567_89ab_cdef);
    assert_eq!(x.mul(y).to_canonical_u128(), PRODUCT_XY);
    assert_eq!(x.mul(x.inverse().unwrap()), one());
    assert_eq!(zero().inverse(), None);
    assert_eq!(scalar(2).inverse().unwrap().to_canonical_u128(), (MODULUS + 1) / 2);
    let list = powers(scalar(3), 5);
    assert_eq!(list, vec![scalar(1), scalar(3), scalar(9), scalar(27), scalar(81)]);
}

const PRODUCT_XY: u128 = 0x1057f29c100a345150075cd904679e59;

#[test]
fn interpolation_passes_through_its_values() {
    // 1 + 2 x + 3 x^2 and x^3 - x
    let quadratic = [scalar(1), scalar(6), scalar(17)];
    assert_eq!(evaluate_quadratic_from_0_1_2(quadratic, scalar(0)), scalar(1));
    assert_eq!(evaluate_quadratic_from_0_1_2(quadratic, scalar(2)), scalar(17));
    assert_eq!(evaluate_quadratic_from_0_1_2(quadratic, scalar(10)), scalar(321));
    let cubic = [scalar(0), scalar(0), scalar(6), scalar(24)];
    assert_eq!(evaluate_cubic_from_0_1_2_3(cubic, scalar(3)), scalar(24));
    assert_eq!(evaluate_cubic_from_0_1_2_3(cubic, scalar(10)), scalar(990));
}

#[test]
fn equality_polynomial_is_the_extension_of_its_table() {
    let a: Vec<AkitaFieldScalar> = (0..4).map(|i| scalar(11 + i)).collect();
    let b: Vec<AkitaFieldScalar> = (0..4).map(|i| scalar(5 + 2 * i)).collect();
    let table = multilinear_eq_evals(&a);
    assert_eq!(table.len(), 16);
    assert_eq!(table.iter().fold(zero(), |acc, &e| acc.add(e)), one());
    assert_eq!(evaluate_akita_eq(&a, &b), Some(multilinear_eval(&table, &b)));
    assert_eq!(evaluate_akita_eq(&a, &b[..3]), None);
    let mut folded = table.clone();
    fold_evals(&mut folded, b[0]);
    assert_eq!(multilinear_eval(&folded, &b[1..]), multilinear_eval(&table, &b));
}

#[test]
fn product_sumcheck_refuses_bad_inputs() {
    let invalid = Some(BatchedParityBridgeError::InvalidSumcheck);
    let table = vec![one(), one()];
    assert_eq!(prove_product_sumcheck(&[], &[], &[]).err(), invalid);
    assert_eq!(prove_product_sumcheck(&[table.clone()], &[], &[one()]).err(), invalid);
    assert_eq!(
        prove_product_sumcheck(&[table.clone()], &[vec![one()]], &[one()]).err(),
        invalid
    );
    assert_eq!(
        prove_product_sumcheck(&[vec![one(); 3]], &[vec![one(); 3]], &[one()]).err(),
        invalid
    );
    assert_eq!(
        prove_product_sumcheck(&[table.clone()], &[table.clone()], &[]).err(),
        invalid
    );
    let (claim, proof, _, _) =
        prove_product_sumcheck(&[table.clone()], &[table.clone()], &[scalar(9)]).unwrap();
    assert_eq!(claim, scalar(2));
    assert_eq!(proof.verify_rounds(scalar(3), &[scalar(9)]).err(), invalid);
    assert_eq!(proof.verify_rounds(claim, &[]).err(), invalid);
    assert_eq!(
        prove_weighted_booleanity_sumcheck(&table, &[one(), one()], &[one(), one()]).err(),
        invalid
    );
    assert_eq!(prove_weighted_booleanity_sumcheck(&[], &[], &[]).err(), invalid);
}

#[test]
fn stepwise_prover_sends_what_the_proof_holds() {
    let left: Vec<AkitaFieldScalar> = (0..8).map(|i| scalar(i * i + 1)).collect();
    let right: Vec<AkitaFieldScalar> = (0..8).map(|i| scalar(3 * i + 2)).collect();
    let challenges = [scalar(5), scalar(6), scalar(7)];
    let (claim, proof, finals, _) =
        prove_product_sumcheck(&[left.clone()], &[right.clone()], &challenges).unwrap();
    let mut prover = ProductSumcheckProver::new(&[left], &[right]).unwrap();
    assert_eq!(prover.claim(), claim);
    assert_eq!(prover.num_rounds(), 3);
    for (k, &challenge) in challenges.iter().enumerate() {
        assert_eq!(prover.round_evals(), proof.round_evals[k]);
        prover.fold(challenge);
    }
    assert_eq!(prover.openings().0, finals);
}

#[test]
fn received_sumchecks_are_compared_with_the_expected_claim() {
    let left: Vec<AkitaFieldScalar> = (0..4).map(|i| scalar(i + 1)).collect();
    let right: Vec<AkitaFieldScalar> = (0..4).map(|i| scalar(7 * i + 2)).collect();
    let challenges = vec![scalar(50), scalar(60)];
    let (claim, proof, l, r) = prove_product_sumcheck(&[left.clone()], &[right], &challenges).unwrap();
    let tape = ProductSumcheckTape { initial_claim: claim, proof, challenges: challenges.clone() };
    assert_eq!(verify_product_sumcheck_transcript(claim, 2, &tape), Ok(l[0].mul(r[0])));
    assert_eq!(
        verify_product_sumcheck_transcript(claim.add(one()), 2, &tape),
        Err(ChannelError::ProofEmpty)
    );
    assert_eq!(
        verify_product_sumcheck_transcript(claim, 3, &tape),
        Err(ChannelError::ProofEmpty)
    );
    let weight_point = [scalar(2), scalar(3)];
    let (claim, proof, opening) =
        prove_weighted_booleanity_sumcheck(&left, &weight_point, &challenges).unwrap();
    let tape = BooleanitySumcheckTape { initial_claim: claim, proof, challenges: challenges.clone() };
    let weight = evaluate_akita_eq(&weight_point, &challenges).unwrap();
    assert_eq!(
        verify_weighted_booleanity_sumcheck_transcript(claim, 2, &tape),
        Ok(weight.mul(opening).mul(opening.sub(one())))
    );
    assert_eq!(
        verify_weighted_booleanity_sumcheck_transcript(zero(), 2, &tape),
        Err(ChannelError::ProofEmpty)
    );
}

#[test]
fn claim_reduction_combines_two_openings() {
    let table: Vec<AkitaFieldScalar> = (0..8).map(|i| scalar(i * 5 % 7)).collect();
    let s: Vec<AkitaFieldScalar> = (0..3).map(|i| scalar(20 + i)).collect();
    let b: Vec<AkitaFieldScalar> = (0..3).map(|i| scalar(40 + i)).collect();
    let challenges: Vec<AkitaFieldScalar> = (0..3).map(|i| scalar(60 + i)).collect();
    let alpha = scalar(99);
    let (e_s, e_b) = (multilinear_eval(&table, &s), multilinear_eval(&table, &b));
    let (claim, proof, b_final) =
        prove_claim_reduction_sumcheck_transcript(&table, &s, &b, alpha, &challenges).unwrap();
    assert_eq!(claim, e_s.add(alpha.mul(e_b)));
    assert_eq!(b_final, multilinear_eval(&table, &challenges));
    let tape = ProductSumcheckTape { initial_claim: claim, proof, challenges: challenges.clone() };
    let claim_final =
        verify_claim_reduction_sumcheck_transcript(&s, &b, e_s, e_b, 3, alpha, &tape).unwrap();
    let t = evaluate_claim_reduction_transparent(&s, &b, alpha, &challenges).unwrap();
    assert_eq!(claim_final, b_final.mul(t));
    assert_eq!(
        verify_claim_reduction_sumcheck_transcript(&s, &b, e_s.add(one()), e_b, 3, alpha, &tape),
        Err(ChannelError::ProofEmpty)
    );
    assert_eq!(
        verify_claim_reduction_sumcheck_transcript(&s, &b[..2], e_s, e_b, 3, alpha, &tape),
        Err(ChannelError::ProofEmpty)
    );
    assert_eq!(
        evaluate_claim_reduction_transparent(&s, &b, alpha, &challenges[..2]),
        Err(BatchedParityBridgeError::InvalidSumcheck)
    );
    assert_eq!(
        prove_claim_reduction_sumcheck_transcript(&table, &s[..2], &b, alpha, &challenges).err(),
        Some(BatchedParityBridgeError::InvalidSumcheck)
    );
}

#[test]
fn bit_slices_hold_the_bits_of_an_oracle() {
    let oracle = [BiniusScalar::new(0b1010), BiniusScalar::new(1 << 127)];
    let slices = BitSliceOracle::from_binius_oracle(&oracle);
    assert_eq!(slices.len(), 2);
    assert!(!slices.is_empty());
    assert!(BitSliceOracle::from_binius_oracle(&[]).is_empty());
    assert_eq!(slices.bit_polys[1], vec![one(), zero()]);
    assert_eq!(slices.bit_polys[127], vec![zero(), one()]);
    let table = slices.to_bit_table_evals();
    assert_eq!(table.len(), 256);
    assert_eq!(table[3], one());
    assert_eq!(table[128 + 127], one());
    let indices = slices.to_onehot_bit_table_indices();
    assert_eq!(indices.iter().map(|&i| i as usize).sum::<usize>(), 3);
    assert_eq!(indices[1], 1);
    assert_eq!(indices[2], 0);
}

#[test]
fn parity_proofs_are_checked_against_given_bounds() {
    let mut bounds = [10u64; 128];
    let proof = BatchedParityBridgeProof { opened_sums: [4u64; 128] };
    assert_eq!(proof.verify_with_bounds(&bounds, BiniusScalar::new(0)), Ok(()));
    assert_eq!(
        proof.verify_with_bounds(&bounds, BiniusScalar::new(1 << 9)),
        Err(BatchedParityBridgeError::BatchedParityCheckFailed)
    );
    bounds[9] = 3;
    assert_eq!(
        proof.verify_with_bounds(&bounds, BiniusScalar::new(0)),
        Err(BatchedParityBridgeError::SumOutOfRange { bit: 9, sum: 4, bound: 3 })
    );
}

#[test]
fn empty_sumcheck_proof_keeps_the_claim() {
    let proof = ProductSumcheckProof { round_evals: Vec::new() };
    assert_eq!(proof.verify_rounds(scalar(12), &[]), Ok(scalar(12)));
}
