//! Relations on committed oracles, from the prover to the verifier.

use rand::rngs::StdRng;
use rand::{Rng, SeedableRng};

use binary_proofs::bridge::channel::{
    prove_full_open_relation, AkitaClaimReducedProverChannel, AkitaClaimReducedSetup,
    AkitaClaimReducedVerifierChannel, AkitaSuccinctProverChannel, ClaimReducedRelation,
    FullOpenRelation, HachiFullOpenProverChannel, HachiFullOpenVerifierChannel,
    HachiSuccinctProverChannel, HachiSuccinctSetup, HachiSuccinctVerifierChannel, OracleSpec,
    SuccinctRelation,
};
use binary_proofs::bridge::error::{BatchedParityBridgeError, ChannelError};
use binary_proofs::bridge::fp128::Fp128;
use binary_proofs::bridge::opening::{
    akita_claim_reduced_opening_shape, FoldLevel, OpeningSchedule,
};
use binary_proofs::bridge::parity::{terminal_linear_claim, BiniusScalar};
use binary_proofs::bridge::prover::{
    oracle_bit_table, prove_claim_reduced_relation, prove_succinct_relation, BridgeChallenges,
    RelationProver,
};
use binary_proofs::bridge::relation::{
    check_transparent, transparent_values_from_closure, verify_succinct_relation,
    with_one_coordinate,
};
use binary_proofs::bridge::shape::BatchedProofShape;
use binary_proofs::bridge::statements::{
    AkitaSuccinctStatement, ClaimReducedStatement, FullOpenStatement, HachiSuccinctStatement,
};
use binary_proofs::field::Field;
use binary_proofs::multilinear::{eq_ind_partial_eval, evaluate};

fn random_binary(rng: &mut StdRng) -> BiniusScalar {
    BiniusScalar::new(rng.random::<u128>())
}

fn random_oracle(rng: &mut StdRng, log_len: usize) -> Vec<BiniusScalar> {
    (0..1usize << log_len).map(|_| random_binary(rng)).collect()
}

fn random_scalar(rng: &mut StdRng) -> Fp128 {
    Fp128::from_canonical_u128_reduced(rng.random::<u128>())
}

fn random_scalars(rng: &mut StdRng, n: usize) -> Vec<Fp128> {
    (0..n).map(|_| random_scalar(rng)).collect()
}

fn random_challenges(rng: &mut StdRng, log_len: usize) -> BridgeChallenges {
    BridgeChallenges {
        alpha: random_scalar(rng),
        selected: random_scalars(rng, log_len + 7),
        bool_weight_point: random_scalars(rng, log_len + 7),
        booleanity: random_scalars(rng, log_len + 7),
    }
}

fn root_only_schedule() -> OpeningSchedule {
    OpeningSchedule {
        is_root_direct: false,
        num_fold_levels: 1,
        root_next_w_len: 640,
        root: Some(FoldLevel {
            ring_dimension: 64,
            d_rows: 3,
            ring_elements: 10,
            stage1_stages: Vec::new(),
            next_ring_dimension: 64,
            next_b_rows: 2,
            next_log_basis: 3,
        }),
        levels: Vec::new(),
    }
}

fn multilinear_eval(table: &[Fp128], point: &[Fp128]) -> Fp128 {
    assert_eq!(table.len(), 1 << point.len());
    let mut values = table.to_vec();
    for &c in point {
        values = (0..values.len() / 2)
            .map(|i| values[2 * i].add(c.mul(values[2 * i + 1].sub(values[2 * i]))))
            .collect();
    }
    values[0]
}

const COEFFICIENT: u128 = 0x0101_0203_0508_0d15_2237_5990_e979_62db;

#[test]
fn claim_reduced_akita_succinct_verifier_accepts_structured_constant_relation() {
    let mut rng = StdRng::seed_from_u64(0);
    let log_len = 7;
    let oracle_specs = vec![OracleSpec { log_msg_len: log_len }];
    let message = random_oracle(&mut rng, log_len);
    let coefficient = BiniusScalar::new(COEFFICIENT);
    let transparent = vec![coefficient; 1 << log_len];
    let claim = terminal_linear_claim(&message, &transparent);

    let mut prover_channel = AkitaClaimReducedProverChannel::new(oracle_specs.clone());
    let sent = prover_channel.send_oracle(&message);
    let challenges = random_challenges(&mut rng, log_len);
    let cr_alpha = random_scalar(&mut rng);
    let reduction = random_scalars(&mut rng, log_len + 7);
    let (prover, tape, b_final) = prove_claim_reduced_relation(
        log_len,
        &message,
        &transparent,
        &challenges,
        cr_alpha,
        &reduction,
    )
    .unwrap();
    assert_eq!(prover.claim, claim);

    let mut verifier_channel = AkitaClaimReducedVerifierChannel::new(oracle_specs);
    let oracle = verifier_channel.recv_oracle();
    assert_eq!(oracle, sent);
    let opening =
        verifier_channel.verify_oracle_relation(oracle, &transparent, claim, &tape).unwrap();
    assert_eq!(opening.point, with_one_coordinate(&reduction));
    assert_eq!(opening.value, b_final);
    assert_eq!(opening.value, multilinear_eval(prover_channel.bit_table(sent), &reduction));
    let point: Vec<BiniusScalar> = (0..log_len).map(|_| random_binary(&mut rng)).collect();
    check_transparent(&transparent, &point, coefficient).unwrap();
}

#[test]
fn claim_reduced_akita_succinct_verifier_rejects_wrong_structured_relation() {
    let mut rng = StdRng::seed_from_u64(1);
    let log_len = 7;
    let oracle_specs = vec![OracleSpec { log_msg_len: log_len }];
    let message = random_oracle(&mut rng, log_len);
    let coefficient = BiniusScalar::new(COEFFICIENT);
    let transparent = vec![coefficient; 1 << log_len];
    let claim = terminal_linear_claim(&message, &transparent);
    let challenges = random_challenges(&mut rng, log_len);
    let cr_alpha = random_scalar(&mut rng);
    let reduction = random_scalars(&mut rng, log_len + 7);
    let (_, tape, _) = prove_claim_reduced_relation(
        log_len,
        &message,
        &transparent,
        &challenges,
        cr_alpha,
        &reduction,
    )
    .unwrap();

    let mut verifier_channel = AkitaClaimReducedVerifierChannel::new(oracle_specs);
    let oracle = verifier_channel.recv_oracle();
    let wrong_coefficient = coefficient.add(BiniusScalar::new(1));
    let wrong = vec![wrong_coefficient; 1 << log_len];
    assert!(verifier_channel.verify_oracle_relation(oracle, &wrong, claim, &tape).is_err());
}

#[test]
fn succinct_akita_succinct_verifier_accepts_structured_constant_relation() {
    let mut rng = StdRng::seed_from_u64(0);
    let log_len = 7;
    let message = random_oracle(&mut rng, log_len);
    let coefficient = BiniusScalar::new(COEFFICIENT);
    let transparent = vec![coefficient; 1 << log_len];
    let claim = terminal_linear_claim(&message, &transparent);

    let mut prover_channel =
        AkitaSuccinctProverChannel::new(vec![OracleSpec { log_msg_len: log_len }]);
    let sent = prover_channel.send_oracle(&message);
    let challenges = random_challenges(&mut rng, log_len);
    let (prover, tape) =
        prove_succinct_relation(log_len, &message, &transparent, &challenges).unwrap();
    assert_eq!(prover.claim, claim);

    let (selected, boolean) =
        verify_succinct_relation(log_len, &transparent, claim, &tape).unwrap();
    let table = prover_channel.bit_table(sent);
    assert_eq!(selected.point, with_one_coordinate(&challenges.selected));
    assert_eq!(selected.value, multilinear_eval(table, &challenges.selected));
    assert_eq!(boolean.point, with_one_coordinate(&challenges.booleanity));
    assert_eq!(boolean.value, multilinear_eval(table, &challenges.booleanity));
}

#[test]
fn succinct_akita_succinct_verifier_rejects_wrong_structured_relation() {
    let mut rng = StdRng::seed_from_u64(1);
    let log_len = 7;
    let message = random_oracle(&mut rng, log_len);
    let coefficient = BiniusScalar::new(COEFFICIENT);
    let transparent = vec![coefficient; 1 << log_len];
    let claim = terminal_linear_claim(&message, &transparent);
    let challenges = random_challenges(&mut rng, log_len);
    let (_, tape) =
        prove_succinct_relation(log_len, &message, &transparent, &challenges).unwrap();

    let wrong_coefficient = coefficient.add(BiniusScalar::new(1));
    let wrong = vec![wrong_coefficient; 1 << log_len];
    assert!(verify_succinct_relation(log_len, &wrong, claim, &tape).is_err());
}

#[test]
fn hachi_succinct_verifier_accepts_structured_constant_relation() {
    let mut rng = StdRng::seed_from_u64(0);
    let log_len = 7;
    let oracle_specs = vec![OracleSpec { log_msg_len: log_len }];
    let message = random_oracle(&mut rng, log_len);
    let coefficient = BiniusScalar::new(COEFFICIENT);
    let transparent = vec![coefficient; 1 << log_len];
    let claim = terminal_linear_claim(&message, &transparent);

    let mut prover_channel = HachiSuccinctProverChannel::new(oracle_specs.clone());
    let sent = prover_channel.send_oracle(&message);
    let challenges = random_challenges(&mut rng, log_len);
    let (_, tape) =
        prove_succinct_relation(log_len, &message, &transparent, &challenges).unwrap();

    let mut verifier_channel = HachiSuccinctVerifierChannel::new(oracle_specs);
    let oracle = verifier_channel.recv_oracle();
    assert_eq!(oracle.index(), sent.index());
    verifier_channel.verify_oracle_relation(oracle, &transparent, claim, &tape).unwrap();
}

#[test]
fn hachi_succinct_verifier_rejects_wrong_structured_relation() {
    let mut rng = StdRng::seed_from_u64(1);
    let log_len = 7;
    let oracle_specs = vec![OracleSpec { log_msg_len: log_len }];
    let message = random_oracle(&mut rng, log_len);
    let coefficient = BiniusScalar::new(COEFFICIENT);
    let transparent = vec![coefficient; 1 << log_len];
    let claim = terminal_linear_claim(&message, &transparent);
    let challenges = random_challenges(&mut rng, log_len);
    let (_, tape) =
        prove_succinct_relation(log_len, &message, &transparent, &challenges).unwrap();

    let mut verifier_channel = HachiSuccinctVerifierChannel::new(oracle_specs);
    let oracle = verifier_channel.recv_oracle();
    let wrong_coefficient = coefficient.add(BiniusScalar::new(1));
    let wrong = vec![wrong_coefficient; 1 << log_len];
    assert!(verifier_channel.verify_oracle_relation(oracle, &wrong, claim, &tape).is_err());
}

#[test]
fn hachi_full_open_channel_round_trip() {
    let mut rng = StdRng::seed_from_u64(0);
    let log_len = 5;
    let oracle_specs = vec![OracleSpec { log_msg_len: log_len }];
    let message = random_oracle(&mut rng, log_len);
    let point: Vec<BiniusScalar> = (0..log_len).map(|_| random_binary(&mut rng)).collect();
    let transparent = eq_ind_partial_eval(&point);
    let claim = terminal_linear_claim(&message, &transparent);
    assert_eq!(claim, evaluate(&message, &point));

    let mut prover_channel = HachiFullOpenProverChannel::new(oracle_specs.clone());
    let sent = prover_channel.send_oracle(&message);
    let (proved, sums) = prove_full_open_relation(&message, &transparent).unwrap();
    assert_eq!(proved, claim);

    let mut verifier_channel = HachiFullOpenVerifierChannel::new(oracle_specs);
    assert_eq!(verifier_channel.remaining_oracle_specs().len(), 1);
    let oracle = verifier_channel.recv_oracle(message).unwrap();
    assert_eq!(oracle, sent);
    assert_eq!(verifier_channel.remaining_oracle_specs().len(), 0);
    verifier_channel.verify_oracle_relation(oracle, &transparent, claim, &sums).unwrap();
    let query: Vec<BiniusScalar> = (0..log_len).map(|_| random_binary(&mut rng)).collect();
    let one = BiniusScalar::one();
    let eq = point.iter().zip(&query).fold(one, |acc, (&a, &b)| {
        acc.mul(one.sub(a).mul(one.sub(b)).add(a.mul(b)))
    });
    check_transparent(&transparent, &query, eq).unwrap();
    assert_eq!(
        check_transparent(&transparent, &query, eq.add(one)),
        Err(ChannelError::InvalidAssert)
    );
}

#[test]
fn full_open_channel_rejects_wrong_claims() {
    let mut rng = StdRng::seed_from_u64(1);
    let log_len = 3;
    let message = random_oracle(&mut rng, log_len);
    let transparent = vec![BiniusScalar::zero(); 1 << log_len];
    let (claim, sums) = prove_full_open_relation(&message, &transparent).unwrap();
    assert_eq!(claim, BiniusScalar::zero());
    let mut channel =
        HachiFullOpenVerifierChannel::new(vec![OracleSpec { log_msg_len: log_len }]);
    assert_eq!(channel.recv_oracle(message[..4].to_vec()), Err(ChannelError::ProofEmpty));
    let oracle = channel.recv_oracle(message.clone()).unwrap();
    assert_eq!(
        channel.verify_oracle_relation(oracle, &transparent, BiniusScalar::one(), &sums),
        Err(ChannelError::ProofEmpty)
    );
    // sums with the right parities for another claim
    let ones = vec![BiniusScalar::one(); 1 << log_len];
    let (claim, sums) = prove_full_open_relation(&message, &ones).unwrap();
    assert_eq!(channel.verify_oracle_relation(oracle, &ones, claim, &sums), Ok(()));
    let mut other = sums;
    other[0] = if sums[0] == 0 { 1 } else { sums[0] - 1 };
    let wrong = claim.add(BiniusScalar::one());
    assert_eq!(
        channel.verify_oracle_relation(oracle, &ones, wrong, &other),
        Err(ChannelError::InvalidAssert)
    );
}

#[test]
fn tampered_tapes_are_rejected() {
    let mut rng = StdRng::seed_from_u64(2);
    let log_len = 2;
    let message = random_oracle(&mut rng, log_len);
    let transparent = random_oracle(&mut rng, log_len);
    let challenges = random_challenges(&mut rng, log_len);
    let one = Fp128::from_u64(1);
    let prove = || prove_succinct_relation(log_len, &message, &transparent, &challenges).unwrap();
    let (prover, tape) = prove();
    let claim = prover.claim;
    assert!(verify_succinct_relation(log_len, &transparent, claim, &tape).is_ok());
    let other = claim.add(BiniusScalar::one());
    assert!(verify_succinct_relation(log_len, &transparent, other, &tape).is_err());
    let (_, mut tape) = prove();
    tape.parity_bytes[0] ^= 2;
    assert!(verify_succinct_relation(log_len, &transparent, claim, &tape).is_err());
    let (_, mut tape) = prove();
    tape.selected_opening = tape.selected_opening.add(one);
    assert!(verify_succinct_relation(log_len, &transparent, claim, &tape).is_err());
    let (_, mut tape) = prove();
    tape.bool_opening = tape.bool_opening.add(one);
    assert!(verify_succinct_relation(log_len, &transparent, claim, &tape).is_err());
    let (_, mut tape) = prove();
    tape.selected.proof.round_evals[3][2] = tape.selected.proof.round_evals[3][2].add(one);
    assert!(verify_succinct_relation(log_len, &transparent, claim, &tape).is_err());
    let (_, mut tape) = prove();
    tape.booleanity.initial_claim = one;
    assert!(verify_succinct_relation(log_len, &transparent, claim, &tape).is_err());
    let (_, mut tape) = prove();
    tape.bool_weight_point.pop();
    assert!(verify_succinct_relation(log_len, &transparent, claim, &tape).is_err());
}

#[test]
fn stepwise_relation_prover_matches_the_tape() {
    let mut rng = StdRng::seed_from_u64(3);
    let log_len = 1;
    let message = random_oracle(&mut rng, log_len);
    let transparent = random_oracle(&mut rng, log_len);
    let challenges = random_challenges(&mut rng, log_len);
    let (_, tape) =
        prove_succinct_relation(log_len, &message, &transparent, &challenges).unwrap();
    let prover = RelationProver::start(&message, &transparent).unwrap();
    assert_eq!(prover.parity_bytes, tape.parity_bytes);
    assert_eq!(prover.bit_table, oracle_bit_table(&message));
    let mut selected = prover.start_selected(challenges.alpha).unwrap();
    assert_eq!(selected.claim(), tape.selected.initial_claim);
    for (k, &challenge) in challenges.selected.iter().enumerate() {
        assert_eq!(selected.round_evals(), tape.selected.proof.round_evals[k]);
        selected.fold(challenge);
    }
    assert_eq!(selected.openings().0[0], tape.selected_opening);
    let mut boolean = prover.start_booleanity(&challenges.bool_weight_point).unwrap();
    assert_eq!(boolean.claim(), tape.booleanity.initial_claim);
    assert_eq!(boolean.num_rounds(), log_len + 7);
    for (k, &challenge) in challenges.booleanity.iter().enumerate() {
        assert_eq!(boolean.round_evals(), tape.booleanity.proof.round_evals[k]);
        boolean.fold(challenge);
    }
    assert_eq!(boolean.opening(), tape.bool_opening);
    assert_eq!(
        prover.start_booleanity(&challenges.bool_weight_point[1..]).err(),
        Some(BatchedParityBridgeError::InvalidSumcheck)
    );
    let reduction = prover
        .start_reduction(&challenges.selected, &challenges.booleanity, challenges.alpha)
        .unwrap();
    let combined = tape.selected_opening.add(challenges.alpha.mul(tape.bool_opening));
    assert_eq!(reduction.claim(), combined);
}

#[test]
fn supported_oracles_have_seven_variables() {
    let specs = [OracleSpec { log_msg_len: 7 }, OracleSpec { log_msg_len: 9 }];
    assert!(AkitaClaimReducedSetup::supports(&specs));
    assert!(!AkitaClaimReducedSetup::supports(&[OracleSpec { log_msg_len: 6 }]));
    let setup = AkitaClaimReducedSetup::new(&specs);
    assert_eq!(setup.oracle_setup(1).log_msg_len(), 9);
    assert_eq!(setup.oracle_setup(1).committed_num_vars(), 17);
    let setup = HachiSuccinctSetup::new(&specs);
    assert_eq!(setup.oracle_setup(0).log_msg_len(), 7);
    assert_eq!(setup.oracle_setup(0).committed_num_vars(), 15);
}

#[test]
fn transparent_tables_list_the_vertices() {
    let point = [BiniusScalar::new(5), BiniusScalar::new(77), BiniusScalar::new(123)];
    let one = BiniusScalar::one();
    let eq = |query: &[BiniusScalar]| {
        point.iter().zip(query).fold(one, |acc, (&a, &b)| {
            acc.mul(one.sub(a).mul(one.sub(b)).add(a.mul(b)))
        })
    };
    assert_eq!(transparent_values_from_closure(&eq, 3), eq_ind_partial_eval(&point));
}

#[test]
fn claim_reduced_channel_asks_for_the_opening() {
    let mut rng = StdRng::seed_from_u64(4);
    let log_len = 7;
    let specs = vec![OracleSpec { log_msg_len: log_len }];
    let message = random_oracle(&mut rng, log_len);
    let transparent = random_oracle(&mut rng, log_len);
    let mut prover = AkitaClaimReducedProverChannel::new(specs.clone());
    let sent = prover.send_oracle(&message);
    let challenges = random_challenges(&mut rng, log_len);
    let cr_alpha = random_scalar(&mut rng);
    let reduction = random_scalars(&mut rng, log_len + 7);
    let (claim, tape, b_final) = prover
        .prove_oracle_relation(sent, &message, &transparent, &challenges, cr_alpha, &reduction)
        .unwrap();
    let mut channel = AkitaClaimReducedVerifierChannel::new(specs);
    let oracle = channel.recv_oracle();
    let point: Vec<BiniusScalar> = (0..log_len).map(|_| random_binary(&mut rng)).collect();
    let transparent_eval = evaluate(&transparent, &point);
    let mut relations = [ClaimReducedRelation {
        oracle,
        transparent,
        claim,
        tape,
        shape: akita_claim_reduced_opening_shape(&root_only_schedule()).unwrap(),
        schedule: root_only_schedule(),
        point,
        transparent_eval,
    }];
    let expected = with_one_coordinate(&reduction);
    assert_eq!(
        channel.verify_oracle_relations(&relations, |index, opening| {
            index == 0 && opening.point == expected && opening.value == b_final
        }),
        Ok(())
    );
    assert_eq!(
        channel.verify_oracle_relations(&relations, |_, _| false),
        Err(ChannelError::ProofEmpty)
    );
    relations[0].schedule.is_root_direct = true;
    assert_eq!(
        channel.verify_oracle_relations(&relations, |_, _| true),
        Err(ChannelError::ProofEmpty)
    );
    relations[0].schedule.is_root_direct = false;
    relations[0].shape = BatchedProofShape::Direct { witness_shapes: Vec::new() };
    assert_eq!(
        channel.verify_oracle_relations(&relations, |_, _| true),
        Err(ChannelError::ProofEmpty)
    );
    relations[0].shape = akita_claim_reduced_opening_shape(&root_only_schedule()).unwrap();
    relations[0].transparent_eval = transparent_eval.add(BiniusScalar::one());
    assert_eq!(
        channel.verify_oracle_relations(&relations, |_, _| true),
        Err(ChannelError::InvalidAssert)
    );
    relations[0].claim = claim.add(BiniusScalar::one());
    assert_eq!(
        channel.verify_oracle_relations(&relations, |_, _| true),
        Err(ChannelError::ProofEmpty)
    );
    assert_eq!(channel.verify_oracle_relations(&[], |_, _| false), Ok(()));
}

#[test]
fn succinct_channel_asks_for_two_openings() {
    let mut rng = StdRng::seed_from_u64(5);
    let log_len = 7;
    let specs = vec![OracleSpec { log_msg_len: log_len }];
    let message = random_oracle(&mut rng, log_len);
    let transparent = random_oracle(&mut rng, log_len);
    let mut prover = HachiSuccinctProverChannel::new(specs.clone());
    let sent = prover.send_oracle(&message);
    let challenges = random_challenges(&mut rng, log_len);
    let (claim, tape) =
        prover.prove_oracle_relation(sent, &message, &transparent, &challenges).unwrap();
    let table = prover.bit_table(sent);
    let mut channel = HachiSuccinctVerifierChannel::new(specs);
    let oracle = channel.recv_oracle();
    let point: Vec<BiniusScalar> = (0..log_len).map(|_| random_binary(&mut rng)).collect();
    let transparent_eval = evaluate(&transparent, &point);
    let mut relations =
        [SuccinctRelation { oracle, transparent, claim, tape, point, transparent_eval }];
    assert_eq!(
        channel.verify_oracle_relations(&relations, |_, selected, boolean| {
            selected.value == multilinear_eval(table, &selected.point[1..])
                && boolean.value == multilinear_eval(table, &boolean.point[1..])
        }),
        Ok(())
    );
    assert_eq!(
        channel.verify_oracle_relations(&relations, |_, _, _| false),
        Err(ChannelError::ProofEmpty)
    );
    relations[0].claim = claim.add(BiniusScalar::one());
    assert_eq!(
        channel.verify_oracle_relations(&relations, |_, _, _| true),
        Err(ChannelError::ProofEmpty)
    );
    relations[0].claim = claim;
    for value in &mut relations[0].transparent {
        *value = value.add(BiniusScalar::one());
    }
    relations[0].transparent_eval = transparent_eval.add(BiniusScalar::one());
    assert_eq!(
        channel.verify_oracle_relations(&relations, |_, _, _| true),
        Err(ChannelError::ProofEmpty)
    );
}

#[test]
fn full_open_channel_stops_at_the_first_failure() {
    let mut rng = StdRng::seed_from_u64(6);
    let specs = vec![OracleSpec { log_msg_len: 2 }, OracleSpec { log_msg_len: 1 }];
    let mut channel = HachiFullOpenVerifierChannel::new(specs);
    let mut relations = Vec::new();
    for log_len in [2, 1] {
        let message = random_oracle(&mut rng, log_len);
        let transparent = random_oracle(&mut rng, log_len);
        let (claim, opened_sums) = prove_full_open_relation(&message, &transparent).unwrap();
        let oracle = channel.recv_oracle(message).unwrap();
        let point: Vec<BiniusScalar> = (0..log_len).map(|_| random_binary(&mut rng)).collect();
        let transparent_eval = evaluate(&transparent, &point);
        relations.push(FullOpenRelation {
            oracle,
            transparent,
            claim,
            opened_sums,
            point,
            transparent_eval,
        });
    }
    assert_eq!(channel.verify_oracle_relations(&relations), Ok(()));
    relations[1].opened_sums[7] = u64::MAX;
    assert_eq!(channel.verify_oracle_relations(&relations), Err(ChannelError::ProofEmpty));
    let eval = relations[0].transparent_eval;
    relations[0].transparent_eval = eval.add(BiniusScalar::one());
    assert_eq!(channel.verify_oracle_relations(&relations), Err(ChannelError::InvalidAssert));
}

#[test]
fn prover_channels_prove_several_relations() {
    let mut rng = StdRng::seed_from_u64(8);
    let log_len = 7;
    let specs = vec![OracleSpec { log_msg_len: log_len }; 2];
    let messages = [random_oracle(&mut rng, log_len), random_oracle(&mut rng, log_len)];
    let transparents = [random_oracle(&mut rng, log_len), random_oracle(&mut rng, log_len)];

    let mut reduced = AkitaClaimReducedProverChannel::new(specs.clone());
    let mut akita = AkitaSuccinctProverChannel::new(specs.clone());
    let mut hachi = HachiSuccinctProverChannel::new(specs.clone());
    let mut full = HachiFullOpenProverChannel::new(specs.clone());
    let mut verifier = AkitaClaimReducedVerifierChannel::new(specs.clone());
    let mut reduced_statements = Vec::new();
    let mut akita_statements = Vec::new();
    let mut hachi_statements = Vec::new();
    let mut full_statements = Vec::new();
    let mut oracles = Vec::new();
    for (message, transparent) in messages.iter().zip(&transparents) {
        let challenges = random_challenges(&mut rng, log_len);
        let copy = || BridgeChallenges {
            alpha: challenges.alpha,
            selected: challenges.selected.clone(),
            bool_weight_point: challenges.bool_weight_point.clone(),
            booleanity: challenges.booleanity.clone(),
        };
        oracles.push(verifier.recv_oracle());
        reduced_statements.push(ClaimReducedStatement {
            oracle: reduced.send_oracle(message),
            message: message.clone(),
            transparent: transparent.clone(),
            challenges: copy(),
            cr_alpha: random_scalar(&mut rng),
            reduction_challenges: random_scalars(&mut rng, log_len + 7),
        });
        akita_statements.push(AkitaSuccinctStatement {
            oracle: akita.send_oracle(message),
            message: message.clone(),
            transparent: transparent.clone(),
            challenges: copy(),
        });
        hachi_statements.push(HachiSuccinctStatement {
            oracle: hachi.send_oracle(message),
            message: message.clone(),
            transparent: transparent.clone(),
            challenges: copy(),
        });
        full_statements.push(FullOpenStatement {
            oracle: full.send_oracle(message),
            message: message.clone(),
            transparent: transparent.clone(),
        });
    }

    let reduced_proofs = reduced.prove_oracle_relations(&reduced_statements).unwrap();
    let akita_proofs = akita.prove_oracle_relations(&akita_statements).unwrap();
    let hachi_proofs = hachi.prove_oracle_relations(&hachi_statements).unwrap();
    let full_proofs = full.prove_oracle_relations(&full_statements).unwrap();
    assert_eq!(akita_proofs, hachi_proofs);
    assert_eq!(full_proofs.len(), 2);
    for (i, proof) in reduced_proofs.iter().enumerate() {
        assert_eq!(proof.claim, terminal_linear_claim(&messages[i], &transparents[i]));
        assert_eq!(proof.claim, akita_proofs[i].claim);
        assert_eq!(proof.claim, full_proofs[i].claim);
        assert_eq!(proof.tape.bridge, akita_proofs[i].tape);
        let opening = verifier
            .verify_oracle_relation(oracles[i], &transparents[i], proof.claim, &proof.tape)
            .unwrap();
        assert_eq!(opening.value, proof.b_final);
        let flipped = proof.claim.add(BiniusScalar::one());
        assert_eq!(
            verifier.verify_oracle_relation(oracles[i], &transparents[i], flipped, &proof.tape),
            Err(ChannelError::ProofEmpty)
        );
    }
    assert_eq!(reduced.prove_oracle_relations(&[]), Ok(Vec::new()));
}
