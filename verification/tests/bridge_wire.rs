//! Framing, scalars, samples and proof shapes.

use binary_proofs::bridge::error::ChannelError;
use binary_proofs::bridge::fp128::{Fp128, HachiScalar, MODULUS};
use binary_proofs::bridge::hachi::{read_hachi, write_hachi};
use binary_proofs::bridge::opening::{
    akita_claim_reduced_opening_shape, batched_shape_rounds, check_opening_shape,
    stage1_arguments, FoldLevel, OpeningSchedule,
    AKITA_OPENING_CLAIMS, AKITA_OPENING_GROUPS, AKITA_OPENING_POINTS,
};
use binary_proofs::bridge::parity::BiniusScalar;
use binary_proofs::bridge::rounds::{
    booleanity_messages, booleanity_tape, product_messages, product_tape, ProductSumcheckProof,
    WeightedBooleanitySumcheckProof,
};
use binary_proofs::bridge::shape::{
    read_batched_shape, write_batched_shape, BatchedProofShape, DirectWitnessShape,
    LevelProofShape, ProofStepShape, Stage1StageShape,
};
use binary_proofs::bridge::wire::{
    read_akita, read_scalar, read_scalars, sample_akita_scalar, sample_akita_scalar_vec,
    scalar_from_bytes, scalar_to_bytes, write_akita, write_scalars,
    MAX_AKITA_ENCODED_OBJECT_BYTES,
};


#[test]
fn read_akita_rejects_trailing_bytes() {
    let scalar = Fp128::from_u64(42);
    let mut payload = scalar_to_bytes(scalar);
    assert_eq!(read_scalar(&write_akita(&payload), 0), Ok(scalar));
    payload.push(0);
    assert!(read_scalar(&write_akita(&payload), 0).is_err());
}

#[test]
fn read_hachi_rejects_trailing_bytes() {
    let scalar = HachiScalar::from_u64(42);
    let mut payload = scalar_to_bytes(scalar);
    payload.push(0);
    assert!(read_scalar(&write_hachi(&payload), 0).is_err());
}

#[test]
fn read_akita_rejects_oversized_payload_before_allocation() {
    let stream = (MAX_AKITA_ENCODED_OBJECT_BYTES + 1).to_le_bytes();
    assert!(read_akita(&stream, 0).is_err());
}

#[test]
fn read_hachi_rejects_oversized_payload_before_allocation() {
    let stream = (MAX_AKITA_ENCODED_OBJECT_BYTES + 1).to_le_bytes();
    assert!(read_hachi(&stream, 0).is_err());
}

#[test]
fn frames_are_read_one_after_the_other() {
    assert_eq!(MAX_AKITA_ENCODED_OBJECT_BYTES, 64 * 1024 * 1024);
    let mut stream = write_akita(b"first");
    assert_eq!(stream[..8], 5u64.to_le_bytes());
    stream.extend(write_akita(b""));
    stream.extend(write_akita(b"last"));
    let (first, at) = read_akita(&stream, 0).unwrap();
    let (empty, at) = read_akita(&stream, at).unwrap();
    let (last, end) = read_akita(&stream, at).unwrap();
    assert_eq!((first.as_slice(), empty.len(), last.as_slice()), (&b"first"[..], 0, &b"last"[..]));
    assert_eq!(end, stream.len());
    assert_eq!(read_akita(&stream, end), Err(ChannelError::ProofEmpty));
    assert_eq!(read_akita(&stream[..10], 0), Err(ChannelError::ProofEmpty));
}

#[test]
fn scalars_are_encoded_canonically() {
    let value = MODULUS - 2;
    let scalar = Fp128::from_canonical_u128_checked(value).unwrap();
    let bytes = scalar_to_bytes(scalar);
    assert_eq!(bytes, value.to_le_bytes());
    assert_eq!(scalar_from_bytes(&bytes), Ok(scalar));
    assert_eq!(scalar_from_bytes(&MODULUS.to_le_bytes()), Err(ChannelError::ProofEmpty));
    assert_eq!(scalar_from_bytes(&bytes[..15]), Err(ChannelError::ProofEmpty));
}

#[test]
fn samples_that_are_no_residues_are_skipped() {
    let samples: Vec<BiniusScalar> = [u128::MAX, 7, MODULUS, MODULUS - 1, 9]
        .into_iter()
        .map(BiniusScalar::new)
        .collect();
    assert_eq!(sample_akita_scalar(&samples, 0), Some((Fp128::from_u64(7), 2)));
    let (scalars, next) = sample_akita_scalar_vec(&samples, 0, 2).unwrap();
    assert_eq!(scalars[0], Fp128::from_u64(7));
    assert_eq!(scalars[1].to_canonical_u128(), MODULUS - 1);
    assert_eq!(next, 4);
    assert_eq!(sample_akita_scalar(&samples, 5), None);
    assert_eq!(sample_akita_scalar_vec(&samples, 0, 4), None);
    assert_eq!(sample_akita_scalar_vec(&samples, 3, 0), Some((Vec::new(), 3)));
}

fn level(seed: usize) -> LevelProofShape {
    LevelProofShape {
        y_ring_coeffs: seed,
        v_coeffs: seed + 1,
        stage1_stages: vec![
            Stage1StageShape { sumcheck: (seed, 4), child_claims: 2 },
            Stage1StageShape { sumcheck: (seed + 9, 5), child_claims: 1 },
        ],
        stage2_sumcheck: (seed + 2, 3),
        next_commit_coeffs: seed + 3,
    }
}

#[test]
fn shapes_are_read_back() {
    let shapes = [
        BatchedProofShape::Fold {
            root_shape: level(64),
            step_shapes: vec![
                ProofStepShape::Fold(level(1000)),
                ProofStepShape::Direct(DirectWitnessShape::PackedDigits((77, 5))),
            ],
        },
        BatchedProofShape::Direct {
            witness_shapes: vec![
                DirectWitnessShape::FieldElements(12),
                DirectWitnessShape::PackedDigits((3, 2)),
            ],
        },
    ];
    for shape in &shapes {
        let bytes = write_batched_shape(shape);
        let (read, end) = read_batched_shape(&bytes, 0).unwrap();
        assert_eq!(read, *shape);
        assert_eq!(end, bytes.len());
        for cut in [0, 1, 9, bytes.len() - 1] {
            assert_eq!(read_batched_shape(&bytes[..cut], 0).err(), Some(ChannelError::ProofEmpty));
        }
    }
    let direct = write_batched_shape(&shapes[1]);
    assert_eq!(direct[0], 1);
    assert_eq!(direct[1..9], 2u64.to_le_bytes());
    assert_eq!(direct[9], 1);
    assert_eq!(direct[10..18], 12u64.to_le_bytes());
    assert_eq!(read_batched_shape(&[2], 0).err(), Some(ChannelError::ProofEmpty));
}

#[test]
fn rounds_of_a_level() {
    assert_eq!(batched_shape_rounds(64, 64), 6);
    assert_eq!(batched_shape_rounds(64, 64 * 5), 9);
    assert_eq!(batched_shape_rounds(64, 64 * 8), 9);
    assert_eq!(batched_shape_rounds(64, 10), 6);
    assert_eq!(batched_shape_rounds(3, 12), 2);
}

fn fold_level(ring_elements: usize) -> FoldLevel {
    FoldLevel {
        ring_dimension: 64,
        d_rows: 3,
        ring_elements,
        stage1_stages: vec![Stage1StageShape { sumcheck: (10, 4), child_claims: 2 }],
        next_ring_dimension: 32,
        next_b_rows: 5,
        next_log_basis: 4,
    }
}

#[test]
fn opening_shape_follows_the_schedule() {
    assert_eq!((AKITA_OPENING_CLAIMS, AKITA_OPENING_GROUPS, AKITA_OPENING_POINTS), (1, 1, 1));
    let mut schedule = OpeningSchedule {
        is_root_direct: false,
        num_fold_levels: 2,
        root_next_w_len: 640,
        root: Some(fold_level(0)),
        levels: Vec::new(),
    };
    assert_eq!(schedule.next_level(), (1, 640, 4));
    assert_eq!(
        akita_claim_reduced_opening_shape(&schedule).err(),
        Some(ChannelError::ProofEmpty)
    );
    schedule.levels.push(fold_level(7));
    assert_eq!(schedule.next_level(), (2, 448, 4));
    let stages = vec![Stage1StageShape { sumcheck: (10, 4), child_claims: 2 }];
    let expected = BatchedProofShape::Fold {
        root_shape: LevelProofShape {
            y_ring_coeffs: 64,
            v_coeffs: 192,
            stage1_stages: stages.clone(),
            stage2_sumcheck: (10, 3),
            next_commit_coeffs: 160,
        },
        step_shapes: vec![
            ProofStepShape::Fold(LevelProofShape {
                y_ring_coeffs: 64,
                v_coeffs: 192,
                stage1_stages: stages,
                stage2_sumcheck: (9, 3),
                next_commit_coeffs: 160,
            }),
            ProofStepShape::Direct(DirectWitnessShape::PackedDigits((448, 4))),
        ],
    };
    assert!(schedule.has_sizes());
    assert_eq!(check_opening_shape(&schedule, &expected), Ok(()));
    assert_eq!(akita_claim_reduced_opening_shape(&schedule).as_ref(), Ok(&expected));
    schedule.levels[0].d_rows = 4;
    assert_eq!(check_opening_shape(&schedule, &expected), Err(ChannelError::ProofEmpty));
    schedule.levels[0].d_rows = 3;
    schedule.levels[0].stage1_stages[0].child_claims = 3;
    assert_eq!(check_opening_shape(&schedule, &expected), Err(ChannelError::ProofEmpty));
    schedule.levels[0].stage1_stages[0].child_claims = 2;
    schedule.levels[0].next_log_basis = 5;
    assert_eq!(check_opening_shape(&schedule, &expected), Err(ChannelError::ProofEmpty));
    schedule.levels[0].next_log_basis = 4;
    let direct = BatchedProofShape::Direct { witness_shapes: Vec::new() };
    assert_eq!(check_opening_shape(&schedule, &direct), Err(ChannelError::ProofEmpty));
    schedule.is_root_direct = true;
    assert_eq!(check_opening_shape(&schedule, &expected), Err(ChannelError::ProofEmpty));
    assert_eq!(
        akita_claim_reduced_opening_shape(&schedule).err(),
        Some(ChannelError::ProofEmpty)
    );
    schedule.is_root_direct = false;
    schedule.root = None;
    assert_eq!(
        akita_claim_reduced_opening_shape(&schedule).err(),
        Some(ChannelError::ProofEmpty)
    );
}

#[test]
fn stage_one_is_asked_for_rounds_and_digits() {
    assert_eq!(stage1_arguments(64, 640, 4), (10, 16));
    assert_eq!(stage1_arguments(64, 448, 3), (9, 8));
    assert_eq!(stage1_arguments(3, 12, 0), (2, 1));
}

#[test]
fn schedules_with_sizes_beyond_the_machine_are_recognized() {
    let mut schedule = OpeningSchedule {
        is_root_direct: false,
        num_fold_levels: 2,
        root_next_w_len: 640,
        root: Some(fold_level(0)),
        levels: vec![fold_level(7)],
    };
    assert!(schedule.has_sizes());
    schedule.levels[0].ring_elements = usize::MAX / 32;
    assert!(!schedule.has_sizes());
    schedule.levels[0].ring_elements = 7;
    schedule.levels[0].ring_dimension = 0;
    assert!(!schedule.has_sizes());
    schedule.levels[0].ring_dimension = 1;
    schedule.levels[0].ring_elements = usize::MAX;
    assert!(!schedule.has_sizes());
    schedule.levels[0] = fold_level(7);
    schedule.root_next_w_len = usize::MAX;
    assert!(schedule.has_sizes());
}

#[test]
fn framed_scalars_are_read_back() {
    let scalars: Vec<Fp128> = [3u64, 0, u64::MAX].into_iter().map(Fp128::from_u64).collect();
    let mut stream = vec![9u8, 9];
    write_scalars(&mut stream, &scalars);
    assert_eq!(stream.len(), 2 + 3 * 24);
    assert_eq!(read_scalars(&stream, 2, 3), Ok(scalars.clone()));
    assert_eq!(read_scalar(&stream, 26), Ok(scalars[1]));
    assert_eq!(read_scalars(&stream, 2, 4), Err(ChannelError::ProofEmpty));
    stream[2] = 15;
    assert_eq!(read_scalars(&stream, 2, 3), Err(ChannelError::ProofEmpty));
}

#[test]
fn sumcheck_messages_are_read_back() {
    let claim = Fp128::from_u64(5);
    let rounds: Vec<[Fp128; 3]> =
        (0..2u64).map(|k| [0, 1, 2].map(|t| Fp128::from_u64(10 * k + t))).collect();
    let challenges = vec![Fp128::from_u64(7), Fp128::from_u64(8)];
    let proof = ProductSumcheckProof { round_evals: rounds.clone() };
    let messages = product_messages(claim, &proof);
    assert_eq!(messages.len(), 7);
    let tape = product_tape(&messages, challenges.clone());
    assert_eq!(tape.initial_claim, claim);
    assert_eq!(tape.proof, proof);
    assert_eq!(tape.challenges, challenges);
    let rounds: Vec<[Fp128; 4]> =
        (0..2u64).map(|k| [0, 1, 2, 3].map(|t| Fp128::from_u64(10 * k + t))).collect();
    let proof = WeightedBooleanitySumcheckProof { round_evals: rounds };
    let messages = booleanity_messages(claim, &proof);
    assert_eq!(messages.len(), 9);
    assert_eq!(messages[8], Fp128::from_u64(13));
    let tape = booleanity_tape(&messages, challenges);
    assert_eq!((tape.initial_claim, tape.proof), (claim, proof));
}
