//! Shapes of batched opening proofs: what the verifier expects to deserialize, and their encoding.

use vstd::prelude::*;

use super::error::ChannelError;
use super::wire::{read_word, word_at, write_word};

verus! {

/// Shape of one stage of the first sumcheck of a level.
#[derive(Debug, Clone, Copy, PartialEq, Eq)]
pub struct Stage1StageShape {
    /// Number of rounds and number of values per round.
    pub sumcheck: (usize, usize),
    /// Number of claims that the stage passes on.
    pub child_claims: usize,
}

/// Shape of the proof of one folding level.
#[derive(Debug, PartialEq, Eq)]
pub struct LevelProofShape {
    pub y_ring_coeffs: usize,
    pub v_coeffs: usize,
    pub stage1_stages: Vec<Stage1StageShape>,
    pub stage2_sumcheck: (usize, usize),
    pub next_commit_coeffs: usize,
}

/// Shape of a witness that is sent in clear.
#[derive(Debug, Clone, Copy, PartialEq, Eq)]
pub enum DirectWitnessShape {
    /// A number of digits of a number of bits.
    PackedDigits((usize, u32)),
    /// A number of field elements.
    FieldElements(usize),
}

/// Shape of one step after the root.
#[derive(Debug, PartialEq, Eq)]
pub enum ProofStepShape {
    Fold(LevelProofShape),
    Direct(DirectWitnessShape),
}

/// Shape of a batched opening proof.
#[derive(Debug, PartialEq, Eq)]
pub enum BatchedProofShape {
    Fold { root_shape: LevelProofShape, step_shapes: Vec<ProofStepShape> },
    Direct { witness_shapes: Vec<DirectWitnessShape> },
}

/// A word as a size of the machine.
pub open spec fn size_of_word(word: int) -> usize {
    (word as u64) as usize
}

/// Where a stage is encoded at a position.
pub open spec fn reads_stage(bytes: Seq<u8>, at: int, stage: Stage1StageShape) -> bool {
    &&& stage.sumcheck.0 == size_of_word(word_at(bytes, at))
    &&& stage.sumcheck.1 == size_of_word(word_at(bytes, at + 8))
    &&& stage.child_claims == size_of_word(word_at(bytes, at + 16))
}

/// The number of stages of a level that is encoded at a position.
pub open spec fn stages_at(bytes: Seq<u8>, at: int) -> usize {
    size_of_word(word_at(bytes, at + 16))
}

/// The position after a level that is encoded at a position, if it is complete.
pub open spec fn level_end(bytes: Seq<u8>, at: int) -> Option<int> {
    if at + 24 <= bytes.len() && at + 48 + 24 * stages_at(bytes, at) <= bytes.len() {
        Some(at + 48 + 24 * stages_at(bytes, at))
    } else {
        None
    }
}

/// The level that is encoded at a position: three words, three for each stage, three words.
pub open spec fn reads_level(bytes: Seq<u8>, at: int, shape: LevelProofShape) -> bool {
    let n = stages_at(bytes, at) as int;
    &&& shape.y_ring_coeffs == size_of_word(word_at(bytes, at))
    &&& shape.v_coeffs == size_of_word(word_at(bytes, at + 8))
    &&& shape.stage1_stages@.len() == n
    &&& forall|j: int|
        0 <= j < n ==> reads_stage(bytes, at + 24 + 24 * j, #[trigger] shape.stage1_stages@[j])
    &&& shape.stage2_sumcheck.0 == size_of_word(word_at(bytes, at + 24 + 24 * n))
    &&& shape.stage2_sumcheck.1 == size_of_word(word_at(bytes, at + 32 + 24 * n))
    &&& shape.next_commit_coeffs == size_of_word(word_at(bytes, at + 40 + 24 * n))
}

/// The position after a direct witness shape that is encoded at a position, if it is complete.
pub open spec fn direct_end(bytes: Seq<u8>, at: int) -> Option<int> {
    if at + 17 <= bytes.len() && bytes[at] == 0 {
        Some(at + 17)
    } else if at + 9 <= bytes.len() && bytes[at] == 1 {
        Some(at + 9)
    } else {
        None
    }
}

/// The direct witness shape that is encoded at a position: a tag and one or two words.
pub open spec fn reads_direct(bytes: Seq<u8>, at: int, shape: DirectWitnessShape) -> bool {
    match shape {
        DirectWitnessShape::PackedDigits((n, bits)) => bytes[at] == 0 && n == size_of_word(
            word_at(bytes, at + 1),
        ) && bits == size_of_word(word_at(bytes, at + 9)) as u32,
        DirectWitnessShape::FieldElements(n) => bytes[at] == 1 && n == size_of_word(
            word_at(bytes, at + 1),
        ),
    }
}

/// The position after a step that is encoded at a position, if it is complete.
pub open spec fn step_end(bytes: Seq<u8>, at: int) -> Option<int> {
    if at < bytes.len() && bytes[at] == 0 {
        level_end(bytes, at + 1)
    } else if at < bytes.len() && bytes[at] == 1 {
        direct_end(bytes, at + 1)
    } else {
        None
    }
}

/// The step that is encoded at a position: a tag and a level or a direct witness shape.
pub open spec fn reads_step(bytes: Seq<u8>, at: int, shape: ProofStepShape) -> bool {
    match shape {
        ProofStepShape::Fold(level) => bytes[at] == 0 && reads_level(bytes, at + 1, level),
        ProofStepShape::Direct(direct) => bytes[at] == 1 && reads_direct(bytes, at + 1, direct),
    }
}

/// The position after `n` steps, if they are complete.
pub open spec fn steps_end(bytes: Seq<u8>, at: int, n: nat) -> Option<int>
    decreases n,
{
    if n == 0 {
        Some(at)
    } else {
        match steps_end(bytes, at, (n - 1) as nat) {
            Some(p) => step_end(bytes, p),
            None => None,
        }
    }
}

/// The position after `n` direct witness shapes, if they are complete.
pub open spec fn directs_end(bytes: Seq<u8>, at: int, n: nat) -> Option<int>
    decreases n,
{
    if n == 0 {
        Some(at)
    } else {
        match directs_end(bytes, at, (n - 1) as nat) {
            Some(p) => direct_end(bytes, p),
            None => None,
        }
    }
}

/// The steps that are encoded one after the other from a position on.
pub open spec fn reads_steps(bytes: Seq<u8>, at: int, shapes: Seq<ProofStepShape>) -> bool {
    forall|j: int| 0 <= j < shapes.len() ==> step_stands(bytes, at, j as nat, #[trigger] shapes[j])
}

/// Whether a step is encoded after `j` others.
pub open spec fn step_stands(bytes: Seq<u8>, at: int, j: nat, shape: ProofStepShape) -> bool {
    match steps_end(bytes, at, j) {
        Some(p) => reads_step(bytes, p, shape),
        None => false,
    }
}

/// The direct witness shapes that are encoded one after the other from a position on.
pub open spec fn reads_directs(bytes: Seq<u8>, at: int, shapes: Seq<DirectWitnessShape>) -> bool {
    forall|j: int|
        0 <= j < shapes.len() ==> direct_stands(bytes, at, j as nat, #[trigger] shapes[j])
}

/// Whether a direct witness shape is encoded after `j` others.
pub open spec fn direct_stands(bytes: Seq<u8>, at: int, j: nat, shape: DirectWitnessShape) -> bool {
    match directs_end(bytes, at, j) {
        Some(p) => reads_direct(bytes, p, shape),
        None => false,
    }
}

/// The position after a batched shape that is encoded at a position, if it is complete.
pub open spec fn batched_end(bytes: Seq<u8>, at: int) -> Option<int> {
    if at < bytes.len() && bytes[at] == 0 {
        match level_end(bytes, at + 1) {
            Some(p) => if p + 8 <= bytes.len() {
                steps_end(bytes, p + 8, word_at(bytes, p) as nat)
            } else {
                None
            },
            None => None,
        }
    } else if at + 9 <= bytes.len() && bytes[at] == 1 {
        directs_end(bytes, at + 9, word_at(bytes, at + 1) as nat)
    } else {
        None
    }
}

/// The batched shape that is encoded at a position.
pub open spec fn reads_batched(bytes: Seq<u8>, at: int, shape: BatchedProofShape) -> bool {
    match shape {
        BatchedProofShape::Fold { root_shape, step_shapes } => {
            &&& bytes[at] == 0
            &&& reads_level(bytes, at + 1, root_shape)
            &&& (level_end(bytes, at + 1) matches Some(p) && step_shapes@.len() == word_at(bytes, p)
                && reads_steps(bytes, p + 8, step_shapes@))
        },
        BatchedProofShape::Direct { witness_shapes } => {
            &&& bytes[at] == 1
            &&& witness_shapes@.len() == word_at(bytes, at + 1)
            &&& reads_directs(bytes, at + 9, witness_shapes@)
        },
    }
}

/// Reads a size, if eight bytes are left.
fn read_usize(bytes: &[u8], at: usize) -> (r: Result<usize, ChannelError>)
    requires
        at <= bytes@.len(),
    ensures
        match r {
            Ok(size) => at + 8 <= bytes@.len() && size == size_of_word(word_at(bytes@, at as int)),
            Err(e) => e == ChannelError::ProofEmpty && at + 8 > bytes@.len(),
        },
{
    match read_word(bytes, at) {
        Ok(word) => Ok(
            #[verifier::truncate]
            (word as usize),
        ),
        Err(e) => Err(e),
    }
}

/// Reads a stage at a position.
fn read_stage(bytes: &[u8], at: usize) -> (r: Result<Stage1StageShape, ChannelError>)
    requires
        at <= bytes@.len(),
    ensures
        match r {
            Ok(stage) => at + 24 <= bytes@.len() && reads_stage(bytes@, at as int, stage),
            Err(e) => e == ChannelError::ProofEmpty && at + 24 > bytes@.len(),
        },
{
    if bytes.len() - at < 24 {
        return Err(ChannelError::ProofEmpty);
    }
    match (read_usize(bytes, at), read_usize(bytes, at + 8), read_usize(bytes, at + 16)) {
        (Ok(rounds), Ok(values), Ok(child_claims)) => Ok(
            Stage1StageShape { sumcheck: (rounds, values), child_claims },
        ),
        _ => Err(ChannelError::ProofEmpty),
    }
}

/// Reads a level at a position, and the position after it.
fn read_level_shape(bytes: &[u8], at: usize) -> (r: Result<(LevelProofShape, usize), ChannelError>)
    requires
        at <= bytes@.len(),
    ensures
        match r {
            Ok((shape, next)) => level_end(bytes@, at as int) == Some(next as int) && reads_level(
                bytes@,
                at as int,
                shape,
            ),
            Err(e) => e == ChannelError::ProofEmpty && level_end(bytes@, at as int) is None,
        },
{
    let total: usize = bytes.len();
    if total - at < 24 {
        return Err(ChannelError::ProofEmpty);
    }
    let (y_ring_coeffs, v_coeffs, n_stages) = match (
        read_usize(bytes, at),
        read_usize(bytes, at + 8),
        read_usize(bytes, at + 16),
    ) {
        (Ok(y), Ok(v), Ok(n)) => (y, v, n),
        _ => {
            return Err(ChannelError::ProofEmpty);
        },
    };
    let mut stage1_stages: Vec<Stage1StageShape> = Vec::new();
    let mut p: usize = at + 24;
    let mut j: usize = 0;
    while j < n_stages
        invariant
            j <= n_stages,
            total == bytes@.len(),
            at + 24 <= total,
            n_stages == stages_at(bytes@, at as int),
            p == at + 24 + 24 * j,
            p <= total,
            stage1_stages@.len() == j,
            forall|i: int|
                0 <= i < j ==> reads_stage(
                    bytes@,
                    at + 24 + 24 * i,
                    #[trigger] stage1_stages@[i],
                ),
        decreases n_stages - j,
    {
        match read_stage(bytes, p) {
            Ok(stage) => {
                stage1_stages.push(stage);
            },
            Err(e) => {
                return Err(e);
            },
        }
        p = p + 24;
        j = j + 1;
    }
    if total - p < 24 {
        return Err(ChannelError::ProofEmpty);
    }
    match (read_usize(bytes, p), read_usize(bytes, p + 8), read_usize(bytes, p + 16)) {
        (Ok(rounds), Ok(values), Ok(next_commit_coeffs)) => Ok(
            (
                LevelProofShape {
                    y_ring_coeffs,
                    v_coeffs,
                    stage1_stages,
                    stage2_sumcheck: (rounds, values),
                    next_commit_coeffs,
                },
                p + 24,
            ),
        ),
        _ => Err(ChannelError::ProofEmpty),
    }
}

/// Reads a direct witness shape at a position, and the position after it.
fn read_direct_shape(bytes: &[u8], at: usize) -> (r: Result<
    (DirectWitnessShape, usize),
    ChannelError,
>)
    requires
        at <= bytes@.len(),
    ensures
        match r {
            Ok((shape, next)) => direct_end(bytes@, at as int) == Some(next as int)
                && reads_direct(bytes@, at as int, shape),
            Err(e) => e == ChannelError::ProofEmpty && direct_end(bytes@, at as int) is None,
        },
{
    let total: usize = bytes.len();
    if at >= total {
        return Err(ChannelError::ProofEmpty);
    }
    let tag: u8 = bytes[at];
    if tag == 0 {
        if total - at < 17 {
            return Err(ChannelError::ProofEmpty);
        }
        match (read_usize(bytes, at + 1), read_usize(bytes, at + 9)) {
            (Ok(n), Ok(bits)) => {
                let low: u32 = #[verifier::truncate]
                (bits as u32);
                Ok((DirectWitnessShape::PackedDigits((n, low)), at + 17))
            },
            _ => Err(ChannelError::ProofEmpty),
        }
    } else if tag == 1 {
        match read_usize(bytes, at + 1) {
            Ok(n) => Ok((DirectWitnessShape::FieldElements(n), at + 9)),
            Err(e) => Err(e),
        }
    } else {
        Err(ChannelError::ProofEmpty)
    }
}

/// Reads a step at a position, and the position after it.
fn read_step_shape(bytes: &[u8], at: usize) -> (r: Result<(ProofStepShape, usize), ChannelError>)
    requires
        at <= bytes@.len(),
    ensures
        match r {
            Ok((shape, next)) => step_end(bytes@, at as int) == Some(next as int) && reads_step(
                bytes@,
                at as int,
                shape,
            ),
            Err(e) => e == ChannelError::ProofEmpty && step_end(bytes@, at as int) is None,
        },
{
    if at >= bytes.len() {
        return Err(ChannelError::ProofEmpty);
    }
    let tag: u8 = bytes[at];
    if tag == 0 {
        match read_level_shape(bytes, at + 1) {
            Ok((level, next)) => Ok((ProofStepShape::Fold(level), next)),
            Err(e) => Err(e),
        }
    } else if tag == 1 {
        match read_direct_shape(bytes, at + 1) {
            Ok((direct, next)) => Ok((ProofStepShape::Direct(direct), next)),
            Err(e) => Err(e),
        }
    } else {
        Err(ChannelError::ProofEmpty)
    }
}

/// Once the steps are incomplete, they stay so.
proof fn lemma_steps_incomplete(bytes: Seq<u8>, at: int, m: nat, n: nat)
    requires
        m <= n,
        steps_end(bytes, at, m) is None,
    ensures
        steps_end(bytes, at, n) is None,
    decreases n,
{
    if m < n {
        lemma_steps_incomplete(bytes, at, m, (n - 1) as nat);
    }
}

/// Once the direct witness shapes are incomplete, they stay so.
proof fn lemma_directs_incomplete(bytes: Seq<u8>, at: int, m: nat, n: nat)
    requires
        m <= n,
        directs_end(bytes, at, m) is None,
    ensures
        directs_end(bytes, at, n) is None,
    decreases n,
{
    if m < n {
        lemma_directs_incomplete(bytes, at, m, (n - 1) as nat);
    }
}

/// Reads `n` steps from a position on, and the position after them.
fn read_steps(bytes: &[u8], at: usize, n: u64) -> (r: Result<
    (Vec<ProofStepShape>, usize),
    ChannelError,
>)
    requires
        at <= bytes@.len(),
    ensures
        match r {
            Ok((shapes, next)) => steps_end(bytes@, at as int, n as nat) == Some(next as int)
                && shapes@.len() == n && next <= bytes@.len() && reads_steps(
                bytes@,
                at as int,
                shapes@,
            ),
            Err(e) => e == ChannelError::ProofEmpty && steps_end(bytes@, at as int, n as nat) is None,
        },
{
    let mut shapes: Vec<ProofStepShape> = Vec::new();
    let mut p: usize = at;
    let mut j: u64 = 0;
    while j < n
        invariant
            j <= n,
            p <= bytes@.len(),
            steps_end(bytes@, at as int, j as nat) == Some(p as int),
            shapes@.len() == j,
            reads_steps(bytes@, at as int, shapes@),
        decreases n - j,
    {
        let ghost before = shapes@;
        match read_step_shape(bytes, p) {
            Ok((shape, next)) => {
                shapes.push(shape);
                proof {
                    assert forall|i: int| 0 <= i < shapes@.len() implies step_stands(
                        bytes@,
                        at as int,
                        i as nat,
                        #[trigger] shapes@[i],
                    ) by {
                        if i < before.len() {
                            assert(shapes@[i] == before[i]);
                        }
                    }
                }
                p = next;
            },
            Err(e) => {
                proof {
                    lemma_steps_incomplete(bytes@, at as int, (j + 1) as nat, n as nat);
                }
                return Err(e);
            },
        }
        j = j + 1;
    }
    Ok((shapes, p))
}

/// Reads `n` direct witness shapes from a position on, and the position after them.
fn read_directs(bytes: &[u8], at: usize, n: u64) -> (r: Result<
    (Vec<DirectWitnessShape>, usize),
    ChannelError,
>)
    requires
        at <= bytes@.len(),
    ensures
        match r {
            Ok((shapes, next)) => directs_end(bytes@, at as int, n as nat) == Some(next as int)
                && shapes@.len() == n && next <= bytes@.len() && reads_directs(
                bytes@,
                at as int,
                shapes@,
            ),
            Err(e) => e == ChannelError::ProofEmpty && directs_end(
                bytes@,
                at as int,
                n as nat,
            ) is None,
        },
{
    let mut shapes: Vec<DirectWitnessShape> = Vec::new();
    let mut p: usize = at;
    let mut j: u64 = 0;
    while j < n
        invariant
            j <= n,
            p <= bytes@.len(),
            directs_end(bytes@, at as int, j as nat) == Some(p as int),
            shapes@.len() == j,
            reads_directs(bytes@, at as int, shapes@),
        decreases n - j,
    {
        let ghost before = shapes@;
        match read_direct_shape(bytes, p) {
            Ok((shape, next)) => {
                shapes.push(shape);
                proof {
                    assert forall|i: int| 0 <= i < shapes@.len() implies direct_stands(
                        bytes@,
                        at as int,
                        i as nat,
                        #[trigger] shapes@[i],
                    ) by {
                        if i < before.len() {
                            assert(shapes@[i] == before[i]);
                        }
                    }
                }
                p = next;
            },
            Err(e) => {
                proof {
                    lemma_directs_incomplete(bytes@, at as int, (j + 1) as nat, n as nat);
                }
                return Err(e);
            },
        }
        j = j + 1;
    }
    Ok((shapes, p))
}

/// Reads a batched proof shape at a position, and the position after it.
pub fn read_batched_shape(bytes: &[u8], at: usize) -> (r: Result<
    (BatchedProofShape, usize),
    ChannelError,
>)
    requires
        at <= bytes@.len(),
    ensures
        match r {
            Ok((shape, next)) => batched_end(bytes@, at as int) == Some(next as int)
                && reads_batched(bytes@, at as int, shape),
            Err(e) => e == ChannelError::ProofEmpty && batched_end(bytes@, at as int) is None,
        },
{
    if at >= bytes.len() {
        return Err(ChannelError::ProofEmpty);
    }
    let tag: u8 = bytes[at];
    if tag == 0 {
        let (root_shape, p) = match read_level_shape(bytes, at + 1) {
            Ok(level) => level,
            Err(e) => {
                return Err(e);
            },
        };
        let n: u64 = match read_word(bytes, p) {
            Ok(n) => n,
            Err(e) => {
                return Err(e);
            },
        };
        match read_steps(bytes, p + 8, n) {
            Ok((step_shapes, next)) => Ok(
                (BatchedProofShape::Fold { root_shape, step_shapes }, next),
            ),
            Err(e) => Err(e),
        }
    } else if tag == 1 {
        let n: u64 = match read_word(bytes, at + 1) {
            Ok(n) => n,
            Err(e) => {
                return Err(e);
            },
        };
        match read_directs(bytes, at + 9, n) {
            Ok((witness_shapes, next)) => Ok((BatchedProofShape::Direct { witness_shapes }, next)),
            Err(e) => Err(e),
        }
    } else {
        Err(ChannelError::ProofEmpty)
    }
}

/// Whether the words of a stage stand at a position.
pub open spec fn holds_stage(bytes: Seq<u8>, at: int, stage: Stage1StageShape) -> bool {
    &&& at + 24 <= bytes.len()
    &&& word_at(bytes, at) == stage.sumcheck.0
    &&& word_at(bytes, at + 8) == stage.sumcheck.1
    &&& word_at(bytes, at + 16) == stage.child_claims
}

/// The number of bytes of an encoded level.
pub open spec fn level_size(shape: LevelProofShape) -> int {
    48 + 24 * (shape.stage1_stages@.len() as int)
}

/// Whether the words of a level stand at a position.
pub open spec fn holds_level(bytes: Seq<u8>, at: int, shape: LevelProofShape) -> bool {
    let n = shape.stage1_stages@.len() as int;
    &&& at + level_size(shape) <= bytes.len()
    &&& word_at(bytes, at) == shape.y_ring_coeffs
    &&& word_at(bytes, at + 8) == shape.v_coeffs
    &&& word_at(bytes, at + 16) == n
    &&& forall|j: int|
        0 <= j < n ==> holds_stage(bytes, at + 24 + 24 * j, #[trigger] shape.stage1_stages@[j])
    &&& word_at(bytes, at + 24 + 24 * n) == shape.stage2_sumcheck.0
    &&& word_at(bytes, at + 32 + 24 * n) == shape.stage2_sumcheck.1
    &&& word_at(bytes, at + 40 + 24 * n) == shape.next_commit_coeffs
}

/// The number of bytes of an encoded direct witness shape.
pub open spec fn direct_size(shape: DirectWitnessShape) -> int {
    match shape {
        DirectWitnessShape::PackedDigits(_) => 17,
        DirectWitnessShape::FieldElements(_) => 9,
    }
}

/// Whether the tag and the words of a direct witness shape stand at a position.
pub open spec fn holds_direct(bytes: Seq<u8>, at: int, shape: DirectWitnessShape) -> bool {
    &&& at + direct_size(shape) <= bytes.len()
    &&& match shape {
        DirectWitnessShape::PackedDigits((n, bits)) => bytes[at] == 0 && word_at(bytes, at + 1) == n
            && word_at(bytes, at + 9) == bits,
        DirectWitnessShape::FieldElements(n) => bytes[at] == 1 && word_at(bytes, at + 1) == n,
    }
}

/// The number of bytes of an encoded step.
pub open spec fn step_size(shape: ProofStepShape) -> int {
    match shape {
        ProofStepShape::Fold(level) => 1 + level_size(level),
        ProofStepShape::Direct(direct) => 1 + direct_size(direct),
    }
}

/// Whether the tag and the rest of a step stand at a position.
pub open spec fn holds_step(bytes: Seq<u8>, at: int, shape: ProofStepShape) -> bool {
    match shape {
        ProofStepShape::Fold(level) => at < bytes.len() && bytes[at] == 0 && holds_level(
            bytes,
            at + 1,
            level,
        ),
        ProofStepShape::Direct(direct) => at < bytes.len() && bytes[at] == 1 && holds_direct(
            bytes,
            at + 1,
            direct,
        ),
    }
}

/// The number of bytes of the first `n` encoded steps.
pub open spec fn steps_size(shapes: Seq<ProofStepShape>, n: nat) -> int
    decreases n,
{
    if n == 0 {
        0
    } else {
        steps_size(shapes, (n - 1) as nat) + step_size(shapes[n - 1])
    }
}

/// The number of bytes of the first `n` encoded direct witness shapes.
pub open spec fn directs_size(shapes: Seq<DirectWitnessShape>, n: nat) -> int
    decreases n,
{
    if n == 0 {
        0
    } else {
        directs_size(shapes, (n - 1) as nat) + direct_size(shapes[n - 1])
    }
}

/// Whether the first `n` steps stand one after the other from a position on.
pub open spec fn holds_steps(bytes: Seq<u8>, at: int, shapes: Seq<ProofStepShape>, n: int) -> bool {
    forall|j: int|
        0 <= j < n ==> holds_step(bytes, at + steps_size(shapes, j as nat), #[trigger] shapes[j])
}

/// Whether the first `n` direct witness shapes stand one after the other from a position on.
pub open spec fn holds_directs(
    bytes: Seq<u8>,
    at: int,
    shapes: Seq<DirectWitnessShape>,
    n: int,
) -> bool {
    forall|j: int|
        0 <= j < n ==> holds_direct(
            bytes,
            at + directs_size(shapes, j as nat),
            #[trigger] shapes[j],
        )
}

/// Whether bytes are the encoding of a batched shape.
pub open spec fn is_batched_encoding(bytes: Seq<u8>, shape: BatchedProofShape) -> bool {
    match shape {
        BatchedProofShape::Fold { root_shape, step_shapes } => {
            let n = step_shapes@.len();
            let p = 1 + level_size(root_shape);
            &&& bytes.len() == p + 8 + steps_size(step_shapes@, n)
            &&& bytes[0] == 0
            &&& holds_level(bytes, 1, root_shape)
            &&& word_at(bytes, p) == n
            &&& holds_steps(bytes, p + 8, step_shapes@, n as int)
        },
        BatchedProofShape::Direct { witness_shapes } => {
            let n = witness_shapes@.len();
            &&& bytes.len() == 9 + directs_size(witness_shapes@, n)
            &&& bytes[0] == 1
            &&& word_at(bytes, 1) == n
            &&& holds_directs(bytes, 9, witness_shapes@, n as int)
        },
    }
}

/// Whether a sequence starts with another one.
pub open spec fn extends(a: Seq<u8>, b: Seq<u8>) -> bool {
    a.len() <= b.len() && b.take(a.len() as int) == a
}

/// Bytes and words stay when something is appended.
proof fn lemma_word_stays(a: Seq<u8>, b: Seq<u8>, at: int)
    requires
        extends(a, b),
        0 <= at,
    ensures
        at < a.len() ==> b[at] == a[at],
        at + 8 <= a.len() ==> word_at(b, at) == word_at(a, at),
{
    if at < a.len() {
        assert(b.take(a.len() as int)[at] == b[at]);
    }
    if at + 8 <= a.len() {
        reveal(word_at);
        assert forall|i: int| at <= i < at + 8 implies b[i] == a[i] by {
            assert(b.take(a.len() as int)[i] == b[i]);
        }
    }
}

proof fn lemma_level_stays(a: Seq<u8>, b: Seq<u8>, at: int, shape: LevelProofShape)
    requires
        extends(a, b),
        0 <= at,
        holds_level(a, at, shape),
    ensures
        holds_level(b, at, shape),
{
    let n = shape.stage1_stages@.len() as int;
    lemma_word_stays(a, b, at);
    lemma_word_stays(a, b, at + 8);
    lemma_word_stays(a, b, at + 16);
    lemma_word_stays(a, b, at + 24 + 24 * n);
    lemma_word_stays(a, b, at + 32 + 24 * n);
    lemma_word_stays(a, b, at + 40 + 24 * n);
    assert forall|j: int| 0 <= j < n implies holds_stage(
        b,
        at + 24 + 24 * j,
        #[trigger] shape.stage1_stages@[j],
    ) by {
        let p = at + 24 + 24 * j;
        assert(holds_stage(a, p, shape.stage1_stages@[j]));
        lemma_word_stays(a, b, p);
        lemma_word_stays(a, b, p + 8);
        lemma_word_stays(a, b, p + 16);
    }
}

proof fn lemma_direct_stays(a: Seq<u8>, b: Seq<u8>, at: int, shape: DirectWitnessShape)
    requires
        extends(a, b),
        0 <= at,
        holds_direct(a, at, shape),
    ensures
        holds_direct(b, at, shape),
{
    lemma_word_stays(a, b, at);
    lemma_word_stays(a, b, at + 1);
    lemma_word_stays(a, b, at + 9);
}

proof fn lemma_step_stays(a: Seq<u8>, b: Seq<u8>, at: int, shape: ProofStepShape)
    requires
        extends(a, b),
        0 <= at,
        holds_step(a, at, shape),
    ensures
        holds_step(b, at, shape),
{
    lemma_word_stays(a, b, at);
    match shape {
        ProofStepShape::Fold(level) => {
            lemma_level_stays(a, b, at + 1, level);
        },
        ProofStepShape::Direct(direct) => {
            lemma_direct_stays(a, b, at + 1, direct);
        },
    }
}

proof fn lemma_steps_size(shapes: Seq<ProofStepShape>, n: nat)
    ensures
        steps_size(shapes, n) >= 0,
    decreases n,
{
    if n > 0 {
        lemma_steps_size(shapes, (n - 1) as nat);
    }
}

proof fn lemma_directs_size(shapes: Seq<DirectWitnessShape>, n: nat)
    ensures
        directs_size(shapes, n) >= 0,
    decreases n,
{
    if n > 0 {
        lemma_directs_size(shapes, (n - 1) as nat);
    }
}

/// Something that extends what extends a sequence extends that sequence.
proof fn lemma_extends_further(a: Seq<u8>, b: Seq<u8>, c: Seq<u8>)
    requires
        extends(a, b),
        extends(b, c),
    ensures
        extends(a, c),
{
    assert forall|i: int| 0 <= i < a.len() implies c[i] == a[i] by {
        lemma_word_stays(a, b, i);
        lemma_word_stays(b, c, i);
    }
    assert(c.take(a.len() as int) =~= a);
}

/// Appends a tag.
fn write_tag(out: &mut Vec<u8>, tag: u8)
    ensures
        extends(old(out)@, final(out)@),
        final(out)@.len() == old(out)@.len() + 1,
        final(out)@[old(out)@.len() as int] == tag,
{
    let ghost start = out@;
    out.push(tag);
    assert(out@.take(start.len() as int) =~= start);
}

/// Appends three words.
fn write_three(out: &mut Vec<u8>, a: usize, b: usize, c: usize)
    ensures
        extends(old(out)@, final(out)@),
        final(out)@.len() == old(out)@.len() + 24,
        word_at(final(out)@, old(out)@.len() as int) == a,
        word_at(final(out)@, (old(out)@.len() + 8) as int) == b,
        word_at(final(out)@, (old(out)@.len() + 16) as int) == c,
{
    let ghost s0 = out@;
    write_word(out, a as u64);
    let ghost s1 = out@;
    write_word(out, b as u64);
    let ghost s2 = out@;
    write_word(out, c as u64);
    proof {
        let n = s0.len() as int;
        lemma_word_stays(s1, s2, n);
        lemma_word_stays(s2, out@, n);
        lemma_word_stays(s2, out@, n + 8);
        lemma_extends_further(s0, s1, s2);
        lemma_extends_further(s0, s2, out@);
    }
}

/// Appends a level.
fn write_level_shape(out: &mut Vec<u8>, shape: &LevelProofShape)
    ensures
        extends(old(out)@, final(out)@),
        final(out)@.len() == old(out)@.len() + level_size(*shape),
        holds_level(final(out)@, old(out)@.len() as int, *shape),
{
    let ghost start = out@;
    let ghost at = out@.len() as int;
    let n: usize = shape.stage1_stages.len();
    write_three(out, shape.y_ring_coeffs, shape.v_coeffs, n);
    let ghost head = out@;
    assert(out@.take(head.len() as int) =~= head);
    let mut j: usize = 0;
    while j < n
        invariant
            j <= n,
            n == shape.stage1_stages@.len(),
            head.len() == at + 24,
            extends(head, out@),
            out@.len() == at + 24 + 24 * j,
            at >= 0,
            forall|i: int|
                0 <= i < j ==> holds_stage(
                    out@,
                    at + 24 + 24 * i,
                    #[trigger] shape.stage1_stages@[i],
                ),
        decreases n - j,
    {
        let ghost before = out@;
        let stage: Stage1StageShape = shape.stage1_stages[j];
        write_three(out, stage.sumcheck.0, stage.sumcheck.1, stage.child_claims);
        proof {
            lemma_extends_further(head, before, out@);
            assert forall|i: int| 0 <= i < j + 1 implies holds_stage(
                out@,
                at + 24 + 24 * i,
                #[trigger] shape.stage1_stages@[i],
            ) by {
                let p = at + 24 + 24 * i;
                if i < j {
                    assert(holds_stage(before, p, shape.stage1_stages@[i]));
                    lemma_word_stays(before, out@, p);
                    lemma_word_stays(before, out@, p + 8);
                    lemma_word_stays(before, out@, p + 16);
                }
            }
        }
        j = j + 1;
    }
    let ghost middle = out@;
    write_three(out, shape.stage2_sumcheck.0, shape.stage2_sumcheck.1, shape.next_commit_coeffs);
    proof {
        lemma_extends_further(head, middle, out@);
        lemma_extends_further(start, head, out@);
        lemma_word_stays(head, out@, at);
        lemma_word_stays(head, out@, at + 8);
        lemma_word_stays(head, out@, at + 16);
        assert forall|i: int| 0 <= i < n implies holds_stage(
            out@,
            at + 24 + 24 * i,
            #[trigger] shape.stage1_stages@[i],
        ) by {
            let p = at + 24 + 24 * i;
            assert(holds_stage(middle, p, shape.stage1_stages@[i]));
            lemma_word_stays(middle, out@, p);
            lemma_word_stays(middle, out@, p + 8);
            lemma_word_stays(middle, out@, p + 16);
        }
    }
}

/// Appends a direct witness shape.
fn write_direct_shape(out: &mut Vec<u8>, shape: &DirectWitnessShape)
    ensures
        extends(old(out)@, final(out)@),
        final(out)@.len() == old(out)@.len() + direct_size(*shape),
        holds_direct(final(out)@, old(out)@.len() as int, *shape),
{
    let ghost s0 = out@;
    let ghost at = out@.len() as int;
    match *shape {
        DirectWitnessShape::PackedDigits((n, bits)) => {
            write_tag(out, 0);
            let ghost s1 = out@;
            write_word(out, n as u64);
            let ghost s2 = out@;
            write_word(out, bits as u64);
            proof {
                lemma_word_stays(s1, s2, at);
                lemma_word_stays(s2, out@, at);
                lemma_word_stays(s2, out@, at + 1);
                lemma_extends_further(s0, s1, s2);
                lemma_extends_further(s0, s2, out@);
            }
        },
        DirectWitnessShape::FieldElements(n) => {
            write_tag(out, 1);
            let ghost s1 = out@;
            write_word(out, n as u64);
            proof {
                lemma_word_stays(s1, out@, at);
                lemma_extends_further(s0, s1, out@);
            }
        },
    }
}

/// Appends a step.
fn write_step_shape(out: &mut Vec<u8>, shape: &ProofStepShape)
    ensures
        extends(old(out)@, final(out)@),
        final(out)@.len() == old(out)@.len() + step_size(*shape),
        holds_step(final(out)@, old(out)@.len() as int, *shape),
{
    let ghost s0 = out@;
    let ghost at = out@.len() as int;
    match shape {
        ProofStepShape::Fold(level) => {
            write_tag(out, 0);
            let ghost s1 = out@;
            write_level_shape(out, level);
            proof {
                lemma_word_stays(s1, out@, at);
                lemma_extends_further(s0, s1, out@);
            }
        },
        ProofStepShape::Direct(direct) => {
            write_tag(out, 1);
            let ghost s1 = out@;
            write_direct_shape(out, direct);
            proof {
                lemma_word_stays(s1, out@, at);
                lemma_extends_further(s0, s1, out@);
            }
        },
    }
}

/// Returns the encoding of a batched proof shape.
pub fn write_batched_shape(shape: &BatchedProofShape) -> (r: Vec<u8>)
    ensures
        is_batched_encoding(r@, *shape),
{
    let mut out: Vec<u8> = Vec::new();
    match shape {
        BatchedProofShape::Fold { root_shape, step_shapes } => {
            write_tag(&mut out, 0);
            let ghost s1 = out@;
            write_level_shape(&mut out, root_shape);
            let ghost s2 = out@;
            let n: usize = step_shapes.len();
            write_word(&mut out, n as u64);
            let ghost head = out@;
            let ghost at = out@.len() as int;
            proof {
                lemma_word_stays(s1, s2, 0);
                lemma_word_stays(s2, head, 0);
                lemma_level_stays(s2, head, 1, *root_shape);
                assert(out@.take(head.len() as int) =~= head);
            }
            let mut j: usize = 0;
            while j < n
                invariant
                    j <= n,
                    n == step_shapes@.len(),
                    at == head.len(),
                    extends(head, out@),
                    out@.len() == at + steps_size(step_shapes@, j as nat),
                    holds_steps(out@, at, step_shapes@, j as int),
                decreases n - j,
            {
                let ghost before = out@;
                write_step_shape(&mut out, &step_shapes[j]);
                proof {
                    lemma_extends_further(head, before, out@);
                    assert forall|i: int| 0 <= i < j + 1 implies holds_step(
                        out@,
                        at + steps_size(step_shapes@, i as nat),
                        #[trigger] step_shapes@[i],
                    ) by {
                        lemma_steps_size(step_shapes@, i as nat);
                        if i < j {
                            lemma_step_stays(
                                before,
                                out@,
                                at + steps_size(step_shapes@, i as nat),
                                step_shapes@[i],
                            );
                        }
                    }
                }
                j = j + 1;
            }
            proof {
                let p = 1 + level_size(*root_shape);
                lemma_word_stays(head, out@, 0);
                lemma_word_stays(head, out@, p);
                lemma_level_stays(head, out@, 1, *root_shape);
            }
        },
        BatchedProofShape::Direct { witness_shapes } => {
            write_tag(&mut out, 1);
            let ghost s1 = out@;
            let n: usize = witness_shapes.len();
            write_word(&mut out, n as u64);
            let ghost head = out@;
            let ghost at = out@.len() as int;
            proof {
                lemma_word_stays(s1, head, 0);
                assert(out@.take(head.len() as int) =~= head);
            }
            let mut j: usize = 0;
            while j < n
                invariant
                    j <= n,
                    n == witness_shapes@.len(),
                    at == head.len(),
                    extends(head, out@),
                    out@.len() == at + directs_size(witness_shapes@, j as nat),
                    holds_directs(out@, at, witness_shapes@, j as int),
                decreases n - j,
            {
                let ghost before = out@;
                write_direct_shape(&mut out, &witness_shapes[j]);
                proof {
                    lemma_extends_further(head, before, out@);
                    assert forall|i: int| 0 <= i < j + 1 implies holds_direct(
                        out@,
                        at + directs_size(witness_shapes@, i as nat),
                        #[trigger] witness_shapes@[i],
                    ) by {
                        lemma_directs_size(witness_shapes@, i as nat);
                        if i < j {
                            lemma_direct_stays(
                                before,
                                out@,
                                at + directs_size(witness_shapes@, i as nat),
                                witness_shapes@[i],
                            );
                        }
                    }
                }
                j = j + 1;
            }
            proof {
                lemma_word_stays(head, out@, 0);
                lemma_word_stays(head, out@, 1);
            }
        },
    }
    out
}

/// What is held at a position is read there.
proof fn lemma_level_is_read(bytes: Seq<u8>, at: int, shape: LevelProofShape)
    requires
        holds_level(bytes, at, shape),
    ensures
        reads_level(bytes, at, shape),
        level_end(bytes, at) == Some(at + level_size(shape)),
{
    assert(shape.stage1_stages.len() == shape.stage1_stages@.len());
    assert forall|j: int| 0 <= j < shape.stage1_stages@.len() implies reads_stage(
        bytes,
        at + 24 + 24 * j,
        #[trigger] shape.stage1_stages@[j],
    ) by {
        assert(holds_stage(bytes, at + 24 + 24 * j, shape.stage1_stages@[j]));
    }
}

proof fn lemma_direct_is_read(bytes: Seq<u8>, at: int, shape: DirectWitnessShape)
    requires
        holds_direct(bytes, at, shape),
    ensures
        reads_direct(bytes, at, shape),
        direct_end(bytes, at) == Some(at + direct_size(shape)),
{
}

proof fn lemma_step_is_read(bytes: Seq<u8>, at: int, shape: ProofStepShape)
    requires
        holds_step(bytes, at, shape),
    ensures
        reads_step(bytes, at, shape),
        step_end(bytes, at) == Some(at + step_size(shape)),
{
    match shape {
        ProofStepShape::Fold(level) => {
            lemma_level_is_read(bytes, at + 1, level);
        },
        ProofStepShape::Direct(direct) => {
            lemma_direct_is_read(bytes, at + 1, direct);
        },
    }
}

proof fn lemma_steps_are_read(bytes: Seq<u8>, at: int, shapes: Seq<ProofStepShape>, n: nat)
    requires
        n <= shapes.len(),
        holds_steps(bytes, at, shapes, n as int),
    ensures
        steps_end(bytes, at, n) == Some(at + steps_size(shapes, n)),
        forall|j: int| 0 <= j < n ==> step_stands(bytes, at, j as nat, #[trigger] shapes[j]),
    decreases n,
{
    if n > 0 {
        let m = (n - 1) as nat;
        lemma_steps_are_read(bytes, at, shapes, m);
        let p = at + steps_size(shapes, m);
        assert(holds_step(bytes, p, shapes[m as int]));
        lemma_step_is_read(bytes, p, shapes[m as int]);
        assert(step_stands(bytes, at, m, shapes[m as int]));
    }
}

proof fn lemma_directs_are_read(bytes: Seq<u8>, at: int, shapes: Seq<DirectWitnessShape>, n: nat)
    requires
        n <= shapes.len(),
        holds_directs(bytes, at, shapes, n as int),
    ensures
        directs_end(bytes, at, n) == Some(at + directs_size(shapes, n)),
        forall|j: int| 0 <= j < n ==> direct_stands(bytes, at, j as nat, #[trigger] shapes[j]),
    decreases n,
{
    if n > 0 {
        let m = (n - 1) as nat;
        lemma_directs_are_read(bytes, at, shapes, m);
        let p = at + directs_size(shapes, m);
        assert(holds_direct(bytes, p, shapes[m as int]));
        lemma_direct_is_read(bytes, p, shapes[m as int]);
        assert(direct_stands(bytes, at, m, shapes[m as int]));
    }
}

/// An encoded shape is read back, with all bytes used up.
pub proof fn law_shape_is_read_back(bytes: Seq<u8>, shape: BatchedProofShape)
    requires
        is_batched_encoding(bytes, shape),
    ensures
        batched_end(bytes, 0) == Some(bytes.len() as int),
        reads_batched(bytes, 0, shape),
{
    match shape {
        BatchedProofShape::Fold { root_shape, step_shapes } => {
            lemma_level_is_read(bytes, 1, root_shape);
            let p = 1 + level_size(root_shape);
            lemma_steps_size(step_shapes@, step_shapes@.len());
            lemma_steps_are_read(bytes, p + 8, step_shapes@, step_shapes@.len());
        },
        BatchedProofShape::Direct { witness_shapes } => {
            lemma_directs_size(witness_shapes@, witness_shapes@.len());
            lemma_directs_are_read(bytes, 9, witness_shapes@, witness_shapes@.len());
        },
    }
}

/// A level is written as the words `y_ring_coeffs`, `v_coeffs` and the number of stages, three words
/// for each stage, and the words of the second sumcheck and of the next commitment.
pub proof fn law_level_is_laid_out(bytes: Seq<u8>, at: int, shape: LevelProofShape, j: int)
    requires
        holds_level(bytes, at, shape),
        0 <= j <= shape.stage1_stages@.len(),
    ensures
        word_at(bytes, at) == shape.y_ring_coeffs,
        word_at(bytes, at + 8) == shape.v_coeffs,
        word_at(bytes, at + 16) == shape.stage1_stages@.len(),
        j < shape.stage1_stages@.len() ==> {
            &&& word_at(bytes, at + 24 * (j + 1)) == shape.stage1_stages@[j].sumcheck.0
            &&& word_at(bytes, at + 24 * (j + 1) + 8) == shape.stage1_stages@[j].sumcheck.1
            &&& word_at(bytes, at + 24 * (j + 1) + 16) == shape.stage1_stages@[j].child_claims
        },
        word_at(bytes, at + 24 * (shape.stage1_stages@.len() + 1)) == shape.stage2_sumcheck.0,
        word_at(bytes, at + 24 * (shape.stage1_stages@.len() + 1) + 8) == shape.stage2_sumcheck.1,
        word_at(bytes, at + 24 * (shape.stage1_stages@.len() + 1) + 16) == shape.next_commit_coeffs,
        at + 24 * (shape.stage1_stages@.len() + 2) <= bytes.len(),
{
    if j < shape.stage1_stages@.len() {
        assert(holds_stage(bytes, at + 24 + 24 * j, shape.stage1_stages@[j]));
    }
}

/// A folded shape is written as a zero, the root level and the number of steps, and the steps follow
/// one after the other: a step starts where the one before it ends, with a zero for a fold and a one
/// for a direct witness, and the last one ends with the bytes.
pub proof fn law_folded_shape_is_laid_out(
    bytes: Seq<u8>,
    root_shape: LevelProofShape,
    step_shapes: Vec<ProofStepShape>,
) -> (starts: Seq<int>)
    requires
        is_batched_encoding(bytes, (BatchedProofShape::Fold { root_shape, step_shapes })),
    ensures
        bytes[0] == 0,
        holds_level(bytes, 1, root_shape),
        word_at(bytes, (25 + 24 * (root_shape.stage1_stages@.len() + 1)) as int) == step_shapes@.len(),
        starts.len() == step_shapes@.len() + 1,
        starts[0] == 33 + 24 * (root_shape.stage1_stages@.len() + 1),
        starts[step_shapes@.len() as int] == bytes.len(),
        forall|j: int|
            0 <= j < step_shapes@.len() ==> match #[trigger] step_shapes@[j] {
                ProofStepShape::Fold(level) => {
                    &&& bytes[starts[j]] == 0
                    &&& holds_level(bytes, starts[j] + 1, level)
                    &&& starts[j + 1] == starts[j] + 1 + 24 * (level.stage1_stages@.len() + 2)
                },
                ProofStepShape::Direct(DirectWitnessShape::PackedDigits((n, bits))) => {
                    &&& bytes[starts[j]] == 1
                    &&& bytes[starts[j] + 1] == 0
                    &&& word_at(bytes, starts[j] + 2) == n
                    &&& word_at(bytes, starts[j] + 10) == bits
                    &&& starts[j + 1] == starts[j] + 18
                },
                ProofStepShape::Direct(DirectWitnessShape::FieldElements(n)) => {
                    &&& bytes[starts[j]] == 1
                    &&& bytes[starts[j] + 1] == 1
                    &&& word_at(bytes, starts[j] + 2) == n
                    &&& starts[j + 1] == starts[j] + 10
                },
            },
{
    let p = 1 + level_size(root_shape) + 8;
    let starts = Seq::new(
        step_shapes@.len() + 1,
        |i: int| p + steps_size(step_shapes@, i as nat),
    );
    assert forall|j: int| 0 <= j < step_shapes@.len() implies holds_step(
        bytes,
        starts[j],
        #[trigger] step_shapes@[j],
    ) && starts[j + 1] == starts[j] + step_size(step_shapes@[j]) by {
        assert(starts[j + 1] == p + steps_size(step_shapes@, (j + 1) as nat));
    }
    assert(steps_size(step_shapes@, 0) == 0);
    starts
}

/// A direct shape is written as a one and the number of witnesses, and the witnesses follow one
/// after the other.
pub proof fn law_direct_shape_is_laid_out(
    bytes: Seq<u8>,
    witness_shapes: Vec<DirectWitnessShape>,
) -> (starts: Seq<int>)
    requires
        is_batched_encoding(bytes, (BatchedProofShape::Direct { witness_shapes })),
    ensures
        bytes[0] == 1,
        word_at(bytes, 1) == witness_shapes@.len(),
        starts.len() == witness_shapes@.len() + 1,
        starts[0] == 9,
        starts[witness_shapes@.len() as int] == bytes.len(),
        forall|j: int|
            0 <= j < witness_shapes@.len() ==> match #[trigger] witness_shapes@[j] {
                DirectWitnessShape::PackedDigits((n, bits)) => {
                    &&& bytes[starts[j]] == 0
                    &&& word_at(bytes, starts[j] + 1) == n
                    &&& word_at(bytes, starts[j] + 9) == bits
                    &&& starts[j + 1] == starts[j] + 17
                },
                DirectWitnessShape::FieldElements(n) => {
                    &&& bytes[starts[j]] == 1
                    &&& word_at(bytes, starts[j] + 1) == n
                    &&& starts[j + 1] == starts[j] + 9
                },
            },
{
    let starts = Seq::new(
        witness_shapes@.len() + 1,
        |i: int| 9 + directs_size(witness_shapes@, i as nat),
    );
    assert forall|j: int| 0 <= j < witness_shapes@.len() implies holds_direct(
        bytes,
        starts[j],
        #[trigger] witness_shapes@[j],
    ) && starts[j + 1] == starts[j] + direct_size(witness_shapes@[j]) by {
        assert(starts[j + 1] == 9 + directs_size(witness_shapes@, (j + 1) as nat));
    }
    assert(directs_size(witness_shapes@, 0) == 0);
    starts
}

/// Levels that are read from the same bytes are the same.
proof fn lemma_read_levels_agree(
    bytes: Seq<u8>,
    at: int,
    a: LevelProofShape,
    b: LevelProofShape,
)
    requires
        reads_level(bytes, at, a),
        reads_level(bytes, at, b),
    ensures
        a.y_ring_coeffs == b.y_ring_coeffs,
        a.v_coeffs == b.v_coeffs,
        a.stage1_stages@ == b.stage1_stages@,
        a.stage2_sumcheck == b.stage2_sumcheck,
        a.next_commit_coeffs == b.next_commit_coeffs,
{
    assert forall|j: int| 0 <= j < a.stage1_stages@.len() implies a.stage1_stages@[j]
        == b.stage1_stages@[j] by {
        assert(reads_stage(bytes, at + 24 + 24 * j, a.stage1_stages@[j]));
        assert(reads_stage(bytes, at + 24 + 24 * j, b.stage1_stages@[j]));
    }
    assert(a.stage1_stages@ =~= b.stage1_stages@);
}

/// Bytes are read as one folded shape at most: two readings have the same root level and the same
/// steps, field by field, and no folded shape is read where a direct one is.
pub proof fn law_folded_shape_is_read_in_one_way(
    bytes: Seq<u8>,
    at: int,
    root_shape: LevelProofShape,
    step_shapes: Vec<ProofStepShape>,
    other: BatchedProofShape,
)
    requires
        reads_batched(bytes, at, (BatchedProofShape::Fold { root_shape, step_shapes })),
        reads_batched(bytes, at, other),
    ensures
        match other {
            BatchedProofShape::Fold { root_shape: root, step_shapes: steps } => {
                &&& root.y_ring_coeffs == root_shape.y_ring_coeffs
                &&& root.v_coeffs == root_shape.v_coeffs
                &&& root.stage1_stages@ == root_shape.stage1_stages@
                &&& root.stage2_sumcheck == root_shape.stage2_sumcheck
                &&& root.next_commit_coeffs == root_shape.next_commit_coeffs
                &&& steps@.len() == step_shapes@.len()
                &&& forall|j: int|
                    0 <= j < steps@.len() ==> match (#[trigger] steps@[j], step_shapes@[j]) {
                        (ProofStepShape::Fold(x), ProofStepShape::Fold(y)) => {
                            &&& x.y_ring_coeffs == y.y_ring_coeffs
                            &&& x.v_coeffs == y.v_coeffs
                            &&& x.stage1_stages@ == y.stage1_stages@
                            &&& x.stage2_sumcheck == y.stage2_sumcheck
                            &&& x.next_commit_coeffs == y.next_commit_coeffs
                        },
                        (ProofStepShape::Direct(x), ProofStepShape::Direct(y)) => x == y,
                        _ => false,
                    }
            },
            BatchedProofShape::Direct { .. } => false,
        },
{
    match other {
        BatchedProofShape::Fold { root_shape: root, step_shapes: steps } => {
            lemma_read_levels_agree(bytes, at + 1, root, root_shape);
            let p = level_end(bytes, at + 1)->Some_0 + 8;
            assert forall|j: int| 0 <= j < steps@.len() implies match (
                #[trigger] steps@[j],
                step_shapes@[j],
            ) {
                (ProofStepShape::Fold(x), ProofStepShape::Fold(y)) => {
                    &&& x.y_ring_coeffs == y.y_ring_coeffs
                    &&& x.v_coeffs == y.v_coeffs
                    &&& x.stage1_stages@ == y.stage1_stages@
                    &&& x.stage2_sumcheck == y.stage2_sumcheck
                    &&& x.next_commit_coeffs == y.next_commit_coeffs
                },
                (ProofStepShape::Direct(x), ProofStepShape::Direct(y)) => x == y,
                _ => false,
            } by {
                assert(step_stands(bytes, p, j as nat, steps@[j]));
                assert(step_stands(bytes, p, j as nat, step_shapes@[j]));
                let q = steps_end(bytes, p, j as nat)->Some_0;
                match (steps@[j], step_shapes@[j]) {
                    (ProofStepShape::Fold(x), ProofStepShape::Fold(y)) => {
                        lemma_read_levels_agree(bytes, q + 1, x, y);
                    },
                    _ => {},
                }
            }
        },
        BatchedProofShape::Direct { .. } => {},
    }
}

/// Bytes are read as one direct shape at most.
pub proof fn law_direct_shape_is_read_in_one_way(
    bytes: Seq<u8>,
    at: int,
    a: Vec<DirectWitnessShape>,
    b: Vec<DirectWitnessShape>,
)
    requires
        reads_batched(bytes, at, (BatchedProofShape::Direct { witness_shapes: a })),
        reads_batched(bytes, at, (BatchedProofShape::Direct { witness_shapes: b })),
    ensures
        a@ == b@,
{
    assert forall|j: int| 0 <= j < a@.len() implies a@[j] == b@[j] by {
        assert(direct_stands(bytes, at + 9, j as nat, a@[j]));
        assert(direct_stands(bytes, at + 9, j as nat, b@[j]));
    }
    assert(a@ =~= b@);
}

} // verus!
