//! The proof shape that the verifier of the claim-reduced bridge expects.
//!
//! The folding schedule comes from the commitment scheme. The records here hold the numbers of it
//! that the shape depends on.

use vstd::arithmetic::power2::{lemma2_to64, lemma_pow2_pos, lemma_pow2_unfold, pow2};
use vstd::prelude::*;

use super::error::ChannelError;
use super::shape::{
    BatchedProofShape, DirectWitnessShape, LevelProofShape, ProofStepShape, Stage1StageShape,
};
use crate::powers::{lemma_pow2_monotone, lemma_twos_in_pow2, power_of_two, twos_in};

verus! {

/// The claim-reduced bridge opens one claim.
pub const AKITA_OPENING_CLAIMS: usize = 1;

/// The claim-reduced bridge opens one group.
pub const AKITA_OPENING_GROUPS: usize = 1;

/// The claim-reduced bridge opens at one point.
pub const AKITA_OPENING_POINTS: usize = 1;

/// The least number of bits `k` such that `n` is at most `2^k`.
pub open spec fn log2_ceil(n: nat) -> nat
    decreases n,
{
    if n <= 1 {
        0
    } else {
        1 + log2_ceil(((n + 1) / 2) as nat)
    }
}

/// What `log2_ceil` is the least of.
pub proof fn law_log2_ceil(n: nat, k: nat)
    ensures
        (n <= pow2(k)) == (log2_ceil(n) <= k),
    decreases n,
{
    lemma_pow2_pos(k);
    if n > 1 {
        if k == 0 {
            lemma2_to64();
        } else {
            lemma_pow2_unfold(k);
            law_log2_ceil(((n + 1) / 2) as nat, (k - 1) as nat);
        }
    }
}

/// Number of stage-2 sumcheck rounds for a given ring dimension and next-level witness length.
pub open spec fn shape_rounds(level_d: nat, next_w_len: nat) -> nat {
    log2_ceil(next_w_len / level_d) + twos_in(level_d)
}

/// Returns the number of stage-2 sumcheck rounds for a given ring dimension and next-level witness
/// length.
pub fn batched_shape_rounds(level_d: usize, next_w_len: usize) -> (r: usize)
    requires
        level_d > 0,
        pow2(log2_ceil((next_w_len / level_d) as nat)) <= usize::MAX,
    ensures
        r == shape_rounds(level_d as nat, next_w_len as nat),
{
    let elements: usize = next_w_len / level_d;
    let mut size: usize = 1;
    let mut rounds: usize = 0;
    let ghost top = log2_ceil(elements as nat);
    proof {
        lemma2_to64();
    }
    while size < elements
        invariant
            size == pow2(rounds as nat),
            rounds <= top,
            top == log2_ceil(elements as nat),
            pow2(top) <= usize::MAX,
            rounds < 64,
        decreases top - rounds,
    {
        proof {
            law_log2_ceil(elements as nat, rounds as nat);
            lemma_pow2_unfold((rounds + 1) as nat);
            lemma_pow2_monotone((rounds + 1) as nat, top);
            if rounds + 1 >= 64 {
                lemma_pow2_monotone(64, top);
                vstd::arithmetic::power2::lemma2_to64_rest();
            }
        }
        size = 2 * size;
        rounds = rounds + 1;
    }
    proof {
        law_log2_ceil(elements as nat, rounds as nat);
    }
    let mut rest: usize = level_d;
    let mut twos: usize = 0;
    while rest % 2 == 0
        invariant
            rest > 0,
            twos + twos_in(rest as nat) == twos_in(level_d as nat),
            rounds < 64,
            rest * pow2(twos as nat) <= level_d,
            twos < 64,
        decreases rest,
    {
        proof {
            lemma_pow2_unfold((twos + 1) as nat);
            let half = rest / 2;
            let p = pow2(twos as nat);
            assert(half * (2 * p) == rest * p) by (nonlinear_arith)
                requires
                    rest == 2 * half,
            ;
            lemma_pow2_pos((twos + 1) as nat);
            let q = pow2((twos + 1) as nat);
            assert(q <= half * q) by (nonlinear_arith)
                requires
                    half >= 1,
                    q >= 0,
            ;
            if twos + 1 >= 64 {
                lemma_pow2_monotone(64, (twos + 1) as nat);
                vstd::arithmetic::power2::lemma2_to64_rest();
            }
        }
        rest = rest / 2;
        twos = twos + 1;
    }
    rounds + twos
}

/// The numbers of a folding level that its shape depends on.
#[derive(Debug, PartialEq, Eq)]
pub struct FoldLevel {
    /// Ring dimension of the level.
    pub ring_dimension: usize,
    /// Rows of the key for the digits of the level.
    pub d_rows: usize,
    /// Number of ring elements of the witness of the next level.
    pub ring_elements: usize,
    /// Stages of the first sumcheck of the level.
    pub stage1_stages: Vec<Stage1StageShape>,
    /// Ring dimension of the next level.
    pub next_ring_dimension: usize,
    /// Rows of the commitment key of the next level.
    pub next_b_rows: usize,
    /// Digit size of the next level, in bits.
    pub next_log_basis: u32,
}

/// A folding schedule, as far as the commitment scheme could give it.
#[derive(Debug, PartialEq, Eq)]
pub struct OpeningSchedule {
    /// Whether the witness is sent at the root.
    pub is_root_direct: bool,
    /// Number of folding levels, the root among them.
    pub num_fold_levels: usize,
    /// Length of the witness after the root.
    pub root_next_w_len: usize,
    /// The root, unless the schedule does not start with a folding level.
    pub root: Option<FoldLevel>,
    /// The levels after the root.
    pub levels: Vec<FoldLevel>,
}

impl FoldLevel {
    /// Whether the sizes of the level fit in the machine, for a witness length of the next level.
    pub open spec fn fits(&self, points: nat, next_w_len: nat) -> bool {
        &&& self.ring_dimension > 0
        &&& points * self.ring_dimension <= usize::MAX
        &&& self.d_rows * self.ring_dimension <= usize::MAX
        &&& self.next_b_rows * self.next_ring_dimension <= usize::MAX
        &&& pow2(log2_ceil(next_w_len / self.ring_dimension as nat)) <= usize::MAX
    }

    /// The length of the witness of the next level.
    pub open spec fn next_w_len(&self) -> int {
        self.ring_elements * self.ring_dimension
    }

    /// Whether a shape is that of the level, for a number of opening points and a witness length of
    /// the next level.
    pub open spec fn has_shape(
        &self,
        shape: LevelProofShape,
        points: nat,
        next_w_len: nat,
    ) -> bool {
        let rounds = shape_rounds(self.ring_dimension as nat, next_w_len);
        &&& shape.y_ring_coeffs == points * self.ring_dimension
        &&& shape.v_coeffs == self.d_rows * self.ring_dimension
        &&& shape.stage1_stages@ == self.stage1_stages@
        &&& shape.stage2_sumcheck.0 == rounds
        &&& shape.stage2_sumcheck.1 == 3
        &&& shape.next_commit_coeffs == self.next_b_rows * self.next_ring_dimension
    }

    /// Returns the shape of the level.
    fn shape(&self, points: usize, next_w_len: usize) -> (r: LevelProofShape)
        requires
            self.fits(points as nat, next_w_len as nat),
        ensures
            self.has_shape(r, points as nat, next_w_len as nat),
    {
        let rounds: usize = batched_shape_rounds(self.ring_dimension, next_w_len);
        LevelProofShape {
            y_ring_coeffs: points * self.ring_dimension,
            v_coeffs: self.d_rows * self.ring_dimension,
            stage1_stages: copy_stages(&self.stage1_stages),
            stage2_sumcheck: (rounds, 3),
            next_commit_coeffs: self.next_b_rows * self.next_ring_dimension,
        }
    }
}

fn copy_stages(stages: &Vec<Stage1StageShape>) -> (r: Vec<Stage1StageShape>)
    ensures
        r@ == stages@,
{
    let mut out: Vec<Stage1StageShape> = Vec::with_capacity(stages.len());
    let mut i: usize = 0;
    while i < stages.len()
        invariant
            i <= stages@.len(),
            out@ == stages@.take(i as int),
        decreases stages@.len() - i,
    {
        out.push(stages[i]);
        i = i + 1;
    }
    assert(stages@.take(i as int) =~= stages@);
    out
}

impl OpeningSchedule {
    /// The number of folding levels after the root.
    pub open spec fn recursive_folds(&self) -> nat {
        if self.num_fold_levels == 0 {
            0
        } else {
            (self.num_fold_levels - 1) as nat
        }
    }

    /// The length of the witness that level `k` after the root starts from.
    pub open spec fn w_len(&self, k: int) -> int {
        if k == 0 {
            self.root_next_w_len as int
        } else {
            self.levels@[k - 1].next_w_len()
        }
    }

    /// The digit size that level `k` after the root starts from.
    pub open spec fn log_basis(&self, k: int) -> u32 {
        if k == 0 {
            self.root->Some_0.next_log_basis
        } else {
            self.levels@[k - 1].next_log_basis
        }
    }

    /// Whether the sizes of all levels fit in the machine.
    pub open spec fn fits(&self) -> bool {
        &&& self.root matches Some(root) ==> root.fits(
            AKITA_OPENING_POINTS as nat,
            self.root_next_w_len as nat,
        )
        &&& forall|k: int|
            0 <= k < self.levels@.len() ==> 0 <= (#[trigger] self.levels@[k]).next_w_len()
                <= usize::MAX && self.levels@[k].fits(1, self.levels@[k].next_w_len() as nat)
    }

    /// Whether the schedule starts with a folding level and gives all levels that it announces.
    pub open spec fn is_complete(&self) -> bool {
        &&& !self.is_root_direct
        &&& self.root is Some
        &&& self.recursive_folds() <= self.levels@.len()
    }

    /// Whether steps are the shapes of the levels after the root, followed by the witness.
    pub open spec fn has_steps(&self, steps: Seq<ProofStepShape>) -> bool {
        let n = self.recursive_folds() as int;
        &&& steps.len() == n + 1
        &&& forall|k: int|
            0 <= k < n ==> ((#[trigger] steps[k]) matches ProofStepShape::Fold(shape)
                && self.levels@[k].has_shape(shape, 1, self.levels@[k].next_w_len() as nat))
        &&& steps[n] == ProofStepShape::Direct(
            DirectWitnessShape::PackedDigits((self.w_len(n) as usize, self.log_basis(n))),
        )
    }

    /// Returns what the commitment scheme has to be asked for the level after those that are
    /// known: the index of the level, the length of its witness and its digit size.
    pub fn next_level(&self) -> (r: (usize, usize, u32))
        requires
            self.fits(),
            self.root is Some,
            self.levels@.len() < usize::MAX,
        ensures
            r.0 == self.levels@.len() + 1,
            r.1 == self.w_len(self.levels@.len() as int),
            r.2 == self.log_basis(self.levels@.len() as int),
            self.levels@.len() == 0 ==> r.1 == self.root_next_w_len && r.2
                == self.root->Some_0.next_log_basis,
            self.levels@.len() > 0 ==> r.1 == self.levels@.last().ring_elements
                * self.levels@.last().ring_dimension && r.2 == self.levels@.last().next_log_basis,
    {
        let n: usize = self.levels.len();
        if n == 0 {
            match &self.root {
                Some(root) => (1, self.root_next_w_len, root.next_log_basis),
                None => (1, self.root_next_w_len, 0),
            }
        } else {
            assert(self.levels@[n - 1].next_w_len() <= usize::MAX);
            let last: &FoldLevel = &self.levels[n - 1];
            (n + 1, last.ring_elements * last.ring_dimension, last.next_log_basis)
        }
    }
}

/// Compute the expected proof shape for the claim-reduced bridge.
pub fn akita_claim_reduced_opening_shape(schedule: &OpeningSchedule) -> (r: Result<
    BatchedProofShape,
    ChannelError,
>)
    requires
        schedule.fits(),
    ensures
        match r {
            Ok(BatchedProofShape::Fold { root_shape, step_shapes }) => {
                &&& schedule.is_complete()
                &&& schedule.root->Some_0.has_shape(
                    root_shape,
                    AKITA_OPENING_POINTS as nat,
                    schedule.root_next_w_len as nat,
                )
                &&& schedule.has_steps(step_shapes@)
                &&& step_shapes@.len() == if schedule.num_fold_levels == 0 {
                    1
                } else {
                    schedule.num_fold_levels as int
                }
                &&& schedule.num_fold_levels <= 1 ==> step_shapes@.last()
                    == ProofStepShape::Direct(
                    DirectWitnessShape::PackedDigits(
                        (schedule.root_next_w_len, schedule.root->Some_0.next_log_basis),
                    ),
                )
                &&& schedule.num_fold_levels > 1 ==> {
                    let last = schedule.levels@[schedule.num_fold_levels - 2];
                    step_shapes@.last() == ProofStepShape::Direct(
                        DirectWitnessShape::PackedDigits(
                            (
                                (last.ring_elements * last.ring_dimension) as usize,
                                last.next_log_basis,
                            ),
                        ),
                    )
                }
            },
            Ok(BatchedProofShape::Direct { .. }) => false,
            Err(e) => e == ChannelError::ProofEmpty && !schedule.is_complete(),
        },
{
    if schedule.is_root_direct {
        return Err(ChannelError::ProofEmpty);
    }
    let n: usize = if schedule.num_fold_levels == 0 {
        0
    } else {
        schedule.num_fold_levels - 1
    };
    let root: &FoldLevel = match &schedule.root {
        Some(root) => root,
        None => {
            return Err(ChannelError::ProofEmpty);
        },
    };
    let root_shape: LevelProofShape = root.shape(AKITA_OPENING_POINTS, schedule.root_next_w_len);
    let mut step_shapes: Vec<ProofStepShape> = Vec::new();
    let mut current_w_len: usize = schedule.root_next_w_len;
    let mut current_log_basis: u32 = root.next_log_basis;
    let mut k: usize = 0;
    while k < n
        invariant
            k <= n,
            n == schedule.recursive_folds(),
            schedule.fits(),
            schedule.root is Some,
            k <= schedule.levels@.len(),
            current_w_len == schedule.w_len(k as int),
            current_log_basis == schedule.log_basis(k as int),
            step_shapes@.len() == k,
            forall|j: int|
                0 <= j < k ==> ((#[trigger] step_shapes@[j]) matches ProofStepShape::Fold(shape)
                    && schedule.levels@[j].has_shape(
                    shape,
                    1,
                    schedule.levels@[j].next_w_len() as nat,
                )),
        decreases n - k,
    {
        if k >= schedule.levels.len() {
            return Err(ChannelError::ProofEmpty);
        }
        let level: &FoldLevel = &schedule.levels[k];
        assert(schedule.levels@[k as int].next_w_len() <= usize::MAX);
        let next_w_len: usize = level.ring_elements * level.ring_dimension;
        let shape: LevelProofShape = level.shape(1, next_w_len);
        step_shapes.push(ProofStepShape::Fold(shape));
        current_w_len = next_w_len;
        current_log_basis = level.next_log_basis;
        k = k + 1;
    }
    step_shapes.push(
        ProofStepShape::Direct(
            DirectWitnessShape::PackedDigits((current_w_len, current_log_basis)),
        ),
    );
    Ok(BatchedProofShape::Fold { root_shape, step_shapes })
}

/// What the steps of a complete schedule are, in the numbers of its levels: level `k` after the root
/// has a step of its own dimension and keys, and the last step is the witness that the last level
/// leaves.
pub proof fn law_steps_follow_levels(
    schedule: OpeningSchedule,
    steps: Seq<ProofStepShape>,
    k: int,
)
    requires
        schedule.fits(),
        schedule.is_complete(),
        schedule.has_steps(steps),
        schedule.num_fold_levels > 1,
        0 <= k < schedule.num_fold_levels - 1,
    ensures
        steps.len() == schedule.num_fold_levels,
        schedule.num_fold_levels - 1 <= schedule.levels@.len(),
        steps[k] matches ProofStepShape::Fold(shape) && {
            let level = schedule.levels@[k];
            let elements = (level.ring_elements * level.ring_dimension) / level.ring_dimension as int;
            &&& shape.y_ring_coeffs == level.ring_dimension
            &&& shape.v_coeffs == level.d_rows * level.ring_dimension
            &&& shape.stage1_stages@ == level.stage1_stages@
            &&& shape.stage2_sumcheck.0 == log2_ceil(elements as nat) + twos_in(
                level.ring_dimension as nat,
            )
            &&& shape.stage2_sumcheck.1 == 3
            &&& shape.next_commit_coeffs == level.next_b_rows * level.next_ring_dimension
        },
        ({
            let last = schedule.levels@[schedule.num_fold_levels - 2];
            steps[schedule.num_fold_levels - 1] == ProofStepShape::Direct(
                DirectWitnessShape::PackedDigits(
                    (
                        (last.ring_elements * last.ring_dimension) as usize,
                        last.next_log_basis,
                    ),
                ),
            )
        }),
{
    let n = schedule.recursive_folds() as int;
    assert(n == schedule.num_fold_levels - 1);
    assert(steps[k] is Fold);
    assert(schedule.levels@[k].next_w_len() >= 0);
}

/// The root of a complete schedule, in its numbers: as many ring coefficients as opening points ask
/// for, which is one.
pub proof fn law_root_shape(schedule: OpeningSchedule, shape: BatchedProofShape)
    requires
        schedule.fits(),
        schedule.leads_to(shape),
    ensures
        !schedule.is_root_direct,
        schedule.root is Some,
        shape matches BatchedProofShape::Fold { root_shape, step_shapes } && {
            let root = schedule.root->Some_0;
            &&& root_shape.y_ring_coeffs == root.ring_dimension
            &&& root_shape.v_coeffs == root.d_rows * root.ring_dimension
            &&& root_shape.stage1_stages@ == root.stage1_stages@
            &&& root_shape.stage2_sumcheck.0 == log2_ceil(
                schedule.root_next_w_len as nat / root.ring_dimension as nat,
            ) + twos_in(root.ring_dimension as nat)
            &&& root_shape.stage2_sumcheck.1 == 3
            &&& root_shape.next_commit_coeffs == root.next_b_rows * root.next_ring_dimension
            &&& schedule.num_fold_levels <= 1 ==> step_shapes@ == seq![
                ProofStepShape::Direct(
                    DirectWitnessShape::PackedDigits(
                        (schedule.root_next_w_len, root.next_log_basis),
                    ),
                ),
            ]
        },
{
    if schedule.num_fold_levels <= 1 {
        assert(schedule.recursive_folds() == 0);
        match shape {
            BatchedProofShape::Fold { root_shape, step_shapes } => {
                assert(step_shapes@ =~= seq![step_shapes@[0]]);
            },
            BatchedProofShape::Direct { .. } => {},
        }
    }
}

/// A schedule leads to one shape: two proofs of the shape that it leads to have the same root and
/// the same steps.
pub proof fn law_schedule_leads_to_one_shape(
    schedule: OpeningSchedule,
    a: BatchedProofShape,
    b: BatchedProofShape,
)
    requires
        schedule.leads_to(a),
        schedule.leads_to(b),
    ensures
        a matches BatchedProofShape::Fold { root_shape: p, step_shapes: s } && (
        b matches BatchedProofShape::Fold { root_shape: q, step_shapes: t } && p.y_ring_coeffs
            == q.y_ring_coeffs && p.v_coeffs == q.v_coeffs && p.stage1_stages@ == q.stage1_stages@
            && p.stage2_sumcheck == q.stage2_sumcheck && p.next_commit_coeffs
            == q.next_commit_coeffs && s@.len() == t@.len() && forall|k: int|
            0 <= k < s@.len() ==> match (#[trigger] s@[k], t@[k]) {
                (ProofStepShape::Fold(x), ProofStepShape::Fold(y)) => x.y_ring_coeffs
                    == y.y_ring_coeffs && x.v_coeffs == y.v_coeffs && x.stage1_stages@
                    == y.stage1_stages@ && x.stage2_sumcheck == y.stage2_sumcheck
                    && x.next_commit_coeffs == y.next_commit_coeffs,
                (ProofStepShape::Direct(x), ProofStepShape::Direct(y)) => x == y,
                _ => false,
            }),
{
    match (a, b) {
        (
            BatchedProofShape::Fold { root_shape: p, step_shapes: s },
            BatchedProofShape::Fold { root_shape: q, step_shapes: t },
        ) => {
            lemma_steps_have_one_shape(schedule, s@, t@);
            assert forall|k: int| 0 <= k < s@.len() implies match (#[trigger] s@[k], t@[k]) {
                (ProofStepShape::Fold(x), ProofStepShape::Fold(y)) => x.y_ring_coeffs
                    == y.y_ring_coeffs && x.v_coeffs == y.v_coeffs && x.stage1_stages@
                    == y.stage1_stages@ && x.stage2_sumcheck == y.stage2_sumcheck
                    && x.next_commit_coeffs == y.next_commit_coeffs,
                (ProofStepShape::Direct(x), ProofStepShape::Direct(y)) => x == y,
                _ => false,
            } by {
                assert(same_step(s@[k], t@[k]));
            }
        },
        _ => {},
    }
}

/// The number of rounds is the least one that covers the witness: a ring of dimension `2^a` takes
/// `a` rounds, and its elements take the least number `m` of rounds such that they are at most
/// `2^m`.
pub proof fn law_shape_rounds(a: nat, next_w_len: nat, m: nat)
    ensures
        shape_rounds(pow2(a), next_w_len) >= a,
        (next_w_len / pow2(a) <= pow2(m)) == (shape_rounds(pow2(a), next_w_len) <= a + m),
{
    lemma_twos_in_pow2(a);
    lemma_pow2_pos(a);
    law_log2_ceil(next_w_len / pow2(a), m);
}

/// Whether two stages are the same.
fn same_stage(a: &Stage1StageShape, b: &Stage1StageShape) -> (r: bool)
    ensures
        r == (*a == *b),
{
    a.sumcheck.0 == b.sumcheck.0 && a.sumcheck.1 == b.sumcheck.1 && a.child_claims
        == b.child_claims
}

/// Whether two levels have the same shape.
pub open spec fn same_level(a: LevelProofShape, b: LevelProofShape) -> bool {
    &&& a.y_ring_coeffs == b.y_ring_coeffs
    &&& a.v_coeffs == b.v_coeffs
    &&& a.stage1_stages@ == b.stage1_stages@
    &&& a.stage2_sumcheck == b.stage2_sumcheck
    &&& a.next_commit_coeffs == b.next_commit_coeffs
}

/// Compares the shapes of two levels.
fn is_same_level(a: &LevelProofShape, b: &LevelProofShape) -> (r: bool)
    ensures
        r == same_level(*a, *b),
{
    if a.y_ring_coeffs != b.y_ring_coeffs || a.v_coeffs != b.v_coeffs || a.stage2_sumcheck.0
        != b.stage2_sumcheck.0 || a.stage2_sumcheck.1 != b.stage2_sumcheck.1
        || a.next_commit_coeffs != b.next_commit_coeffs || a.stage1_stages.len()
        != b.stage1_stages.len() {
        return false;
    }
    let mut i: usize = 0;
    while i < a.stage1_stages.len()
        invariant
            i <= a.stage1_stages@.len(),
            a.stage1_stages@.len() == b.stage1_stages@.len(),
            forall|j: int| 0 <= j < i ==> a.stage1_stages@[j] == b.stage1_stages@[j],
        decreases a.stage1_stages@.len() - i,
    {
        if !same_stage(&a.stage1_stages[i], &b.stage1_stages[i]) {
            assert(a.stage1_stages@[i as int] != b.stage1_stages@[i as int]);
            return false;
        }
        i = i + 1;
    }
    assert(a.stage1_stages@ =~= b.stage1_stages@);
    true
}

/// Whether two steps have the same shape.
pub open spec fn same_step(a: ProofStepShape, b: ProofStepShape) -> bool {
    match (a, b) {
        (ProofStepShape::Fold(x), ProofStepShape::Fold(y)) => same_level(x, y),
        (ProofStepShape::Direct(x), ProofStepShape::Direct(y)) => x == y,
        _ => false,
    }
}

/// Compares the shapes of two steps.
fn is_same_step(a: &ProofStepShape, b: &ProofStepShape) -> (r: bool)
    ensures
        r == same_step(*a, *b),
{
    match (a, b) {
        (ProofStepShape::Fold(x), ProofStepShape::Fold(y)) => is_same_level(x, y),
        (
            ProofStepShape::Direct(DirectWitnessShape::PackedDigits(x)),
            ProofStepShape::Direct(DirectWitnessShape::PackedDigits(y)),
        ) => x.0 == y.0 && x.1 == y.1,
        (
            ProofStepShape::Direct(DirectWitnessShape::FieldElements(x)),
            ProofStepShape::Direct(DirectWitnessShape::FieldElements(y)),
        ) => *x == *y,
        _ => false,
    }
}

/// Compares the shapes of steps one by one.
fn are_same_steps(a: &Vec<ProofStepShape>, b: &Vec<ProofStepShape>) -> (r: bool)
    ensures
        r == (a@.len() == b@.len() && forall|k: int|
            0 <= k < a@.len() ==> same_step(#[trigger] a@[k], b@[k])),
{
    if a.len() != b.len() {
        return false;
    }
    let mut k: usize = 0;
    while k < a.len()
        invariant
            k <= a@.len(),
            a@.len() == b@.len(),
            forall|j: int| 0 <= j < k ==> same_step(#[trigger] a@[j], b@[j]),
        decreases a@.len() - k,
    {
        if !is_same_step(&a[k], &b[k]) {
            assert(!same_step(a@[k as int], b@[k as int]));
            return false;
        }
        k = k + 1;
    }
    true
}

impl OpeningSchedule {
    /// Whether a proof shape is the one that the schedule leads to.
    pub open spec fn leads_to(&self, shape: BatchedProofShape) -> bool {
        &&& self.is_complete()
        &&& (shape matches BatchedProofShape::Fold { root_shape, step_shapes }
            && self.root->Some_0.has_shape(
            root_shape,
            AKITA_OPENING_POINTS as nat,
            self.root_next_w_len as nat,
        ) && self.has_steps(step_shapes@))
    }
}

/// The steps of a schedule have one shape.
proof fn lemma_steps_have_one_shape(
    schedule: OpeningSchedule,
    a: Seq<ProofStepShape>,
    b: Seq<ProofStepShape>,
)
    requires
        schedule.has_steps(a),
    ensures
        schedule.has_steps(b) == (a.len() == b.len() && forall|k: int|
            0 <= k < a.len() ==> same_step(#[trigger] a[k], b[k])),
{
    let n = schedule.recursive_folds() as int;
    if schedule.has_steps(b) {
        assert forall|k: int| 0 <= k < a.len() implies same_step(#[trigger] a[k], b[k]) by {
            if k < n {
                assert(a[k] is Fold && b[k] is Fold);
            }
        }
    }
    if a.len() == b.len() && forall|k: int| 0 <= k < a.len() ==> same_step(#[trigger] a[k], b[k]) {
        assert forall|k: int| 0 <= k < n implies ((#[trigger] b[k]) matches ProofStepShape::Fold(
            shape,
        ) && schedule.levels@[k].has_shape(
            shape,
            1,
            schedule.levels@[k].next_w_len() as nat,
        )) by {
            assert(same_step(a[k], b[k]));
            assert(a[k] is Fold);
        }
        assert(same_step(a[n], b[n]));
        assert(schedule.has_steps(b));
    }
}

/// Checks that a proof has the shape that the schedule leads to.
pub fn check_opening_shape(schedule: &OpeningSchedule, shape: &BatchedProofShape) -> (r: Result<
    (),
    ChannelError,
>)
    requires
        schedule.fits(),
    ensures
        r is Ok <==> schedule.leads_to(*shape),
        r matches Err(e) ==> e == ChannelError::ProofEmpty,
{
    let expected: BatchedProofShape = match akita_claim_reduced_opening_shape(schedule) {
        Ok(expected) => expected,
        Err(e) => {
            return Err(e);
        },
    };
    match (&expected, shape) {
        (
            BatchedProofShape::Fold { root_shape: root_a, step_shapes: steps_a },
            BatchedProofShape::Fold { root_shape: root_b, step_shapes: steps_b },
        ) => {
            proof {
                lemma_steps_have_one_shape(*schedule, steps_a@, steps_b@);
            }
            if is_same_level(root_a, root_b) && are_same_steps(steps_a, steps_b) {
                Ok(())
            } else {
                Err(ChannelError::ProofEmpty)
            }
        },
        _ => Err(ChannelError::ProofEmpty),
    }
}

/// Returns what the commitment scheme has to be asked for the stages of the first sumcheck of a
/// level with the given ring dimension, witness length of the next level and digit size in bits:
/// the number of rounds and the number of digits.
pub fn stage1_arguments(level_d: usize, next_w_len: usize, log_basis: u32) -> (r: (usize, usize))
    requires
        level_d > 0,
        pow2(log2_ceil((next_w_len / level_d) as nat)) <= usize::MAX,
        log_basis < usize::BITS,
    ensures
        r.0 == shape_rounds(level_d as nat, next_w_len as nat),
        r.1 == pow2(log_basis as nat),
{
    proof {
        lemma_pow2_of_bits(log_basis as nat);
    }
    (batched_shape_rounds(level_d, next_w_len), power_of_two(log_basis as usize))
}

/// The powers of two below the word size fit in a word.
proof fn lemma_pow2_of_bits(n: nat)
    requires
        n < usize::BITS,
    ensures
        pow2(n) <= usize::MAX,
{
    lemma2_to64();
    vstd::arithmetic::power2::lemma2_to64_rest();
    vstd::layout::unsigned_int_max_values();
    if usize::BITS == 32 {
        lemma_pow2_monotone(n, 31);
    } else {
        lemma_pow2_monotone(n, 63);
    }
}

/// Returns whether the least power of two that is not below `n` fits in the machine.
fn has_power_above(n: usize) -> (r: bool)
    ensures
        r == (pow2(log2_ceil(n as nat)) <= usize::MAX),
{
    let mut size: usize = 1;
    let ghost mut k: nat = 0;
    let ghost top = log2_ceil(n as nat);
    proof {
        lemma2_to64();
        law_log2_ceil(n as nat, 0);
    }
    while size < n
        invariant
            size == pow2(k),
            k <= top,
            top == log2_ceil(n as nat),
        decreases top - k,
    {
        proof {
            law_log2_ceil(n as nat, k);
            lemma_pow2_unfold((k + 1) as nat);
            lemma_pow2_monotone((k + 1) as nat, top);
            lemma_pow2_pos(k);
        }
        if size > usize::MAX / 2 {
            return false;
        }
        size = 2 * size;
        proof {
            k = k + 1;
        }
    }
    proof {
        law_log2_ceil(n as nat, k);
    }
    true
}

impl FoldLevel {
    /// Returns whether the sizes of the level fit in the machine.
    fn has_sizes(&self, points: usize, next_w_len: usize) -> (r: bool)
        ensures
            r == self.fits(points as nat, next_w_len as nat),
    {
        if self.ring_dimension == 0 {
            return false;
        }
        points.checked_mul(self.ring_dimension).is_some() && self.d_rows.checked_mul(
            self.ring_dimension,
        ).is_some() && self.next_b_rows.checked_mul(self.next_ring_dimension).is_some()
            && has_power_above(next_w_len / self.ring_dimension)
    }
}

impl OpeningSchedule {
    /// Returns whether the sizes of all levels fit in the machine.
    pub fn has_sizes(&self) -> (r: bool)
        ensures
            r == self.fits(),
    {
        match &self.root {
            Some(root) => {
                if !root.has_sizes(AKITA_OPENING_POINTS, self.root_next_w_len) {
                    return false;
                }
            },
            None => {},
        }
        let mut k: usize = 0;
        while k < self.levels.len()
            invariant
                k <= self.levels@.len(),
                self.root matches Some(root) ==> root.fits(
                    AKITA_OPENING_POINTS as nat,
                    self.root_next_w_len as nat,
                ),
                forall|j: int|
                    0 <= j < k ==> 0 <= (#[trigger] self.levels@[j]).next_w_len() <= usize::MAX
                        && self.levels@[j].fits(1, self.levels@[j].next_w_len() as nat),
            decreases self.levels@.len() - k,
        {
            let level: &FoldLevel = &self.levels[k];
            match level.ring_elements.checked_mul(level.ring_dimension) {
                Some(next_w_len) => {
                    if !level.has_sizes(1, next_w_len) {
                        assert(!self.levels@[k as int].fits(
                            1,
                            self.levels@[k as int].next_w_len() as nat,
                        ));
                        return false;
                    }
                },
                None => {
                    assert(self.levels@[k as int].next_w_len() > usize::MAX);
                    return false;
                },
            }
            k = k + 1;
        }
        true
    }
}

} // verus!
