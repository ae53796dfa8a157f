//! The word-level Keccak-f\[1600\] rounds and their traces.

use vstd::arithmetic::power2::{lemma_pow2_pos, pow2};
use vstd::prelude::*;

use crate::field::Field;
use crate::powers::{is_power_of_two, lemma_twos_in_pow2, twos_in};
use crate::words::word_bit;

verus! {

/// Keccak-f\[1600\] round constants.
pub const RC: [u64; 24] = [
    0x0000_0000_0000_0001,
    0x0000_0000_0000_8082,
    0x8000_0000_0000_808A,
    0x8000_0000_8000_8000,
    0x0000_0000_0000_808B,
    0x0000_0000_8000_0001,
    0x8000_0000_8000_8081,
    0x8000_0000_0000_8009,
    0x0000_0000_0000_008A,
    0x0000_0000_0000_0088,
    0x0000_0000_8000_8009,
    0x0000_0000_8000_000A,
    0x0000_0000_8000_808B,
    0x8000_0000_0000_008B,
    0x8000_0000_0000_8089,
    0x8000_0000_0000_8003,
    0x8000_0000_0000_8002,
    0x8000_0000_0000_0080,
    0x0000_0000_0000_800A,
    0x8000_0000_8000_000A,
    0x8000_0000_8000_8081,
    0x8000_0000_0000_8080,
    0x0000_0000_8000_0001,
    0x8000_0000_8000_8008,
];

/// Keccak-f\[1600\] rho rotation offsets in lane order `idx(x, y) = x + 5 * y`.
pub const R: [u32; 25] = [
    0, 1, 62, 28, 27,
    36, 44, 6, 55, 20,
    3, 10, 43, 25, 39,
    41, 45, 15, 21, 8,
    18, 2, 61, 56, 14,
];

/// A Keccak state: 25 lanes of 64 bits.
pub type State = [u64; 25];

/// The word with its bits rotated towards the most significant end.
pub open spec fn rotated_left(word: u64, k: u32) -> u64 {
    if k % 64 == 0 {
        word
    } else {
        (word << ((k % 64) as u64)) | (word >> ((64 - k % 64) as u64))
    }
}

/// The parity of column `x` of a state.
pub open spec fn column(s: Seq<u64>, x: int) -> u64 {
    s[x] ^ s[x + 5] ^ s[x + 10] ^ s[x + 15] ^ s[x + 20]
}

/// What the theta step adds to each lane of column `x`.
pub open spec fn theta_effect(s: Seq<u64>, x: int) -> u64 {
    column(s, (x + 4) % 5) ^ rotated_left(column(s, (x + 1) % 5), 1)
}

/// The theta step.
pub open spec fn theta(s: Seq<u64>) -> Seq<u64> {
    Seq::new(25, |lane: int| s[lane] ^ theta_effect(s, lane % 5))
}

/// The lane that the pi step moves to `lane`.
pub open spec fn pi_source(lane: int) -> int {
    (lane % 5 + 3 * (lane / 5)) % 5 + 5 * (lane % 5)
}

/// The rho and pi steps.
pub open spec fn rho_pi(s: Seq<u64>) -> Seq<u64> {
    Seq::new(25, |lane: int| rotated_left(s[pi_source(lane)], R[pi_source(lane)]))
}

/// The chi step.
pub open spec fn chi(s: Seq<u64>) -> Seq<u64> {
    Seq::new(
        25,
        |lane: int|
            s[lane] ^ (!s[chi_next(lane, 1)] & s[chi_next(lane, 2)]),
    )
}

/// The lane `k` columns further in the row of `lane`.
pub open spec fn chi_next(lane: int, k: int) -> int {
    (lane % 5 + k) % 5 + 5 * (lane / 5)
}

/// The iota step of a round.
pub open spec fn iota(s: Seq<u64>, round: int) -> Seq<u64> {
    s.update(0, s[0] ^ RC[round])
}

/// The state before the chi step of a round.
pub open spec fn pre_chi_of(s: Seq<u64>) -> Seq<u64> {
    rho_pi(theta(s))
}

/// The chi and iota steps of a round.
pub open spec fn chi_iota(s: Seq<u64>, round: int) -> Seq<u64> {
    iota(chi(s), round)
}

/// One round of the permutation.
pub open spec fn keccak_round(s: Seq<u64>, round: int) -> Seq<u64> {
    chi_iota(pre_chi_of(s), round)
}

/// The state after the first `n` rounds.
pub open spec fn keccak_rounds(s: Seq<u64>, n: nat) -> Seq<u64>
    decreases n,
{
    if n == 0 {
        s
    } else {
        keccak_round(keccak_rounds(s, (n - 1) as nat), n - 1)
    }
}

/// The Keccak-f\[1600\] permutation.
pub open spec fn keccak_f(s: Seq<u64>) -> Seq<u64> {
    keccak_rounds(s, 24)
}

/// Index a Keccak lane in `(x, y)` coordinates.
pub fn idx(x: usize, y: usize) -> (r: usize)
    requires
        x + 5 * y <= usize::MAX,
    ensures
        r == x + 5 * y,
{
    x + 5 * y
}

/// Returns the word with its bits rotated by `k` towards the most significant end.
pub fn rotate_left(word: u64, k: u32) -> (r: u64)
    ensures
        r == rotated_left(word, k),
{
    let shift: u32 = k % 64;
    if shift == 0 {
        word
    } else {
        (word << (shift as u64)) | (word >> ((64 - shift) as u64))
    }
}

fn column_word(state: &State, x: usize) -> (r: u64)
    requires
        x < 5,
    ensures
        r == column(state@, x as int),
{
    state[idx(x, 0)] ^ state[idx(x, 1)] ^ state[idx(x, 2)] ^ state[idx(x, 3)] ^ state[idx(x, 4)]
}

fn theta_words(state: &mut State)
    ensures
        final(state)@ == theta(old(state)@),
{
    let c: [u64; 5] = [
        column_word(state, 0),
        column_word(state, 1),
        column_word(state, 2),
        column_word(state, 3),
        column_word(state, 4),
    ];
    let ghost before = state@;
    let mut lane: usize = 0;
    while lane < 25
        invariant
            lane <= 25,
            before.len() == 25,
            forall|x: int| 0 <= x < 5 ==> c[x] == column(before, x),
            forall|i: int| 0 <= i < lane ==> state[i] == before[i] ^ theta_effect(before, i % 5),
            forall|i: int| lane <= i < 25 ==> state[i] == before[i],
        decreases 25 - lane,
    {
        let x: usize = lane % 5;
        let d: u64 = c[(x + 4) % 5] ^ rotate_left(c[(x + 1) % 5], 1);
        state[lane] = state[lane] ^ d;
        lane = lane + 1;
    }
    assert(state@ =~= theta(before));
}

fn rho_pi_words(state: &mut State)
    ensures
        final(state)@ == rho_pi(old(state)@),
{
    let source: State = *state;
    let mut lane: usize = 0;
    while lane < 25
        invariant
            lane <= 25,
            forall|i: int|
                0 <= i < lane ==> state[i] == rotated_left(
                    source[pi_source(i)],
                    R[pi_source(i)],
                ),
        decreases 25 - lane,
    {
        let from: usize = idx((lane % 5 + 3 * (lane / 5)) % 5, lane % 5);
        state[lane] = rotate_left(source[from], R[from]);
        lane = lane + 1;
    }
    assert(state@ =~= rho_pi(source@));
}

fn chi_words(state: &mut State)
    ensures
        final(state)@ == chi(old(state)@),
{
    let source: State = *state;
    let mut lane: usize = 0;
    while lane < 25
        invariant
            lane <= 25,
            forall|i: int|
                0 <= i < lane ==> state[i] == source[i] ^ (!source[chi_next(i, 1)] & source[chi_next(
                    i,
                    2,
                )]),
        decreases 25 - lane,
    {
        let b: u64 = source[idx((lane % 5 + 1) % 5, lane / 5)];
        let c: u64 = source[idx((lane % 5 + 2) % 5, lane / 5)];
        state[lane] = source[lane] ^ (!b & c);
        lane = lane + 1;
    }
    assert(state@ =~= chi(source@));
}

fn iota_words(state: &mut State, round: usize)
    requires
        round < 24,
    ensures
        final(state)@ == iota(old(state)@, round as int),
{
    state[0] = state[0] ^ RC[round];
}

/// Apply the linear `theta`, `rho`, and `pi` substeps to a Keccak state in place.
pub fn theta_rho_pi_words(state: &mut State)
    ensures
        final(state)@ == pre_chi_of(old(state)@),
{
    theta_words(state);
    rho_pi_words(state);
}

/// Apply the nonlinear `chi` and affine `iota` substeps to a Keccak state in place.
pub fn chi_iota_words(state: &mut State, round: usize)
    requires
        round < 24,
    ensures
        final(state)@ == chi_iota(old(state)@, round as int),
{
    chi_words(state);
    iota_words(state, round);
}

/// Word-level batch trace for one Keccak round.
#[derive(Debug, Clone, PartialEq, Eq)]
pub struct RoundTraceWords {
    pub input: Vec<State>,
    pub pre_chi: Vec<State>,
    pub output: Vec<State>,
}

/// Compact word-level trace for all 24 Keccak rounds.
///
/// Stores each round's input as native `u64` words instead of expanded field elements,
/// reducing memory by ~240x compared to [`FullTrace`].
#[derive(Debug, Clone, PartialEq, Eq)]
pub struct CompactTrace {
    /// Word-level round inputs, one `Vec<State>` per round (24 entries).
    pub round_inputs: Vec<Vec<State>>,
    /// Word-level final output state.
    pub final_output: Vec<State>,
}

/// Whether `states` holds the images of `inputs` under the first `n` rounds.
pub open spec fn are_states_after(states: Seq<State>, inputs: Seq<State>, n: nat) -> bool {
    &&& states.len() == inputs.len()
    &&& forall|i: int|
        0 <= i < inputs.len() ==> (#[trigger] states[i])@ == keccak_rounds(inputs[i]@, n)
}

/// Whether `states` holds the images of `inputs` before the chi step of round `n`.
pub open spec fn are_states_before_chi(states: Seq<State>, inputs: Seq<State>, n: nat) -> bool {
    &&& states.len() == inputs.len()
    &&& forall|i: int|
        0 <= i < inputs.len() ==> (#[trigger] states[i])@ == pre_chi_of(
            keccak_rounds(inputs[i]@, n),
        )
}

impl CompactTrace {
    /// The number of states in the batch.
    pub fn n_instances(&self) -> (r: usize)
        requires
            self.round_inputs@.len() > 0,
        ensures
            r == self.round_inputs@[0]@.len(),
    {
        self.round_inputs[0].len()
    }

    /// The number of trailing zero bits of the batch size, which is its binary logarithm where it
    /// is a power of two.
    pub fn log_n_instances(&self) -> (r: usize)
        requires
            self.round_inputs@.len() > 0,
        ensures
            self.round_inputs@[0]@.len() > 0 ==> r == twos_in(self.round_inputs@[0]@.len()),
            self.round_inputs@[0]@.len() == 0 ==> r == usize::BITS,
            forall|k: nat| self.round_inputs@[0]@.len() == #[trigger] pow2(k) ==> r == k,
    {
        let mut n: usize = self.n_instances();
        if n == 0 {
            proof {
                assert forall|k: nat| self.round_inputs@[0]@.len() == #[trigger] pow2(k) implies
                    false by {
                    lemma_pow2_pos(k);
                }
            }
            return usize::BITS as usize;
        }
        let mut count: usize = 0;
        let ghost total = n as nat;
        while n % 2 == 0
            invariant
                n > 0,
                count + twos_in(n as nat) == twos_in(total),
                count + n <= total,
                total <= usize::MAX,
            decreases n,
        {
            n = n / 2;
            count = count + 1;
        }
        proof {
            assert forall|k: nat| total == #[trigger] pow2(k) implies count == k by {
                lemma_twos_in_pow2(k);
            }
        }
        count
    }
}

fn copy_states(states: &[State]) -> (r: Vec<State>)
    ensures
        r@ == states@,
{
    let mut out: Vec<State> = Vec::with_capacity(states.len());
    let mut i: usize = 0;
    while i < states.len()
        invariant
            i <= states@.len(),
            out@ == states@.take(i as int),
        decreases states@.len() - i,
    {
        out.push(states[i]);
        i = i + 1;
    }
    assert(states@.take(states@.len() as int) =~= states@);
    out
}

fn batch_pre_chi(states: &[State]) -> (r: Vec<State>)
    ensures
        r@.len() == states@.len(),
        forall|i: int| 0 <= i < states@.len() ==> (#[trigger] r@[i])@ == pre_chi_of(states@[i]@),
{
    let mut out: Vec<State> = Vec::with_capacity(states.len());
    let mut i: usize = 0;
    while i < states.len()
        invariant
            i <= states@.len(),
            out@.len() == i,
            forall|j: int| 0 <= j < i ==> (#[trigger] out@[j])@ == pre_chi_of(states@[j]@),
        decreases states@.len() - i,
    {
        let mut state: State = states[i];
        theta_rho_pi_words(&mut state);
        out.push(state);
        i = i + 1;
    }
    out
}

fn batch_chi_iota(states: &[State], round: usize) -> (r: Vec<State>)
    requires
        round < 24,
    ensures
        r@.len() == states@.len(),
        forall|i: int|
            0 <= i < states@.len() ==> (#[trigger] r@[i])@ == chi_iota(
                states@[i]@,
                round as int,
            ),
{
    let mut out: Vec<State> = Vec::with_capacity(states.len());
    let mut i: usize = 0;
    while i < states.len()
        invariant
            round < 24,
            i <= states@.len(),
            out@.len() == i,
            forall|j: int|
                0 <= j < i ==> (#[trigger] out@[j])@ == chi_iota(states@[j]@, round as int),
        decreases states@.len() - i,
    {
        let mut state: State = states[i];
        chi_iota_words(&mut state, round);
        out.push(state);
        i = i + 1;
    }
    out
}

/// Materialize the full 24-round Keccak trace as concrete word batches.
pub fn trace_words_from_inputs(inputs: &[State]) -> (r: Vec<RoundTraceWords>)
    requires
        is_power_of_two(inputs@.len() as int),
    ensures
        r@.len() == 24,
        forall|t: int| 0 <= t < 24 ==> is_round_trace(#[trigger] r@[t], inputs@, t as nat),
{
    let mut rounds: Vec<RoundTraceWords> = Vec::with_capacity(24);
    let mut current: Vec<State> = copy_states(inputs);
    let mut round: usize = 0;
    while round < 24
        invariant
            round <= 24,
            rounds@.len() == round,
            are_states_after(current@, inputs@, round as nat),
            forall|t: int|
                0 <= t < round ==> is_round_trace(#[trigger] rounds@[t], inputs@, t as nat),
        decreases 24 - round,
    {
        let pre_chi = batch_pre_chi(&current);
        let output = batch_chi_iota(&pre_chi, round);
        let next = copy_states(&output);
        rounds.push(RoundTraceWords { input: current, pre_chi, output });
        current = next;
        round = round + 1;
    }
    rounds
}

/// Whether `trace` holds the input, the state before chi and the output of round `t`, for each of
/// the permutations of `inputs`.
pub open spec fn is_round_trace(trace: RoundTraceWords, inputs: Seq<State>, t: nat) -> bool {
    &&& are_states_after(trace.input@, inputs, t)
    &&& are_states_before_chi(trace.pre_chi@, inputs, t)
    &&& are_states_after(trace.output@, inputs, t + 1)
}

/// Whether `trace` is the compact trace of the permutations of `inputs`.
pub open spec fn is_compact_trace(trace: CompactTrace, inputs: Seq<State>) -> bool {
    &&& trace.round_inputs@.len() == 24
    &&& forall|t: int|
        0 <= t < 24 ==> are_states_after((#[trigger] trace.round_inputs@[t])@, inputs, t as nat)
    &&& are_states_after(trace.final_output@, inputs, 24)
}

/// Materialize the full 24-round Keccak trace as compact word-level data.
///
/// This stores only the `u64` words for each round's input, avoiding the 128x blowup
/// of expanding every bit into a 128-bit field element.
pub fn compact_trace_from_inputs(inputs: &[State]) -> (r: CompactTrace)
    requires
        is_power_of_two(inputs@.len() as int),
    ensures
        is_compact_trace(r, inputs@),
{
    let mut current: Vec<State> = copy_states(inputs);
    let mut round_inputs: Vec<Vec<State>> = Vec::with_capacity(24);
    let mut round: usize = 0;
    while round < 24
        invariant
            round <= 24,
            round_inputs@.len() == round,
            are_states_after(current@, inputs@, round as nat),
            forall|t: int|
                0 <= t < round ==> are_states_after(
                    (#[trigger] round_inputs@[t])@,
                    inputs@,
                    t as nat,
                ),
        decreases 24 - round,
    {
        let pre_chi = batch_pre_chi(&current);
        let next = batch_chi_iota(&pre_chi, round);
        round_inputs.push(current);
        current = next;
        round = round + 1;
    }
    CompactTrace { round_inputs, final_output: current }
}

/// Two batches that hold the same images of the same inputs are equal.
pub proof fn lemma_states_after_unique(a: Seq<State>, b: Seq<State>, inputs: Seq<State>, n: nat)
    requires
        are_states_after(a, inputs, n),
        are_states_after(b, inputs, n),
    ensures
        a == b,
{
    assert forall|i: int| 0 <= i < inputs.len() implies a[i] == b[i] by {
        assert(a[i]@ == b[i]@);
        assert(a[i] =~= b[i]);
    }
    assert(a =~= b);
}

/// Each round of a word trace takes up the output of the round before.
pub proof fn law_rounds_chain(trace: Seq<RoundTraceWords>, inputs: Seq<State>, t: int)
    requires
        trace.len() == 24,
        forall|u: int| 0 <= u < 24 ==> is_round_trace(#[trigger] trace[u], inputs, u as nat),
        0 <= t < 23,
    ensures
        trace[t].output@ == trace[t + 1].input@,
{
    assert(is_round_trace(trace[t], inputs, t as nat));
    assert(is_round_trace(trace[t + 1], inputs, (t + 1) as nat));
    lemma_states_after_unique(trace[t].output@, trace[t + 1].input@, inputs, (t + 1) as nat);
}

/// A round of a trace takes each of its input states through theta, rho and pi to its state before
/// chi, and from there through chi and iota to its output state. The first round starts from the
/// inputs.
pub proof fn law_round_takes_its_steps(
    trace: RoundTraceWords,
    inputs: Seq<State>,
    t: nat,
    i: int,
)
    requires
        is_round_trace(trace, inputs, t),
        0 <= i < inputs.len(),
    ensures
        trace.input@.len() == inputs.len(),
        trace.pre_chi@.len() == inputs.len(),
        trace.output@.len() == inputs.len(),
        t == 0 ==> trace.input@[i]@ == inputs[i]@,
        trace.pre_chi@[i]@ == rho_pi(theta(trace.input@[i]@)),
        trace.output@[i]@ == iota(chi(trace.pre_chi@[i]@), t as int),
{
}

/// The compact trace holds the inputs of the word trace and its last output.
pub proof fn law_compact_trace_matches_word_trace(
    compact: CompactTrace,
    trace: Seq<RoundTraceWords>,
    inputs: Seq<State>,
)
    requires
        is_compact_trace(compact, inputs),
        trace.len() == 24,
        forall|t: int| 0 <= t < 24 ==> is_round_trace(#[trigger] trace[t], inputs, t as nat),
    ensures
        forall|t: int| 0 <= t < 24 ==> (#[trigger] compact.round_inputs@[t])@ == trace[t].input@,
        compact.final_output@ == trace[23].output@,
{
    assert forall|t: int| 0 <= t < 24 implies (#[trigger] compact.round_inputs@[t])@
        == trace[t].input@ by {
        assert(is_round_trace(trace[t], inputs, t as nat));
        lemma_states_after_unique(
            compact.round_inputs@[t]@,
            trace[t].input@,
            inputs,
            t as nat,
        );
    }
    assert(is_round_trace(trace[23], inputs, 23));
    lemma_states_after_unique(compact.final_output@, trace[23].output@, inputs, 24);
}

/// The pi step moves lane `(x, y)` to lane `(y, 2x + 3y)`.
pub proof fn law_pi_moves_lanes(x: int, y: int)
    requires
        0 <= x < 5,
        0 <= y < 5,
    ensures
        pi_source(y + 5 * ((2 * x + 3 * y) % 5)) == x + 5 * y,
{
    let z = (2 * x + 3 * y) % 5;
    assert((y + 5 * z) % 5 == y && (y + 5 * z) / 5 == z);
}

/// Bit `b` of a word as a field element.
pub open spec fn bit_scalar<F: Field>(word: u64, b: int) -> F {
    if word_bit(word, b) {
        F::one_spec()
    } else {
        F::zero_spec()
    }
}

/// The words of a batch of states.
pub open spec fn batch(states: Seq<State>) -> Seq<Seq<u64>> {
    Seq::new(states.len(), |i: int| states[i]@)
}

/// The images of a batch of states under the first `n` rounds.
pub open spec fn batch_after(states: Seq<Seq<u64>>, n: nat) -> Seq<Seq<u64>> {
    Seq::new(states.len(), |i: int| keccak_rounds(states[i], n))
}

/// The images of a batch of states before the chi step.
pub open spec fn batch_before_chi(states: Seq<Seq<u64>>) -> Seq<Seq<u64>> {
    Seq::new(states.len(), |i: int| pre_chi_of(states[i]))
}

/// The bits of one lane of a batch, 64 per state.
pub open spec fn lane_bits<F: Field>(states: Seq<Seq<u64>>, lane: int) -> Seq<F> {
    Seq::new(64 * states.len(), |i: int| bit_scalar(states[i / 64][lane], i % 64))
}

/// Explicit lane tables for one Keccak round.
///
/// Entry `64 * i + b` of a lane's table belongs to bit `b` of that lane in state `i`.
pub type LaneTables<F> = [Vec<F>; 25];

/// Whether the tables hold the bits of a batch of states.
pub open spec fn holds_states<F: Field>(tables: LaneTables<F>, states: Seq<Seq<u64>>) -> bool {
    forall|lane: int| 0 <= lane < 25 ==> (#[trigger] tables[lane])@ == lane_bits::<F>(states, lane)
}

/// Explicit batch trace for one Keccak round.
#[derive(Debug, Clone, PartialEq, Eq)]
pub struct RoundTrace<F> {
    /// Input state `A^(t)`.
    pub input: LaneTables<F>,
    /// Pre-chi state `P^(t) = pi(rho(theta(A^(t))))`.
    pub pre_chi: LaneTables<F>,
}

/// Explicit table trace for all 24 Keccak rounds.
#[derive(Debug, Clone, PartialEq, Eq)]
pub struct FullTrace<F> {
    pub rounds: Vec<RoundTrace<F>>,
    pub final_output: LaneTables<F>,
}

/// Whether `trace` holds the tables of the permutations of a batch.
pub open spec fn is_full_trace<F: Field>(trace: FullTrace<F>, states: Seq<Seq<u64>>) -> bool {
    &&& trace.rounds@.len() == 24
    &&& forall|t: int|
        0 <= t < 24 ==> {
            let after = batch_after(states, t as nat);
            &&& holds_states((#[trigger] trace.rounds@[t]).input, after)
            &&& holds_states(trace.rounds@[t].pre_chi, batch_before_chi(after))
        }
    &&& holds_states(trace.final_output, batch_after(states, 24))
}

impl<F> FullTrace<F> {
    /// The output tables of a round: the next round's input, or the final output.
    pub open spec fn round_output_spec(&self, round: int) -> LaneTables<F> {
        if round + 1 < self.rounds@.len() {
            self.rounds@[round + 1].input
        } else {
            self.final_output
        }
    }

    /// Return the explicit output tables for `round`.
    ///
    /// For rounds `0..23`, the output is the next round's input. The final round output is stored
    /// separately in `final_output`.
    pub fn round_output(&self, round: usize) -> (r: &LaneTables<F>)
        requires
            round < self.rounds@.len(),
        ensures
            *r == self.round_output_spec(round as int),
    {
        if round < self.rounds.len() - 1 {
            &self.rounds[round + 1].input
        } else {
            &self.final_output
        }
    }
}

/// Returns bit `bit` of a word as a field element.
pub fn scalar_bit<F: Field>(word: u64, bit: usize) -> (r: F)
    requires
        bit < 64,
    ensures
        r == bit_scalar::<F>(word, bit as int),
{
    if (word >> (bit as u64)) & 1 == 1 {
        F::one()
    } else {
        F::zero()
    }
}

fn lane_table_from_states<F: Field>(states: &[State], lane: usize) -> (r: Vec<F>)
    requires
        lane < 25,
        64 * states@.len() <= usize::MAX,
    ensures
        r@ == lane_bits::<F>(batch(states@), lane as int),
{
    let ghost expected = lane_bits::<F>(batch(states@), lane as int);
    let mut table: Vec<F> = Vec::with_capacity(64 * states.len());
    let mut i: usize = 0;
    while i < states.len()
        invariant
            i <= states@.len(),
            lane < 25,
            64 * states@.len() <= usize::MAX,
            expected == lane_bits::<F>(batch(states@), lane as int),
            table@ == expected.take(64 * i),
        decreases states@.len() - i,
    {
        let word: u64 = states[i][lane];
        let mut bit: usize = 0;
        while bit < 64
            invariant
                bit <= 64,
                i < states@.len(),
                lane < 25,
                64 * states@.len() <= usize::MAX,
                word == states@[i as int][lane as int],
                expected == lane_bits::<F>(batch(states@), lane as int),
                table@ == expected.take(64 * i + bit),
            decreases 64 - bit,
        {
            let value: F = scalar_bit(word, bit);
            table.push(value);
            assert((64 * i + bit) / 64 == i as int && (64 * i + bit) % 64 == bit as int);
            assert(table@ =~= expected.take(64 * i + bit + 1));
            bit = bit + 1;
        }
        i = i + 1;
    }
    assert(expected.take(64 * i) =~= expected);
    table
}

/// Convert a batch of concrete Keccak states into one multilinear table per lane.
pub fn state_batch_to_lane_tables<F: Field>(states: &[State]) -> (r: LaneTables<F>)
    requires
        is_power_of_two(states@.len() as int),
        64 * states@.len() <= usize::MAX,
    ensures
        holds_states(r, batch(states@)),
{
    [
        lane_table_from_states(states, 0),
        lane_table_from_states(states, 1),
        lane_table_from_states(states, 2),
        lane_table_from_states(states, 3),
        lane_table_from_states(states, 4),
        lane_table_from_states(states, 5),
        lane_table_from_states(states, 6),
        lane_table_from_states(states, 7),
        lane_table_from_states(states, 8),
        lane_table_from_states(states, 9),
        lane_table_from_states(states, 10),
        lane_table_from_states(states, 11),
        lane_table_from_states(states, 12),
        lane_table_from_states(states, 13),
        lane_table_from_states(states, 14),
        lane_table_from_states(states, 15),
        lane_table_from_states(states, 16),
        lane_table_from_states(states, 17),
        lane_table_from_states(states, 18),
        lane_table_from_states(states, 19),
        lane_table_from_states(states, 20),
        lane_table_from_states(states, 21),
        lane_table_from_states(states, 22),
        lane_table_from_states(states, 23),
        lane_table_from_states(states, 24),
    ]
}

/// Materialize the full 24-round Keccak trace as lane multilinear tables.
pub fn trace_from_inputs<F: Field>(inputs: &[State]) -> (r: FullTrace<F>)
    requires
        is_power_of_two(inputs@.len() as int),
        64 * inputs@.len() <= usize::MAX,
    ensures
        is_full_trace(r, batch(inputs@)),
{
    let words = trace_words_from_inputs(inputs);
    let ghost states = batch(inputs@);
    let mut rounds: Vec<RoundTrace<F>> = Vec::with_capacity(24);
    let mut t: usize = 0;
    while t < 24
        invariant
            t <= 24,
            is_power_of_two(inputs@.len() as int),
            64 * inputs@.len() <= usize::MAX,
            states == batch(inputs@),
            words@.len() == 24,
            forall|u: int| 0 <= u < 24 ==> is_round_trace(#[trigger] words@[u], inputs@, u as nat),
            rounds@.len() == t,
            forall|u: int|
                0 <= u < t ==> {
                    let after = batch_after(states, u as nat);
                    &&& holds_states((#[trigger] rounds@[u]).input, after)
                    &&& holds_states(rounds@[u].pre_chi, batch_before_chi(after))
                },
        decreases 24 - t,
    {
        assert(is_round_trace(words@[t as int], inputs@, t as nat));
        let input = state_batch_to_lane_tables(words[t].input.as_slice());
        let pre_chi = state_batch_to_lane_tables(words[t].pre_chi.as_slice());
        assert(batch(words@[t as int].input@) =~= batch_after(states, t as nat));
        assert(batch(words@[t as int].pre_chi@) =~= batch_before_chi(
            batch_after(states, t as nat),
        ));
        rounds.push(RoundTrace { input, pre_chi });
        t = t + 1;
    }
    assert(is_round_trace(words@[23], inputs@, 23));
    let final_output = state_batch_to_lane_tables(words[23].output.as_slice());
    assert(batch(words@[23].output@) =~= batch_after(states, 24));
    FullTrace { rounds, final_output }
}

} // verus!
