//! Circuits over 64-bit words, as the gadgets build them.
//!
//! A circuit is a list of gates, each of which gives the value of one wire, and a list of checks on
//! wires. An assignment gives each wire a value. It *follows* the circuit where every gate is
//! computed right, and it *passes* where every check holds; an assignment that does both is
//! accepted. Witness and hint gates are free: an assignment follows the circuit whatever they hold.
//! It is *honest* where every hint gate holds the value that its handler computes.
//!
//! A comparison gives a word whose most significant bit is the truth value and whose other bits are
//! arbitrary.

use vstd::arithmetic::div_mod::lemma_fundamental_div_mod;
use vstd::prelude::*;

use super::params::Q;
use super::rounding::{high_part, low_part, DecomposeMode2Hint};
use crate::keccak_check::rotation::lemma_rotated_bit;
use crate::keccak_check::trace::rotate_left;
use crate::words::{lemma_word_bits, word_bit};

verus! {

/// A wire: the place of a gate, which gives its value.
#[derive(Debug, Clone, Copy, PartialEq, Eq, Structural)]
pub struct Wire {
    pub index: usize,
}

/// What gives a wire its value.
#[derive(Debug)]
pub enum Gate {
    /// A value supplied from outside.
    Witness,
    /// A fixed word.
    Constant(u64),
    /// A limb of the quotient or remainder of a two-limb division, supplied by the prover.
    DivideHint { dividend: [Wire; 2], divisor: [Wire; 2], remainder: bool, limb: usize },
    /// The high part of a decomposition, supplied by the prover.
    HighHint(Wire),
    /// The shifted low part of a decomposition, supplied by the prover.
    LowHint(Wire),
    /// The sum modulo `2^64`.
    Add(Wire, Wire),
    /// A word whose most significant bit is the carry out of the sum.
    Carry(Wire, Wire),
    /// The difference modulo `2^64`.
    Sub(Wire, Wire),
    /// The high word of the product.
    MulHigh(Wire, Wire),
    /// The low word of the product.
    MulLow(Wire, Wire),
    /// Whether the first word is less than the second.
    LessThan(Wire, Wire),
    /// Whether the first word is at most the second.
    LessEqual(Wire, Wire),
    /// The second word where the first one is true, and the third one otherwise.
    Select(Wire, Wire, Wire),
    /// The conjunction of the words.
    And(Wire, Wire),
    /// The exclusive or of the words.
    Xor(Wire, Wire),
    /// The complement of the word.
    Not(Wire),
    /// The word shifted towards the most significant end.
    ShiftLeft(Wire, u32),
    /// The word shifted towards the least significant end.
    ShiftRight(Wire, u32),
    /// The word rotated towards the most significant end.
    RotateLeft(Wire, u32),
    /// A byte of the word.
    Byte(Wire, u32),
    /// The word at the place that the selector gives; arbitrary where there is none.
    Lookup(Vec<Wire>, Wire),
}

/// A condition on wires.
#[derive(Debug)]
pub enum Check {
    /// The word is zero.
    Zero(Wire),
    /// The words are equal.
    Equal(Wire, Wire),
    /// The most significant bit is set.
    True(Wire),
    /// The most significant bit is clear.
    False(Wire),
    /// The first two words are equal where the third one is true.
    EqualIf(Wire, Wire, Wire),
}

/// A circuit under construction.
#[derive(Debug)]
pub struct CircuitBuilder {
    pub gates: Vec<Gate>,
    pub checks: Vec<Check>,
}

/// The number of words.
pub open spec fn word_count() -> int {
    0x1_0000_0000_0000_0000
}

/// The truth value of a word: its most significant bit.
pub open spec fn is_true(word: u64) -> bool {
    word >= 0x8000_0000_0000_0000
}

/// The value of a wire.
pub open spec fn at(v: Seq<u64>, wire: Wire) -> u64 {
    v[wire.index as int]
}

/// The word rotated by `n` bits towards the most significant end.
pub open spec fn rotated_word(word: u64, n: u32) -> u64 {
    crate::keccak_check::trace::rotated_left(word, n)
}

/// The number with two limbs.
pub open spec fn two_limbs(v: Seq<u64>, limbs: [Wire; 2]) -> int {
    at(v, limbs[0]) + word_count() * at(v, limbs[1])
}

/// A limb of the quotient or remainder of two numbers, where a quotient by zero is zero.
pub open spec fn division_limb(dividend: int, divisor: int, remainder: bool, limb: int) -> int {
    let value = if divisor == 0 {
        0
    } else if remainder {
        dividend % divisor
    } else {
        dividend / divisor
    };
    if limb == 0 {
        value % word_count()
    } else {
        value / word_count()
    }
}

/// Whether a gate's inputs come before place `i`.
pub open spec fn gate_is_valid(gate: Gate, i: int) -> bool {
    match gate {
        Gate::Witness => true,
        Gate::Constant(_) => true,
        Gate::DivideHint { dividend, divisor, remainder, limb } => dividend[0].index < i
            && dividend[1].index < i && divisor[0].index < i && divisor[1].index < i,
        Gate::HighHint(a) => a.index < i,
        Gate::LowHint(a) => a.index < i,
        Gate::Add(a, b) => a.index < i && b.index < i,
        Gate::Carry(a, b) => a.index < i && b.index < i,
        Gate::Sub(a, b) => a.index < i && b.index < i,
        Gate::MulHigh(a, b) => a.index < i && b.index < i,
        Gate::MulLow(a, b) => a.index < i && b.index < i,
        Gate::LessThan(a, b) => a.index < i && b.index < i,
        Gate::LessEqual(a, b) => a.index < i && b.index < i,
        Gate::Select(c, a, b) => c.index < i && a.index < i && b.index < i,
        Gate::And(a, b) => a.index < i && b.index < i,
        Gate::Xor(a, b) => a.index < i && b.index < i,
        Gate::Not(a) => a.index < i,
        Gate::ShiftLeft(a, n) => a.index < i && n < 64,
        Gate::ShiftRight(a, n) => a.index < i && n < 64,
        Gate::RotateLeft(a, n) => a.index < i && n < 64,
        Gate::Byte(a, n) => a.index < i && n < 8,
        Gate::Lookup(inputs, selector) => {
            &&& selector.index < i
            &&& inputs@.len() > 0
            &&& forall|k: int| 0 <= k < inputs@.len() ==> (#[trigger] inputs@[k]).index < i
        },
    }
}

/// Whether place `i` holds what its gate computes.
pub open spec fn gate_holds(gate: Gate, v: Seq<u64>, i: int) -> bool {
    match gate {
        Gate::Witness => true,
        Gate::Constant(c) => v[i] == c,
        Gate::DivideHint { .. } => true,
        Gate::HighHint(_) => true,
        Gate::LowHint(_) => true,
        Gate::Add(a, b) => v[i] == (at(v, a) + at(v, b)) % word_count(),
        Gate::Carry(a, b) => is_true(v[i]) == (at(v, a) + at(v, b) >= word_count()),
        Gate::Sub(a, b) => v[i] == (at(v, a) - at(v, b)) % word_count(),
        Gate::MulHigh(a, b) => v[i] == (at(v, a) * at(v, b)) / word_count(),
        Gate::MulLow(a, b) => v[i] == (at(v, a) * at(v, b)) % word_count(),
        Gate::LessThan(a, b) => is_true(v[i]) == (at(v, a) < at(v, b)),
        Gate::LessEqual(a, b) => is_true(v[i]) == (at(v, a) <= at(v, b)),
        Gate::Select(c, a, b) => v[i] == if is_true(at(v, c)) {
            at(v, a)
        } else {
            at(v, b)
        },
        Gate::And(a, b) => v[i] == at(v, a) & at(v, b),
        Gate::Xor(a, b) => v[i] == at(v, a) ^ at(v, b),
        Gate::Not(a) => v[i] == !at(v, a),
        Gate::ShiftLeft(a, n) => v[i] == at(v, a) << n,
        Gate::ShiftRight(a, n) => v[i] == at(v, a) >> n,
        Gate::RotateLeft(a, n) => v[i] == rotated_word(at(v, a), n),
        Gate::Byte(a, n) => v[i] == (at(v, a) >> ((8 * n) as u32)) & 0xff,
        Gate::Lookup(inputs, selector) => at(v, selector) < inputs@.len() ==> v[i] == at(
            v,
            inputs@[at(v, selector) as int],
        ),
    }
}

/// Whether place `i` holds what the handler of a hint gate computes.
pub open spec fn hint_holds(gate: Gate, v: Seq<u64>, i: int) -> bool {
    match gate {
        Gate::DivideHint { dividend, divisor, remainder, limb } => v[i] == division_limb(
            two_limbs(v, dividend),
            two_limbs(v, divisor),
            remainder,
            limb as int,
        ),
        Gate::HighHint(a) => at(v, a) < Q ==> v[i] == high_part(at(v, a) as int),
        Gate::LowHint(a) => at(v, a) < Q ==> v[i] == low_part(at(v, a) as int) + 95_232,
        _ => true,
    }
}

/// Whether a check's wires come before place `i`.
pub open spec fn check_is_valid(check: Check, i: int) -> bool {
    match check {
        Check::Zero(a) => a.index < i,
        Check::Equal(a, b) => a.index < i && b.index < i,
        Check::True(a) => a.index < i,
        Check::False(a) => a.index < i,
        Check::EqualIf(a, b, c) => a.index < i && b.index < i && c.index < i,
    }
}

/// Whether a check holds.
pub open spec fn check_holds(check: Check, v: Seq<u64>) -> bool {
    match check {
        Check::Zero(a) => at(v, a) == 0,
        Check::Equal(a, b) => at(v, a) == at(v, b),
        Check::True(a) => is_true(at(v, a)),
        Check::False(a) => !is_true(at(v, a)),
        Check::EqualIf(a, b, c) => is_true(at(v, c)) ==> at(v, a) == at(v, b),
    }
}

impl CircuitBuilder {
    /// The number of wires.
    pub open spec fn size(&self) -> nat {
        self.gates@.len()
    }

    /// Whether gates and checks refer to wires that are there, each gate to earlier ones.
    pub open spec fn is_valid(&self) -> bool {
        &&& forall|i: int| 0 <= i < self.size() ==> gate_is_valid(#[trigger] self.gates@[i], i)
        &&& forall|j: int|
            0 <= j < self.checks@.len() ==> check_is_valid(
                #[trigger] self.checks@[j],
                self.size() as int,
            )
    }

    /// Whether a wire is there.
    pub open spec fn has(&self, wire: Wire) -> bool {
        wire.index < self.size()
    }

    /// Whether all wires are there.
    pub open spec fn has_all(&self, wires: Seq<Wire>) -> bool {
        forall|k: int| 0 <= k < wires.len() ==> self.has(#[trigger] wires[k])
    }

    /// Whether every gate is computed right.
    pub open spec fn follows(&self, v: Seq<u64>) -> bool {
        &&& v.len() >= self.size()
        &&& forall|i: int| 0 <= i < self.size() ==> gate_holds(#[trigger] self.gates@[i], v, i)
    }

    /// Whether every hint gate holds what its handler computes.
    pub open spec fn honest(&self, v: Seq<u64>) -> bool {
        forall|i: int| 0 <= i < self.size() ==> hint_holds(#[trigger] self.gates@[i], v, i)
    }

    /// Whether every check holds.
    pub open spec fn passes(&self, v: Seq<u64>) -> bool {
        forall|j: int| 0 <= j < self.checks@.len() ==> check_holds(#[trigger] self.checks@[j], v)
    }

    /// Whether an assignment is accepted.
    pub open spec fn accepts(&self, v: Seq<u64>) -> bool {
        self.follows(v) && self.passes(v)
    }

    /// Whether a wire is free: its value is supplied from outside, whatever the others hold.
    pub open spec fn is_free(&self, wire: Wire) -> bool {
        &&& self.has(wire)
        &&& self.gates@[wire.index as int] is Witness
    }

    /// Whether this circuit starts with the gates of another.
    pub open spec fn extends(&self, other: &Self) -> bool {
        &&& self.size() >= other.size()
        &&& forall|i: int| 0 <= i < other.size() ==> #[trigger] self.gates@[i] == other.gates@[i]
    }

    /// Whether this circuit was made from another by adding gates and checks: it starts with the
    /// same gates, and what holds of an assignment here holds there too.
    pub open spec fn grows_from(&self, other: &Self) -> bool {
        &&& self.extends(other)
        &&& forall|v: Seq<u64>| #[trigger] self.follows(v) ==> other.follows(v)
        &&& forall|v: Seq<u64>| #[trigger] self.honest(v) ==> other.honest(v)
        &&& forall|v: Seq<u64>| #[trigger] self.passes(v) ==> other.passes(v)
    }

    /// Starts an empty circuit.
    pub fn new() -> (r: Self)
        ensures
            r.is_valid(),
            r.size() == 0,
            forall|v: Seq<u64>| #[trigger] r.follows(v),
            forall|v: Seq<u64>| #[trigger] r.honest(v),
            forall|v: Seq<u64>| #[trigger] r.passes(v),
    {
        CircuitBuilder { gates: Vec::new(), checks: Vec::new() }
    }

    fn push_gate(&mut self, gate: Gate) -> (r: Wire)
        requires
            old(self).is_valid(),
            gate_is_valid(gate, old(self).size() as int),
        ensures
            final(self).is_valid(),
            final(self).extends(old(self)),
            final(self).gates@ == old(self).gates@.push(gate),
            r.index == old(self).size(),
            final(self).size() == old(self).size() + 1,
            forall|v: Seq<u64>| #[trigger]
                final(self).follows(v) == (old(self).follows(v) && v.len() > r.index && gate_holds(
                    gate,
                    v,
                    r.index as int,
                )),
            forall|v: Seq<u64>| #[trigger]
                final(self).honest(v) == (old(self).honest(v) && hint_holds(
                    gate,
                    v,
                    r.index as int,
                )),
            forall|v: Seq<u64>| #[trigger] final(self).passes(v) == old(self).passes(v),
    {
        let index: usize = self.gates.len();
        let ghost before = *self;
        self.gates.push(gate);
        proof {
            let after = *self;
            assert forall|i: int| 0 <= i < before.size() implies after.gates@[i]
                == before.gates@[i] by {}
            assert(after.gates@[before.size() as int] == gate);
            assert forall|i: int| 0 <= i < after.size() implies gate_is_valid(
                #[trigger] after.gates@[i],
                i,
            ) by {
                if i < before.size() {
                    assert(gate_is_valid(before.gates@[i], i));
                }
            }
            assert forall|v: Seq<u64>| #[trigger]
                after.follows(v) == (before.follows(v) && v.len() > index && gate_holds(
                    gate,
                    v,
                    index as int,
                )) by {
                if after.follows(v) {
                    assert forall|i: int| 0 <= i < before.size() implies gate_holds(
                        #[trigger] before.gates@[i],
                        v,
                        i,
                    ) by {
                        assert(gate_holds(after.gates@[i], v, i));
                    }
                    assert(gate_holds(after.gates@[index as int], v, index as int));
                }
            }
            assert forall|v: Seq<u64>| #[trigger]
                after.honest(v) == (before.honest(v) && hint_holds(gate, v, index as int)) by {
                if after.honest(v) {
                    assert forall|i: int| 0 <= i < before.size() implies hint_holds(
                        #[trigger] before.gates@[i],
                        v,
                        i,
                    ) by {
                        assert(hint_holds(after.gates@[i], v, i));
                    }
                    assert(hint_holds(after.gates@[index as int], v, index as int));
                }
            }
        }
        Wire { index }
    }

    fn push_check(&mut self, check: Check)
        requires
            old(self).is_valid(),
            check_is_valid(check, old(self).size() as int),
        ensures
            final(self).is_valid(),
            final(self).extends(old(self)),
            final(self).size() == old(self).size(),
            forall|v: Seq<u64>| #[trigger] final(self).follows(v) == old(self).follows(v),
            forall|v: Seq<u64>| #[trigger] final(self).honest(v) == old(self).honest(v),
            forall|v: Seq<u64>| #[trigger]
                final(self).passes(v) == (old(self).passes(v) && check_holds(check, v)),
    {
        let ghost before = *self;
        self.checks.push(check);
        proof {
            let after = *self;
            let n = before.checks@.len() as int;
            assert(after.checks@[n] == check);
            assert forall|j: int| 0 <= j < n implies after.checks@[j] == before.checks@[j] by {}
            assert forall|j: int| 0 <= j < after.checks@.len() implies check_is_valid(
                #[trigger] after.checks@[j],
                after.size() as int,
            ) by {
                if j < n {
                    assert(check_is_valid(before.checks@[j], before.size() as int));
                }
            }
            assert forall|v: Seq<u64>| #[trigger]
                after.passes(v) == (before.passes(v) && check_holds(check, v)) by {
                if after.passes(v) {
                    assert forall|j: int| 0 <= j < n implies check_holds(
                        #[trigger] before.checks@[j],
                        v,
                    ) by {
                        assert(check_holds(after.checks@[j], v));
                    }
                    assert(check_holds(after.checks@[n], v));
                }
            }
        }
    }

    /// Adds a wire with a fixed value.
    pub fn add_constant_64(&mut self, value: u64) -> (r: Wire)
        requires
            old(self).is_valid(),
        ensures
            final(self).is_valid(),
            final(self).extends(old(self)),
            r.index == old(self).size(),
            final(self).size() == old(self).size() + 1,
            forall|v: Seq<u64>| #[trigger]
                final(self).follows(v) == (old(self).follows(v) && v.len() > r.index && at(v, r) == value),
            forall|v: Seq<u64>| #[trigger] final(self).honest(v) == old(self).honest(v),
            forall|v: Seq<u64>| #[trigger] final(self).passes(v) == old(self).passes(v),
    {
        self.push_gate(Gate::Constant(value))
    }

    /// Adds a wire whose value is supplied from outside.
    pub fn add_witness(&mut self) -> (r: Wire)
        requires
            old(self).is_valid(),
        ensures
            final(self).is_valid(),
            final(self).extends(old(self)),
            final(self).gates@ == old(self).gates@.push(Gate::Witness),
            r.index == old(self).size(),
            final(self).size() == old(self).size() + 1,
            forall|v: Seq<u64>| #[trigger]
                final(self).follows(v) == (old(self).follows(v) && v.len() > r.index),
            forall|v: Seq<u64>| #[trigger] final(self).honest(v) == old(self).honest(v),
            forall|v: Seq<u64>| #[trigger] final(self).passes(v) == old(self).passes(v),
    {
        self.push_gate(Gate::Witness)
    }

    /// Adds wires for the sum of two words modulo `2^64` and for its carry.
    pub fn iadd(&mut self, a: Wire, b: Wire) -> (r: (Wire, Wire))
        requires
            old(self).is_valid(),
            old(self).has(a),
            old(self).has(b),
        ensures
            final(self).is_valid(),
            final(self).extends(old(self)),
            final(self).has(r.0),
            final(self).has(r.1),
            final(self).size() == old(self).size() + 2,
            forall|v: Seq<u64>| #[trigger]
                final(self).follows(v) ==> old(self).follows(v)
                    && at(v, r.0) == (at(v, a) + at(v, b)) % word_count()
                    && is_true(at(v, r.1)) == (at(v, a) + at(v, b) >= word_count()),
            forall|v: Seq<u64>| #[trigger] final(self).honest(v) == old(self).honest(v),
            forall|v: Seq<u64>| #[trigger] final(self).passes(v) == old(self).passes(v),
    {
        let sum = self.push_gate(Gate::Add(a, b));
        let carry = self.push_gate(Gate::Carry(a, b));
        (sum, carry)
    }

    /// Adds wires for the high and the low word of the product of two words.
    pub fn imul(&mut self, a: Wire, b: Wire) -> (r: (Wire, Wire))
        requires
            old(self).is_valid(),
            old(self).has(a),
            old(self).has(b),
        ensures
            final(self).is_valid(),
            final(self).extends(old(self)),
            final(self).has(r.0),
            final(self).has(r.1),
            final(self).size() == old(self).size() + 2,
            forall|v: Seq<u64>| #[trigger]
                final(self).follows(v) ==> old(self).follows(v)
                    && at(v, r.0) == (at(v, a) * at(v, b)) / word_count()
                    && at(v, r.1) == (at(v, a) * at(v, b)) % word_count(),
            forall|v: Seq<u64>| #[trigger] final(self).honest(v) == old(self).honest(v),
            forall|v: Seq<u64>| #[trigger] final(self).passes(v) == old(self).passes(v),
    {
        let high = self.push_gate(Gate::MulHigh(a, b));
        let low = self.push_gate(Gate::MulLow(a, b));
        (high, low)
    }

    /// Adds a wire for the difference of two words modulo `2^64`.
    pub fn isub(&mut self, a: Wire, b: Wire) -> (r: Wire)
        requires
            old(self).is_valid(),
            old(self).has(a),
            old(self).has(b),
        ensures
            final(self).is_valid(),
            final(self).extends(old(self)),
            r.index == old(self).size(),
            final(self).size() == old(self).size() + 1,
            forall|v: Seq<u64>| #[trigger]
                final(self).follows(v) == (old(self).follows(v) && v.len() > r.index
                    && at(v, r) == (at(v, a) - at(v, b)) % word_count()),
            forall|v: Seq<u64>| #[trigger] final(self).honest(v) == old(self).honest(v),
            forall|v: Seq<u64>| #[trigger] final(self).passes(v) == old(self).passes(v),
    {
        self.push_gate(Gate::Sub(a, b))
    }

    /// Adds a wire that is true where the first word is less than the second.
    pub fn less_than(&mut self, a: Wire, b: Wire) -> (r: Wire)
        requires
            old(self).is_valid(),
            old(self).has(a),
            old(self).has(b),
        ensures
            final(self).is_valid(),
            final(self).extends(old(self)),
            r.index == old(self).size(),
            final(self).size() == old(self).size() + 1,
            forall|v: Seq<u64>| #[trigger]
                final(self).follows(v) == (old(self).follows(v) && v.len() > r.index
                    && is_true(at(v, r)) == (at(v, a) < at(v, b))),
            forall|v: Seq<u64>| #[trigger] final(self).honest(v) == old(self).honest(v),
            forall|v: Seq<u64>| #[trigger] final(self).passes(v) == old(self).passes(v),
    {
        self.push_gate(Gate::LessThan(a, b))
    }

    /// Adds a wire that is true where the first word is at most the second.
    pub fn less_equal(&mut self, a: Wire, b: Wire) -> (r: Wire)
        requires
            old(self).is_valid(),
            old(self).has(a),
            old(self).has(b),
        ensures
            final(self).is_valid(),
            final(self).extends(old(self)),
            r.index == old(self).size(),
            final(self).size() == old(self).size() + 1,
            forall|v: Seq<u64>| #[trigger]
                final(self).follows(v) == (old(self).follows(v) && v.len() > r.index
                    && is_true(at(v, r)) == (at(v, a) <= at(v, b))),
            forall|v: Seq<u64>| #[trigger] final(self).honest(v) == old(self).honest(v),
            forall|v: Seq<u64>| #[trigger] final(self).passes(v) == old(self).passes(v),
    {
        self.push_gate(Gate::LessEqual(a, b))
    }

    /// Adds a wire that takes over one of two words by a truth value.
    pub fn select(&mut self, condition: Wire, a: Wire, b: Wire) -> (r: Wire)
        requires
            old(self).is_valid(),
            old(self).has(condition),
            old(self).has(a),
            old(self).has(b),
        ensures
            final(self).is_valid(),
            final(self).extends(old(self)),
            r.index == old(self).size(),
            final(self).size() == old(self).size() + 1,
            forall|v: Seq<u64>| #[trigger]
                final(self).follows(v) == (old(self).follows(v) && v.len() > r.index
                    && at(v, r) == if is_true(at(v, condition)) {
                    at(v, a)
                } else {
                    at(v, b)
                }),
            forall|v: Seq<u64>| #[trigger] final(self).honest(v) == old(self).honest(v),
            forall|v: Seq<u64>| #[trigger] final(self).passes(v) == old(self).passes(v),
    {
        self.push_gate(Gate::Select(condition, a, b))
    }

    /// Adds a wire for the conjunction of two words.
    pub fn band(&mut self, a: Wire, b: Wire) -> (r: Wire)
        requires
            old(self).is_valid(),
            old(self).has(a),
            old(self).has(b),
        ensures
            final(self).is_valid(),
            final(self).extends(old(self)),
            r.index == old(self).size(),
            final(self).size() == old(self).size() + 1,
            forall|v: Seq<u64>| #[trigger]
                final(self).follows(v) == (old(self).follows(v) && v.len() > r.index
                    && at(v, r) == at(v, a) & at(v, b)),
            forall|v: Seq<u64>| #[trigger] final(self).honest(v) == old(self).honest(v),
            forall|v: Seq<u64>| #[trigger] final(self).passes(v) == old(self).passes(v),
    {
        self.push_gate(Gate::And(a, b))
    }

    /// Adds a wire for the exclusive or of two words.
    pub fn bxor(&mut self, a: Wire, b: Wire) -> (r: Wire)
        requires
            old(self).is_valid(),
            old(self).has(a),
            old(self).has(b),
        ensures
            final(self).is_valid(),
            final(self).extends(old(self)),
            r.index == old(self).size(),
            final(self).size() == old(self).size() + 1,
            forall|v: Seq<u64>| #[trigger]
                final(self).follows(v) == (old(self).follows(v) && v.len() > r.index
                    && at(v, r) == at(v, a) ^ at(v, b)),
            forall|v: Seq<u64>| #[trigger] final(self).honest(v) == old(self).honest(v),
            forall|v: Seq<u64>| #[trigger] final(self).passes(v) == old(self).passes(v),
    {
        self.push_gate(Gate::Xor(a, b))
    }

    /// Adds a wire for the complement of a word.
    pub fn bnot(&mut self, a: Wire) -> (r: Wire)
        requires
            old(self).is_valid(),
            old(self).has(a),
        ensures
            final(self).is_valid(),
            final(self).extends(old(self)),
            r.index == old(self).size(),
            final(self).size() == old(self).size() + 1,
            forall|v: Seq<u64>| #[trigger]
                final(self).follows(v) == (old(self).follows(v) && v.len() > r.index && at(v, r) == !at(v, a)),
            forall|v: Seq<u64>| #[trigger] final(self).honest(v) == old(self).honest(v),
            forall|v: Seq<u64>| #[trigger] final(self).passes(v) == old(self).passes(v),
    {
        self.push_gate(Gate::Not(a))
    }

    /// Adds a wire for a word shifted towards the most significant end.
    pub fn shl(&mut self, a: Wire, n: u32) -> (r: Wire)
        requires
            old(self).is_valid(),
            old(self).has(a),
            n < 64,
        ensures
            final(self).is_valid(),
            final(self).extends(old(self)),
            r.index == old(self).size(),
            final(self).size() == old(self).size() + 1,
            forall|v: Seq<u64>| #[trigger]
                final(self).follows(v) == (old(self).follows(v) && v.len() > r.index
                    && at(v, r) == at(v, a) << n),
            forall|v: Seq<u64>| #[trigger] final(self).honest(v) == old(self).honest(v),
            forall|v: Seq<u64>| #[trigger] final(self).passes(v) == old(self).passes(v),
    {
        self.push_gate(Gate::ShiftLeft(a, n))
    }

    /// Adds a wire for a word shifted towards the least significant end.
    pub fn shr(&mut self, a: Wire, n: u32) -> (r: Wire)
        requires
            old(self).is_valid(),
            old(self).has(a),
            n < 64,
        ensures
            final(self).is_valid(),
            final(self).extends(old(self)),
            r.index == old(self).size(),
            final(self).size() == old(self).size() + 1,
            forall|v: Seq<u64>| #[trigger]
                final(self).follows(v) == (old(self).follows(v) && v.len() > r.index
                    && at(v, r) == at(v, a) >> n),
            forall|v: Seq<u64>| #[trigger] final(self).honest(v) == old(self).honest(v),
            forall|v: Seq<u64>| #[trigger] final(self).passes(v) == old(self).passes(v),
    {
        self.push_gate(Gate::ShiftRight(a, n))
    }

    /// Adds a wire for a word rotated towards the most significant end.
    pub fn rotl(&mut self, a: Wire, n: u32) -> (r: Wire)
        requires
            old(self).is_valid(),
            old(self).has(a),
            n < 64,
        ensures
            final(self).is_valid(),
            final(self).extends(old(self)),
            r.index == old(self).size(),
            final(self).size() == old(self).size() + 1,
            forall|v: Seq<u64>| #[trigger]
                final(self).follows(v) == (old(self).follows(v) && v.len() > r.index
                    && at(v, r) == rotated_word(at(v, a), n)),
            forall|v: Seq<u64>| #[trigger] final(self).honest(v) == old(self).honest(v),
            forall|v: Seq<u64>| #[trigger] final(self).passes(v) == old(self).passes(v),
    {
        self.push_gate(Gate::RotateLeft(a, n))
    }

    /// Adds a wire for a byte of a word.
    pub fn extract_byte(&mut self, a: Wire, n: u32) -> (r: Wire)
        requires
            old(self).is_valid(),
            old(self).has(a),
            n < 8,
        ensures
            final(self).is_valid(),
            final(self).extends(old(self)),
            r.index == old(self).size(),
            final(self).size() == old(self).size() + 1,
            forall|v: Seq<u64>| #[trigger]
                final(self).follows(v) == (old(self).follows(v) && v.len() > r.index
                    && at(v, r) == (at(v, a) >> ((8 * n) as u32)) & 0xff),
            forall|v: Seq<u64>| #[trigger] final(self).honest(v) == old(self).honest(v),
            forall|v: Seq<u64>| #[trigger] final(self).passes(v) == old(self).passes(v),
    {
        self.push_gate(Gate::Byte(a, n))
    }

    /// Adds a wire for the word at the place that the selector gives.
    pub fn multiplex(&mut self, inputs: &[Wire], selector: Wire) -> (r: Wire)
        requires
            old(self).is_valid(),
            old(self).has_all(inputs@),
            inputs@.len() > 0,
            old(self).has(selector),
        ensures
            final(self).is_valid(),
            final(self).extends(old(self)),
            r.index == old(self).size(),
            final(self).size() == old(self).size() + 1,
            forall|v: Seq<u64>| #[trigger]
                final(self).follows(v) ==> old(self).follows(v) && (at(v, selector) < inputs@.len()
                    ==> at(v, r) == at(v, inputs@[at(v, selector) as int])),
            forall|v: Seq<u64>| #[trigger] final(self).honest(v) == old(self).honest(v),
            forall|v: Seq<u64>| #[trigger] final(self).passes(v) == old(self).passes(v),
    {
        let copies = copy_wires(inputs);
        self.push_gate(Gate::Lookup(copies, selector))
    }

    /// Adds a wire for the exclusive or of words; without words it is zero.
    pub fn bxor_multi(&mut self, inputs: &[Wire]) -> (r: Wire)
        requires
            old(self).is_valid(),
            old(self).has_all(inputs@),
        ensures
            final(self).is_valid(),
            final(self).extends(old(self)),
            final(self).has(r),
            final(self).size() >= old(self).size(),
            forall|v: Seq<u64>| #[trigger]
                final(self).follows(v) ==> old(self).follows(v) && at(v, r) == xor_of(v, inputs@),
            forall|v: Seq<u64>| #[trigger] final(self).honest(v) == old(self).honest(v),
            forall|v: Seq<u64>| #[trigger] final(self).passes(v) == old(self).passes(v),
    {
        let ghost start = *self;
        let mut acc = self.add_constant_64(0);
        let mut k: usize = 0;
        assert(inputs@.take(0) =~= Seq::<Wire>::empty());
        while k < inputs.len()
            invariant
                k <= inputs@.len(),
                self.is_valid(),
                self.has(acc),
                self.extends(&start),
                start.has_all(inputs@),
                forall|v: Seq<u64>| #[trigger]
                    self.follows(v) ==> start.follows(v) && at(v, acc) == xor_of(
                        v,
                        inputs@.take(k as int),
                    ),
                forall|v: Seq<u64>| #[trigger] self.honest(v) == start.honest(v),
                forall|v: Seq<u64>| #[trigger] self.passes(v) == start.passes(v),
            decreases inputs@.len() - k,
        {
            assert(start.has(inputs@[k as int]));
            let next = self.bxor(acc, inputs[k]);
            assert(inputs@.take(k + 1).drop_last() =~= inputs@.take(k as int));
            acc = next;
            k = k + 1;
        }
        assert(inputs@.take(k as int) =~= inputs@);
        acc
    }

    /// Adds wires for the quotient and the remainder of a two-limb division, two limbs each, that
    /// the prover supplies.
    pub fn biguint_divide_hint(&mut self, dividend: [Wire; 2], divisor: [Wire; 2]) -> (r: (
        [Wire; 2],
        [Wire; 2],
    ))
        requires
            old(self).is_valid(),
            old(self).has(dividend[0]),
            old(self).has(dividend[1]),
            old(self).has(divisor[0]),
            old(self).has(divisor[1]),
        ensures
            final(self).is_valid(),
            final(self).extends(old(self)),
            final(self).size() == old(self).size() + 4,
            final(self).has(r.0[0]),
            final(self).has(r.0[1]),
            final(self).has(r.1[0]),
            final(self).has(r.1[1]),
            forall|v: Seq<u64>| #[trigger] final(self).follows(v) ==> old(self).follows(v),
            forall|v: Seq<u64>| #[trigger]
                final(self).honest(v) ==> old(self).honest(v) && is_division(
                    v,
                    dividend,
                    divisor,
                    r.0,
                    r.1,
                ),
            forall|v: Seq<u64>| #[trigger] final(self).passes(v) == old(self).passes(v),
    {
        let q0 = self.push_gate(
            Gate::DivideHint { dividend, divisor, remainder: false, limb: 0 },
        );
        let q1 = self.push_gate(
            Gate::DivideHint { dividend, divisor, remainder: false, limb: 1 },
        );
        let r0 = self.push_gate(Gate::DivideHint { dividend, divisor, remainder: true, limb: 0 });
        let r1 = self.push_gate(Gate::DivideHint { dividend, divisor, remainder: true, limb: 1 });
        ([q0, q1], [r0, r1])
    }

    /// Adds wires for the high part and the shifted low part of a residue that the prover supplies.
    pub fn decompose_hint(&mut self, a: Wire) -> (r: (Wire, Wire))
        requires
            old(self).is_valid(),
            old(self).has(a),
        ensures
            final(self).is_valid(),
            final(self).extends(old(self)),
            final(self).size() == old(self).size() + 2,
            final(self).has(r.0),
            final(self).has(r.1),
            final(self).gates@[r.0.index as int] == Gate::HighHint(a),
            final(self).gates@[r.1.index as int] == Gate::LowHint(a),
            forall|v: Seq<u64>| #[trigger] final(self).follows(v) ==> old(self).follows(v),
            forall|v: Seq<u64>| #[trigger]
                final(self).honest(v) ==> old(self).honest(v) && (at(v, a) < Q ==> at(v, r.0)
                    == high_part(at(v, a) as int) && at(v, r.1) == low_part(at(v, a) as int)
                    + 95_232),
            forall|v: Seq<u64>| #[trigger] final(self).passes(v) == old(self).passes(v),
    {
        let high = self.push_gate(Gate::HighHint(a));
        let low = self.push_gate(Gate::LowHint(a));
        (high, low)
    }

    /// Checks that a word is zero.
    pub fn assert_zero(&mut self, a: Wire)
        requires
            old(self).is_valid(),
            old(self).has(a),
        ensures
            final(self).is_valid(),
            final(self).extends(old(self)),
            final(self).size() == old(self).size(),
            forall|v: Seq<u64>| #[trigger] final(self).follows(v) == old(self).follows(v),
            forall|v: Seq<u64>| #[trigger] final(self).honest(v) == old(self).honest(v),
            forall|v: Seq<u64>| #[trigger]
                final(self).passes(v) == (old(self).passes(v) && at(v, a) == 0),
    {
        self.push_check(Check::Zero(a))
    }

    /// Checks that two words are equal.
    pub fn assert_eq(&mut self, a: Wire, b: Wire)
        requires
            old(self).is_valid(),
            old(self).has(a),
            old(self).has(b),
        ensures
            final(self).is_valid(),
            final(self).extends(old(self)),
            final(self).size() == old(self).size(),
            forall|v: Seq<u64>| #[trigger] final(self).follows(v) == old(self).follows(v),
            forall|v: Seq<u64>| #[trigger] final(self).honest(v) == old(self).honest(v),
            forall|v: Seq<u64>| #[trigger]
                final(self).passes(v) == (old(self).passes(v) && at(v, a) == at(v, b)),
    {
        self.push_check(Check::Equal(a, b))
    }

    /// Checks that a word is true.
    pub fn assert_true(&mut self, a: Wire)
        requires
            old(self).is_valid(),
            old(self).has(a),
        ensures
            final(self).is_valid(),
            final(self).extends(old(self)),
            final(self).size() == old(self).size(),
            forall|v: Seq<u64>| #[trigger] final(self).follows(v) == old(self).follows(v),
            forall|v: Seq<u64>| #[trigger] final(self).honest(v) == old(self).honest(v),
            forall|v: Seq<u64>| #[trigger]
                final(self).passes(v) == (old(self).passes(v) && is_true(at(v, a))),
    {
        self.push_check(Check::True(a))
    }

    /// Checks that a word is false.
    pub fn assert_false(&mut self, a: Wire)
        requires
            old(self).is_valid(),
            old(self).has(a),
        ensures
            final(self).is_valid(),
            final(self).extends(old(self)),
            final(self).size() == old(self).size(),
            forall|v: Seq<u64>| #[trigger] final(self).follows(v) == old(self).follows(v),
            forall|v: Seq<u64>| #[trigger] final(self).honest(v) == old(self).honest(v),
            forall|v: Seq<u64>| #[trigger]
                final(self).passes(v) == (old(self).passes(v) && !is_true(at(v, a))),
    {
        self.push_check(Check::False(a))
    }

    /// Checks that two words are equal where a third one is true.
    pub fn assert_eq_cond(&mut self, a: Wire, b: Wire, condition: Wire)
        requires
            old(self).is_valid(),
            old(self).has(a),
            old(self).has(b),
            old(self).has(condition),
        ensures
            final(self).is_valid(),
            final(self).extends(old(self)),
            final(self).size() == old(self).size(),
            forall|v: Seq<u64>| #[trigger] final(self).follows(v) == old(self).follows(v),
            forall|v: Seq<u64>| #[trigger] final(self).honest(v) == old(self).honest(v),
            forall|v: Seq<u64>| #[trigger]
                final(self).passes(v) == (old(self).passes(v)
                    && (is_true(at(v, condition)) ==> at(v, a) == at(v, b))),
    {
        self.push_check(Check::EqualIf(a, b, condition))
    }
}

/// The exclusive or of the values of wires.
pub open spec fn xor_of(v: Seq<u64>, wires: Seq<Wire>) -> u64
    decreases wires.len(),
{
    if wires.len() == 0 {
        0
    } else {
        xor_of(v, wires.drop_last()) ^ at(v, wires.last())
    }
}

/// Whether wires hold the quotient and the remainder of a two-limb division.
pub open spec fn is_division(
    v: Seq<u64>,
    dividend: [Wire; 2],
    divisor: [Wire; 2],
    quotient: [Wire; 2],
    remainder: [Wire; 2],
) -> bool {
    let (a, b) = (two_limbs(v, dividend), two_limbs(v, divisor));
    &&& at(v, quotient[0]) == division_limb(a, b, false, 0)
    &&& at(v, quotient[1]) == division_limb(a, b, false, 1)
    &&& at(v, remainder[0]) == division_limb(a, b, true, 0)
    &&& at(v, remainder[1]) == division_limb(a, b, true, 1)
}

/// The two limbs of a quotient and of a remainder make up the dividend again, and the remainder is
/// below the divisor.
pub proof fn law_division_makes_up_dividend(
    v: Seq<u64>,
    dividend: [Wire; 2],
    divisor: [Wire; 2],
    quotient: [Wire; 2],
    remainder: [Wire; 2],
    a: int,
    b: int,
    q: int,
    r: int,
)
    requires
        is_division(v, dividend, divisor, quotient, remainder),
        a == at(v, dividend[0]) + 0x1_0000_0000_0000_0000 * at(v, dividend[1]),
        b == at(v, divisor[0]) + 0x1_0000_0000_0000_0000 * at(v, divisor[1]),
        q == at(v, quotient[0]) + 0x1_0000_0000_0000_0000 * at(v, quotient[1]),
        r == at(v, remainder[0]) + 0x1_0000_0000_0000_0000 * at(v, remainder[1]),
    ensures
        b > 0 ==> a == q * b + r && 0 <= r < b,
        b == 0 ==> q == 0 && r == 0,
{
    if b > 0 {
        lemma_fundamental_div_mod(a, b);
        lemma_fundamental_div_mod(a / b, word_count());
        lemma_fundamental_div_mod(a % b, word_count());
        assert(b * (a / b) == (a / b) * b) by (nonlinear_arith);
    }
}

/// The exclusive or of no wires is zero, and one more wire changes the bits that it has set.
pub proof fn law_xor_of_one_more(v: Seq<u64>, wires: Seq<Wire>, w: Wire, i: int)
    requires
        0 <= i < 64,
    ensures
        xor_of(v, Seq::empty()) == 0,
        word_bit(xor_of(v, wires.push(w)), i) == (word_bit(xor_of(v, wires), i) != word_bit(
            at(v, w),
            i,
        )),
{
    assert(wires.push(w).drop_last() =~= wires);
    lemma_word_bits(xor_of(v, wires), at(v, w), i);
}

/// A rotation moves each bit towards the most significant end, from there on to the other end.
pub proof fn law_rotation_moves_bits(word: u64, n: u32, i: int)
    requires
        0 <= i < 64,
        n < 64,
    ensures
        word_bit(rotated_word(word, n), (i + n) % 64) == word_bit(word, i),
{
    lemma_rotated_bit(word, n, (i + n) % 64);
    assert(((i + n) % 64 + 64 - n % 64) % 64 == i);
}

/// Returns a copy of a list of wires.
pub fn copy_wires(wires: &[Wire]) -> (r: Vec<Wire>)
    ensures
        r@ == wires@,
{
    let mut out: Vec<Wire> = Vec::with_capacity(wires.len());
    let mut i: usize = 0;
    while i < wires.len()
        invariant
            i <= wires@.len(),
            out@ == wires@.take(i as int),
        decreases wires@.len() - i,
    {
        out.push(wires[i]);
        i = i + 1;
    }
    assert(wires@.take(i as int) =~= wires@);
    out
}

/// The value that the high word of a product takes is a word.
pub proof fn lemma_product_words(a: u64, b: u64)
    ensures
        0 <= a * b < word_count() * word_count(),
        0 <= (a * b) / word_count() < word_count(),
        0 <= (a * b) % word_count() < word_count(),
{
    assert(0 <= a * b <= 0xffff_ffff_ffff_ffff * 0xffff_ffff_ffff_ffff) by (nonlinear_arith)
        requires
            0 <= a <= 0xffff_ffff_ffff_ffff,
            0 <= b <= 0xffff_ffff_ffff_ffff,
    ;
}

/// Whether a gate is computed right depends on its place and the earlier ones alone.
pub proof fn lemma_gate_is_local(gate: Gate, v: Seq<u64>, w: Seq<u64>, i: int)
    requires
        gate_is_valid(gate, i),
        0 <= i,
        forall|k: int| 0 <= k <= i ==> v[k] == w[k],
    ensures
        gate_holds(gate, v, i) == gate_holds(gate, w, i),
        hint_holds(gate, v, i) == hint_holds(gate, w, i),
{
}

/// Returns a truth value as a word.
fn truth_word(b: bool) -> (r: u64)
    ensures
        is_true(r) == b,
{
    if b {
        0x8000_0000_0000_0000
    } else {
        0
    }
}

/// Returns the number with two limbs.
fn wide(low: u64, high: u64) -> (r: u128)
    ensures
        r == low + word_count() * high,
{
    (low as u128) + (high as u128) * 0x1_0000_0000_0000_0000
}

/// Returns a limb of a quotient or remainder.
fn divide_limb(dividend: u128, divisor: u128, remainder: bool, limb: usize) -> (r: u64)
    ensures
        r == division_limb(dividend as int, divisor as int, remainder, limb as int),
{
    let value: u128 = if divisor == 0 {
        0
    } else if remainder {
        dividend % divisor
    } else {
        dividend / divisor
    };
    if limb == 0 {
        (value % 0x1_0000_0000_0000_0000) as u64
    } else {
        (value / 0x1_0000_0000_0000_0000) as u64
    }
}

impl Gate {
    /// Computes the value of a gate at place `i`; a witness keeps its value.
    fn compute(&self, values: &[u64], i: usize) -> (r: u64)
        requires
            gate_is_valid(*self, i as int),
            i < values@.len(),
        ensures
            gate_holds(*self, values@.update(i as int, r), i as int),
            hint_holds(*self, values@.update(i as int, r), i as int),
            *self is Witness ==> r == values@[i as int],
    {
        match self {
            Gate::Witness => values[i],
            Gate::Constant(c) => *c,
            Gate::DivideHint { dividend, divisor, remainder, limb } => {
                let a: u128 = wide(values[dividend[0].index], values[dividend[1].index]);
                let b: u128 = wide(values[divisor[0].index], values[divisor[1].index]);
                divide_limb(a, b, *remainder, *limb)
            },
            Gate::HighHint(a) => {
                let r: u64 = values[a.index];
                if r < 8_380_417 {
                    let (high, _low) = DecomposeMode2Hint.execute(r);
                    high
                } else {
                    0
                }
            },
            Gate::LowHint(a) => {
                let r: u64 = values[a.index];
                if r < 8_380_417 {
                    let (_high, low) = DecomposeMode2Hint.execute(r);
                    low
                } else {
                    0
                }
            },
            Gate::Add(a, b) => {
                let sum: u128 = values[a.index] as u128 + values[b.index] as u128;
                (sum % 0x1_0000_0000_0000_0000) as u64
            },
            Gate::Carry(a, b) => {
                let sum: u128 = values[a.index] as u128 + values[b.index] as u128;
                truth_word(sum >= 0x1_0000_0000_0000_0000)
            },
            Gate::Sub(a, b) => {
                let x: u64 = values[a.index];
                let y: u64 = values[b.index];
                if x >= y {
                    x - y
                } else {
                    assert((x - y) % word_count() == x - y + word_count());
                    ((x as u128 + 0x1_0000_0000_0000_0000) - y as u128) as u64
                }
            },
            Gate::MulHigh(a, b) => {
                proof {
                    lemma_product_words(values@[a.index as int], values@[b.index as int]);
                }
                let product: u128 = values[a.index] as u128 * values[b.index] as u128;
                (product / 0x1_0000_0000_0000_0000) as u64
            },
            Gate::MulLow(a, b) => {
                proof {
                    lemma_product_words(values@[a.index as int], values@[b.index as int]);
                }
                let product: u128 = values[a.index] as u128 * values[b.index] as u128;
                (product % 0x1_0000_0000_0000_0000) as u64
            },
            Gate::LessThan(a, b) => truth_word(values[a.index] < values[b.index]),
            Gate::LessEqual(a, b) => truth_word(values[a.index] <= values[b.index]),
            Gate::Select(c, a, b) => if values[c.index] >= 0x8000_0000_0000_0000 {
                values[a.index]
            } else {
                values[b.index]
            },
            Gate::And(a, b) => values[a.index] & values[b.index],
            Gate::Xor(a, b) => values[a.index] ^ values[b.index],
            Gate::Not(a) => !values[a.index],
            Gate::ShiftLeft(a, n) => values[a.index] << *n,
            Gate::ShiftRight(a, n) => values[a.index] >> *n,
            Gate::RotateLeft(a, n) => rotate_left(values[a.index], *n),
            Gate::Byte(a, n) => (values[a.index] >> (8 * *n)) & 0xff,
            Gate::Lookup(inputs, selector) => {
                let place: u64 = values[selector.index];
                if place < inputs.len() as u64 {
                    values[inputs[place as usize].index]
                } else {
                    0
                }
            },
        }
    }

    /// Decides whether place `i` holds what this gate computes.
    fn is_computed(&self, values: &[u64], i: usize) -> (r: bool)
        requires
            gate_is_valid(*self, i as int),
            i < values@.len(),
        ensures
            r == gate_holds(*self, values@, i as int),
    {
        match self {
            Gate::Witness => true,
            Gate::DivideHint { .. } => true,
            Gate::HighHint(_) => true,
            Gate::LowHint(_) => true,
            Gate::Carry(a, b) => {
                let sum: u128 = values[a.index] as u128 + values[b.index] as u128;
                (values[i] >= 0x8000_0000_0000_0000) == (sum >= 0x1_0000_0000_0000_0000)
            },
            Gate::LessThan(a, b) => (values[i] >= 0x8000_0000_0000_0000) == (values[a.index]
                < values[b.index]),
            Gate::LessEqual(a, b) => (values[i] >= 0x8000_0000_0000_0000) == (values[a.index]
                <= values[b.index]),
            Gate::Lookup(inputs, selector) => {
                let place: u64 = values[selector.index];
                if place < inputs.len() as u64 {
                    values[i] == values[inputs[place as usize].index]
                } else {
                    true
                }
            },
            _ => {
                let expected: u64 = self.compute(values, i);
                proof {
                    let updated = values@.update(i as int, expected);
                    if values@[i as int] == expected {
                        assert(updated =~= values@);
                    }
                }
                values[i] == expected
            },
        }
    }
}

impl Check {
    /// Decides whether the check holds.
    fn holds(&self, values: &[u64]) -> (r: bool)
        requires
            check_is_valid(*self, values@.len() as int),
        ensures
            r == check_holds(*self, values@),
    {
        match self {
            Check::Zero(a) => values[a.index] == 0,
            Check::Equal(a, b) => values[a.index] == values[b.index],
            Check::True(a) => values[a.index] >= 0x8000_0000_0000_0000,
            Check::False(a) => values[a.index] < 0x8000_0000_0000_0000,
            Check::EqualIf(a, b, c) => values[c.index] < 0x8000_0000_0000_0000 || values[a.index]
                == values[b.index],
        }
    }
}

impl CircuitBuilder {
    /// Returns the number of wires.
    pub fn len(&self) -> (r: usize)
        ensures
            r == self.size(),
    {
        self.gates.len()
    }

    /// Computes the value of every wire from those of the witness wires.
    pub fn populate_wire_witness(&self, values: &mut Vec<u64>)
        requires
            self.is_valid(),
            old(values)@.len() == self.size(),
        ensures
            final(values)@.len() == self.size(),
            forall|i: int|
                0 <= i < self.size() && self.gates@[i] is Witness ==> #[trigger] final(values)@[i]
                    == old(values)@[i],
            self.follows(final(values)@),
            self.honest(final(values)@),
    {
        let n: usize = self.gates.len();
        let ghost start = values@;
        let mut i: usize = 0;
        while i < n
            invariant
                i <= n,
                n == self.size(),
                self.is_valid(),
                start.len() == n,
                values@.len() == n,
                forall|k: int| i <= k < n ==> values@[k] == start[k],
                forall|k: int|
                    0 <= k < i && self.gates@[k] is Witness ==> #[trigger] values@[k] == start[k],
                forall|k: int|
                    0 <= k < i ==> gate_holds(#[trigger] self.gates@[k], values@, k) && hint_holds(
                        self.gates@[k],
                        values@,
                        k,
                    ),
            decreases n - i,
        {
            assert(gate_is_valid(self.gates@[i as int], i as int));
            let ghost before = values@;
            let value: u64 = self.gates[i].compute(values.as_slice(), i);
            values.set(i, value);
            proof {
                assert(values@ =~= before.update(i as int, value));
                assert forall|k: int| 0 <= k < i + 1 implies gate_holds(
                    #[trigger] self.gates@[k],
                    values@,
                    k,
                ) && hint_holds(self.gates@[k], values@, k) by {
                    if k < i {
                        assert(gate_is_valid(self.gates@[k], k));
                        lemma_gate_is_local(self.gates@[k], before, values@, k);
                    }
                }
            }
            i = i + 1;
        }
    }

    /// Decides whether an assignment is accepted.
    pub fn verify_constraints(&self, values: &[u64]) -> (r: bool)
        requires
            self.is_valid(),
        ensures
            r == self.accepts(values@),
    {
        let n: usize = self.gates.len();
        if values.len() < n {
            return false;
        }
        let mut i: usize = 0;
        while i < n
            invariant
                i <= n,
                n == self.size(),
                self.is_valid(),
                values@.len() >= n,
                forall|k: int| 0 <= k < i ==> gate_holds(#[trigger] self.gates@[k], values@, k),
            decreases n - i,
        {
            assert(gate_is_valid(self.gates@[i as int], i as int));
            if !self.gates[i].is_computed(values, i) {
                assert(!gate_holds(self.gates@[i as int], values@, i as int));
                return false;
            }
            i = i + 1;
        }
        let m: usize = self.checks.len();
        let mut j: usize = 0;
        while j < m
            invariant
                j <= m,
                m == self.checks@.len(),
                self.is_valid(),
                values@.len() >= self.size(),
                forall|k: int| 0 <= k < j ==> check_holds(#[trigger] self.checks@[k], values@),
            decreases m - j,
        {
            assert(check_is_valid(self.checks@[j as int], self.size() as int));
            if !self.checks[j].holds(values) {
                assert(!check_holds(self.checks@[j as int], values@));
                return false;
            }
            j = j + 1;
        }
        true
    }
}

} // verus!
