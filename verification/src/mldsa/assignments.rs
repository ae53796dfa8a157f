//! Assignments of circuits: the values of the free wires can be chosen at will, and the others follow.

use vstd::prelude::*;

use super::circuit::{
    at, division_limb, gate_holds, gate_is_valid, hint_holds, lemma_gate_is_local,
    lemma_product_words, rotated_word, is_true, two_limbs, word_count, CircuitBuilder, Gate, Wire,
};
use super::params::Q;
use super::rounding::{high_part, law_decomposition, low_part};

verus! {

/// A word with a truth value.
spec fn truth(b: bool) -> u64 {
    if b {
        0x8000_0000_0000_0000
    } else {
        0
    }
}

/// A value that a gate can have, given those of the earlier ones; a witness keeps its value.
spec fn gate_value(gate: Gate, v: Seq<u64>, i: int) -> u64 {
    match gate {
        Gate::Witness => v[i],
        Gate::Constant(c) => c,
        Gate::DivideHint { dividend, divisor, remainder, limb } => division_limb(
            two_limbs(v, dividend),
            two_limbs(v, divisor),
            remainder,
            limb as int,
        ) as u64,
        Gate::HighHint(a) => high_part(at(v, a) as int) as u64,
        Gate::LowHint(a) => (low_part(at(v, a) as int) + 95_232) as u64,
        Gate::Add(a, b) => ((at(v, a) + at(v, b)) % word_count()) as u64,
        Gate::Carry(a, b) => truth(at(v, a) + at(v, b) >= word_count()),
        Gate::Sub(a, b) => ((at(v, a) - at(v, b)) % word_count()) as u64,
        Gate::MulHigh(a, b) => ((at(v, a) * at(v, b)) / word_count()) as u64,
        Gate::MulLow(a, b) => ((at(v, a) * at(v, b)) % word_count()) as u64,
        Gate::LessThan(a, b) => truth(at(v, a) < at(v, b)),
        Gate::LessEqual(a, b) => truth(at(v, a) <= at(v, b)),
        Gate::Select(c, a, b) => if is_true(at(v, c)) {
            at(v, a)
        } else {
            at(v, b)
        },
        Gate::And(a, b) => at(v, a) & at(v, b),
        Gate::Xor(a, b) => at(v, a) ^ at(v, b),
        Gate::Not(a) => !at(v, a),
        Gate::ShiftLeft(a, n) => at(v, a) << n,
        Gate::ShiftRight(a, n) => at(v, a) >> n,
        Gate::RotateLeft(a, n) => rotated_word(at(v, a), n),
        Gate::Byte(a, n) => (at(v, a) >> ((8 * n) as u32)) & 0xff,
        Gate::Lookup(inputs, selector) => if at(v, selector) < inputs@.len() {
            at(v, inputs@[at(v, selector) as int])
        } else {
            0
        },
    }
}

/// A limb of a quotient or remainder is a word.
proof fn lemma_limb_is_word(a: int, b: int, remainder: bool, limb: int)
    requires
        0 <= a < word_count() * word_count(),
        0 <= b < word_count() * word_count(),
    ensures
        0 <= division_limb(a, b, remainder, limb) < word_count(),
{
    if b > 0 {
        vstd::arithmetic::div_mod::lemma_div_is_ordered_by_denominator(a, 1, b);
        vstd::arithmetic::div_mod::lemma_div_pos_is_pos(a, b);
        vstd::arithmetic::div_mod::lemma_mod_bound(a, b);
    }
}

/// Two limbs make a number below the square of the number of words.
proof fn lemma_limbs_bound(v: Seq<u64>, limbs: [Wire; 2])
    ensures
        0 <= two_limbs(v, limbs) < word_count() * word_count(),
{
}

/// A place that has the value of its gate holds what that gate computes.
proof fn lemma_gate_value(gate: Gate, v: Seq<u64>, i: int)
    requires
        gate_is_valid(gate, i),
        0 <= i < v.len(),
    ensures
        gate_holds(gate, v.update(i, gate_value(gate, v, i)), i),
        hint_holds(gate, v.update(i, gate_value(gate, v, i)), i),
{
    match gate {
        Gate::DivideHint { dividend, divisor, remainder, limb } => {
            lemma_limbs_bound(v, dividend);
            lemma_limbs_bound(v, divisor);
            lemma_limb_is_word(
                two_limbs(v, dividend),
                two_limbs(v, divisor),
                remainder,
                limb as int,
            );
        },
        Gate::HighHint(a) => {
            if at(v, a) < Q {
                law_decomposition(at(v, a) as int);
            }
        },
        Gate::LowHint(a) => {
            if at(v, a) < Q {
                law_decomposition(at(v, a) as int);
            }
        },
        Gate::MulHigh(a, b) => {
            lemma_product_words(at(v, a), at(v, b));
        },
        Gate::MulLow(a, b) => {
            lemma_product_words(at(v, a), at(v, b));
        },
        _ => {},
    }
}

/// The first `n` gates can be computed.
proof fn lemma_first_gates(b: CircuitBuilder, start: Seq<u64>, n: nat) -> (v: Seq<u64>)
    requires
        b.is_valid(),
        start.len() == b.size(),
        n <= b.size(),
    ensures
        v.len() == b.size(),
        forall|i: int| n <= i < b.size() ==> v[i] == start[i],
        forall|i: int| 0 <= i < n && b.gates@[i] is Witness ==> #[trigger] v[i] == start[i],
        forall|i: int|
            0 <= i < n ==> gate_holds(#[trigger] b.gates@[i], v, i) && hint_holds(b.gates@[i], v, i),
    decreases n,
{
    if n == 0 {
        start
    } else {
        let k = n - 1;
        let before = lemma_first_gates(b, start, k as nat);
        let gate = b.gates@[k];
        assert(gate_is_valid(gate, k));
        let v = before.update(k, gate_value(gate, before, k));
        lemma_gate_value(gate, before, k);
        assert forall|i: int| 0 <= i < n implies gate_holds(#[trigger] b.gates@[i], v, i)
            && hint_holds(b.gates@[i], v, i) by {
            if i < k {
                assert(gate_is_valid(b.gates@[i], i));
                lemma_gate_is_local(b.gates@[i], before, v, i);
            }
        }
        v
    }
}

/// Whatever values the witness wires of a circuit are given, there is an assignment that holds
/// them, follows the circuit and is honest.
pub proof fn law_assignment_exists(b: CircuitBuilder, start: Seq<u64>) -> (v: Seq<u64>)
    requires
        b.is_valid(),
        start.len() == b.size(),
    ensures
        v.len() == b.size(),
        b.follows(v),
        b.honest(v),
        forall|w: Wire| b.is_free(w) ==> #[trigger] at(v, w) == at(start, w),
{
    let v = lemma_first_gates(b, start, b.size());
    assert forall|w: Wire| b.is_free(w) implies #[trigger] at(v, w) == at(start, w) by {
        assert(v[w.index as int] == start[w.index as int]);
    }
    v
}

/// Whether no two wires are the same.
pub open spec fn differ(wires: Seq<Wire>) -> bool {
    forall|a: int, b: int|
        0 <= a < b < wires.len() ==> (#[trigger] wires[a]).index != (#[trigger] wires[b]).index
}

/// Wires of which no two are the same can be given any values.
pub proof fn law_values_can_be_placed(n: nat, wires: Seq<Wire>, values: Seq<u64>) -> (v: Seq<u64>)
    requires
        differ(wires),
        values.len() == wires.len(),
        forall|k: int| 0 <= k < wires.len() ==> (#[trigger] wires[k]).index < n,
    ensures
        v.len() == n,
        forall|k: int| 0 <= k < wires.len() ==> at(v, #[trigger] wires[k]) == values[k],
    decreases wires.len(),
{
    if wires.len() == 0 {
        Seq::new(n, |i: int| 0u64)
    } else {
        let m = wires.len() - 1;
        let (fewer, rest) = (wires.drop_last(), values.drop_last());
        assert forall|a: int, b: int| 0 <= a < b < fewer.len() implies (#[trigger] fewer[a]).index
            != (#[trigger] fewer[b]).index by {
            assert(wires[a].index != wires[b].index);
        }
        assert forall|k: int| 0 <= k < fewer.len() implies (#[trigger] fewer[k]).index < n by {
            assert(wires[k].index < n);
        }
        let before = law_values_can_be_placed(n, fewer, rest);
        assert(wires[m].index < n);
        let v = before.update(wires[m].index as int, values[m]);
        assert forall|k: int| 0 <= k < wires.len() implies at(v, #[trigger] wires[k])
            == values[k] by {
            if k < m {
                assert(wires[k].index != wires[m].index);
                assert(at(before, fewer[k]) == rest[k]);
            }
        }
        v
    }
}

} // verus!
