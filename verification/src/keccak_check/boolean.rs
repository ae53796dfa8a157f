//! On bits, the field-valued Keccak steps are the steps on words.

use vstd::prelude::*;

use super::blocks::{
    chi_image, composed, linear_image, mixed_lanes, state_scalars, view_value, lane_values,
};
use super::recipe::{lane_terms, lemma_lane_terms, term_values, RotView};
use super::rotation::{lemma_rotated_bit, word_scalars};
use super::trace::{
    bit_scalar, chi, chi_iota, chi_next, column, pi_source, pre_chi_of, rotated_left, theta,
    theta_effect, R, RC,
};
use crate::field::{lemma_one_times, lemma_times_zero, lemma_zero_plus, BinaryField, Field};
use crate::multilinear::{dot, lemma_dot_plus, pointwise_plus, pointwise_times, sum};
use crate::words::lemma_word_bits;

verus! {

/// The exclusive or of words adds their bits.
pub proof fn lemma_bit_scalar_xor<F: BinaryField>(a: u64, b: u64, i: int)
    requires
        0 <= i < 64,
    ensures
        bit_scalar::<F>(a ^ b, i) == bit_scalar::<F>(a, i).plus(bit_scalar::<F>(b, i)),
{
    lemma_word_bits(a, b, i);
    F::law_characteristic_two(F::one_spec());
    F::law_plus_zero(F::zero_spec());
    F::law_plus_zero(F::one_spec());
    lemma_zero_plus(F::one_spec());
}

/// The conjunction of words multiplies their bits.
pub proof fn lemma_bit_scalar_and<F: Field>(a: u64, b: u64, i: int)
    requires
        0 <= i < 64,
    ensures
        bit_scalar::<F>(a & b, i) == bit_scalar::<F>(a, i).times(bit_scalar::<F>(b, i)),
{
    lemma_word_bits(a, b, i);
    lemma_one_times(bit_scalar::<F>(b, i));
    lemma_times_zero(bit_scalar::<F>(b, i));
}

/// The exclusive or of a sequence of words.
pub open spec fn xor_all(words: Seq<u64>) -> u64
    decreases words.len(),
{
    if words.len() == 0 {
        0
    } else {
        xor_all(words.drop_last()) ^ words.last()
    }
}

/// Bit `i` of each word.
pub open spec fn bits_at<F: Field>(words: Seq<u64>, i: int) -> Seq<F> {
    Seq::new(words.len(), |k: int| bit_scalar(words[k], i))
}

/// Adding up bit `i` of words gives bit `i` of their exclusive or.
pub proof fn lemma_bits_of_xor_all<F: BinaryField>(words: Seq<u64>, i: int)
    requires
        0 <= i < 64,
    ensures
        sum(bits_at::<F>(words, i)) == bit_scalar::<F>(xor_all(words), i),
    decreases words.len(),
{
    if words.len() == 0 {
        lemma_word_bits(0, 0, i);
    } else {
        lemma_bits_of_xor_all::<F>(words.drop_last(), i);
        assert(bits_at::<F>(words, i).drop_last() =~= bits_at::<F>(words.drop_last(), i));
        lemma_bit_scalar_xor::<F>(xor_all(words.drop_last()), words.last(), i);
    }
}

/// Rotation goes through the exclusive or.
pub proof fn lemma_rotated_xor(a: u64, b: u64, k: u32)
    ensures
        rotated_left(a ^ b, k) == rotated_left(a, k) ^ rotated_left(b, k),
{
    let s = (k % 64) as u64;
    if s != 0 {
        let t = (64 - s) as u64;
        assert(((a ^ b) << s) | ((a ^ b) >> t) == ((a << s) | (a >> t)) ^ ((b << s) | (b >> t)))
            by (bit_vector)
            requires
                0 < s < 64,
                t == 64 - s,
        ;
    }
}

proof fn lemma_rotated_twice(a: u64, k: u32)
    requires
        k < 64,
    ensures
        rotated_left(rotated_left(a, 1), k) == rotated_left(a, ((k + 1) % 64) as u32),
{
    let s = k as u64;
    assert(a << 1u64 | a >> 63u64 == rotated_left(a, 1));
    if k == 63 {
        assert((((a << 1u64) | (a >> 63u64)) << 63u64) | (((a << 1u64) | (a >> 63u64)) >> 1u64) == a)
            by (bit_vector);
    } else if k > 0 {
        assert((((a << 1u64) | (a >> 63u64)) << s) | (((a << 1u64) | (a >> 63u64)) >> ((64 - s)
            as u64)) == (a << ((s + 1) as u64)) | (a >> ((63 - s) as u64))) by (bit_vector)
            requires
                0 < s < 63,
        ;
    }
}

/// The rotated words that the terms of an output lane stand for.
spec fn term_words(s: Seq<u64>, lane: int) -> Seq<u64> {
    Seq::new(
        11,
        |k: int|
            rotated_left(s[lane_terms(lane)[k].lane as int], lane_terms(lane)[k].rot),
    )
}

proof fn lemma_xor_regroup(
    a: u64,
    p0: u64,
    p1: u64,
    p2: u64,
    p3: u64,
    p4: u64,
    q0: u64,
    q1: u64,
    q2: u64,
    q3: u64,
    q4: u64,
)
    by (bit_vector)
    ensures
        0u64 ^ a ^ p0 ^ q0 ^ p1 ^ q1 ^ p2 ^ q2 ^ p3 ^ q3 ^ p4 ^ q4 == a ^ ((p0 ^ p1 ^ p2 ^ p3 ^ p4)
            ^ (q0 ^ q1 ^ q2 ^ q3 ^ q4)),
{
}

/// The exclusive or of the rotated views of an output lane is that lane after theta, rho and pi.
proof fn lemma_terms_make_pre_chi(s: Seq<u64>, lane: int)
    requires
        s.len() == 25,
        0 <= lane < 25,
    ensures
        xor_all(term_words(s, lane)) == pre_chi_of(s)[lane],
{
    let w = term_words(s, lane);
    let source = pi_source(lane);
    let x = source % 5;
    assert(0 <= source < 25 && source % 5 == (lane % 5 + 3 * (lane / 5)) % 5);
    let r = (R[source] % 64) as u32;
    let (l, m) = ((x + 4) % 5, (x + 1) % 5);
    assert(theta(s)[source] == s[source] ^ theta_effect(s, x));
    assert(pre_chi_of(s)[lane] == rotated_left(theta(s)[source], R[source]));
    assert(rotated_left(theta(s)[source], R[source]) == rotated_left(theta(s)[source], r));
    // rotate the sum part by part
    let c = column(s, l);
    let d = column(s, m);
    lemma_rotated_xor(s[source], c ^ rotated_left(d, 1), r);
    lemma_rotated_xor(c, rotated_left(d, 1), r);
    lemma_rotated_twice(d, r);
    let r1 = ((r + 1) % 64) as u32;
    lemma_rotated_column(s, l, r);
    lemma_rotated_column(s, m, r1);
    // the terms in their order
    assert(w[0] == rotated_left(s[source], r));
    assert(w[1] == rotated_left(s[l], r));
    assert(w[3] == rotated_left(s[l + 5], r));
    assert(w[5] == rotated_left(s[l + 10], r));
    assert(w[7] == rotated_left(s[l + 15], r));
    assert(w[9] == rotated_left(s[l + 20], r));
    assert(w[2] == rotated_left(s[m], r1));
    assert(w[4] == rotated_left(s[m + 5], r1));
    assert(w[6] == rotated_left(s[m + 10], r1));
    assert(w[8] == rotated_left(s[m + 15], r1));
    assert(w[10] == rotated_left(s[m + 20], r1));
    lemma_xor_all_of_eleven(w);
    lemma_xor_regroup(w[0], w[1], w[3], w[5], w[7], w[9], w[2], w[4], w[6], w[8], w[10]);
}

proof fn lemma_rotated_column(s: Seq<u64>, x: int, r: u32)
    requires
        s.len() == 25,
        0 <= x < 5,
    ensures
        rotated_left(column(s, x), r) == rotated_left(s[x], r) ^ rotated_left(s[x + 5], r)
            ^ rotated_left(s[x + 10], r) ^ rotated_left(s[x + 15], r) ^ rotated_left(s[x + 20], r),
{
    let (a, b, c, d, e) = (s[x], s[x + 5], s[x + 10], s[x + 15], s[x + 20]);
    lemma_rotated_xor(a ^ b ^ c ^ d, e, r);
    lemma_rotated_xor(a ^ b ^ c, d, r);
    lemma_rotated_xor(a ^ b, c, r);
    lemma_rotated_xor(a, b, r);
}

proof fn lemma_xor_all_take(w: Seq<u64>, k: int)
    requires
        0 <= k < w.len(),
    ensures
        xor_all(w.take(k + 1)) == xor_all(w.take(k)) ^ w[k],
{
    assert(w.take(k + 1).drop_last() =~= w.take(k));
}

proof fn lemma_xor_all_of_eleven(w: Seq<u64>)
    requires
        w.len() == 11,
    ensures
        xor_all(w) == 0u64 ^ w[0] ^ w[1] ^ w[2] ^ w[3] ^ w[4] ^ w[5] ^ w[6] ^ w[7] ^ w[8] ^ w[9]
            ^ w[10],
{
    assert(w.take(0) =~= Seq::<u64>::empty());
    assert(w.take(11) =~= w);
    lemma_xor_all_take(w, 0);
    lemma_xor_all_take(w, 1);
    lemma_xor_all_take(w, 2);
    lemma_xor_all_take(w, 3);
    lemma_xor_all_take(w, 4);
    lemma_xor_all_take(w, 5);
    lemma_xor_all_take(w, 6);
    lemma_xor_all_take(w, 7);
    lemma_xor_all_take(w, 8);
    lemma_xor_all_take(w, 9);
    lemma_xor_all_take(w, 10);
}

/// Adding up bit `b` of rotated views of words gives bit `b` of their exclusive or.
proof fn lemma_bits_of_views<F: BinaryField>(
    s: Seq<u64>,
    terms: Seq<RotView>,
    words: Seq<u64>,
    b: int,
)
    requires
        s.len() == 25,
        words.len() == terms.len(),
        forall|k: int|
            0 <= k < terms.len() ==> (#[trigger] terms[k]).lane < 25 && terms[k].rot < 64,
        forall|k: int|
            0 <= k < terms.len() ==> #[trigger] words[k] == rotated_left(
                s[terms[k].lane as int],
                terms[k].rot,
            ),
        0 <= b < 64,
    ensures
        sum(term_values(terms, view_value(state_scalars::<F>(s), b))) == bit_scalar::<F>(
            xor_all(words),
            b,
        ),
{
    let values = term_values(terms, view_value(state_scalars::<F>(s), b));
    assert forall|k: int| 0 <= k < terms.len() implies values[k] == bits_at::<F>(words, b)[k] by {
        let view = terms[k];
        assert(view.lane < 25 && view.rot < 64);
        assert(words[k] == rotated_left(s[view.lane as int], view.rot));
        lemma_rotated_bit(s[view.lane as int], view.rot, b);
    }
    assert(values =~= bits_at::<F>(words, b));
    lemma_bits_of_xor_all::<F>(words, b);
}

/// On the bits of a state, the linear image holds the bits of the state before chi.
pub proof fn law_linear_image_of_bits<F: BinaryField>(s: Seq<u64>)
    requires
        s.len() == 25,
    ensures
        linear_image(state_scalars::<F>(s)) == state_scalars::<F>(pre_chi_of(s)),
{
    let left = linear_image(state_scalars::<F>(s));
    let right = state_scalars::<F>(pre_chi_of(s));
    assert forall|lane: int| 0 <= lane < 25 implies left[lane] == right[lane] by {
        lemma_lane_terms(lane);
        lemma_terms_make_pre_chi(s, lane);
        let terms = lane_terms(lane);
        let words = term_words(s, lane);
        assert forall|b: int| 0 <= b < 64 implies left[lane][b] == right[lane][b] by {
            lemma_bits_of_views::<F>(s, terms, words, b);
        }
        assert(left[lane] =~= right[lane]);
    }
    assert(left =~= right);
}

/// On the bits of a state, the field-valued chi step holds the bits of the state after chi.
pub proof fn law_chi_image_of_bits<F: BinaryField>(s: Seq<u64>)
    requires
        s.len() == 25,
    ensures
        chi_image(state_scalars::<F>(s)) == state_scalars::<F>(chi(s)),
{
    let v = state_scalars::<F>(s);
    let left = chi_image(v);
    let right = state_scalars::<F>(chi(s));
    let (zero, one) = (F::zero_spec(), F::one_spec());
    assert forall|lane: int| 0 <= lane < 25 implies left[lane] == right[lane] by {
        assert forall|i: int| 0 <= i < 64 implies left[lane][i] == right[lane][i] by {
            let (b, c) = (s[chi_next(lane, 1)], s[chi_next(lane, 2)]);
            lemma_bit_scalar_xor::<F>(s[lane], !b & c, i);
            lemma_word_bits(!b, c, i);
            lemma_word_bits(b, b, i);
            let (x, y, z) = (
                bit_scalar::<F>(s[lane], i),
                bit_scalar::<F>(b, i),
                bit_scalar::<F>(c, i),
            );
            F::law_plus_associates(x, z, y.times(z));
            lemma_times_zero(z);
            lemma_times_zero(y);
            lemma_one_times(z);
            F::law_characteristic_two(z);
            F::law_plus_zero(z);
            F::law_plus_zero(zero);
        }
        assert(left[lane] =~= right[lane]);
    }
    assert(left =~= right);
}

/// On the bits of a state, the composed value is the weighted value of the state after chi and
/// iota.
pub proof fn law_composed_of_bits<F: BinaryField>(
    s: Seq<u64>,
    lane_weights: Seq<F>,
    round: int,
    bit_weights: Seq<F>,
)
    requires
        s.len() == 25,
        0 <= round < 24,
        lane_weights.len() == 25,
        bit_weights.len() == 64,
    ensures
        composed(state_scalars::<F>(s), lane_weights, round, bit_weights) == mixed_lanes(
            state_scalars::<F>(chi_iota(s, round)),
            lane_weights,
            bit_weights,
        ),
{
    law_chi_image_of_bits::<F>(s);
    let before = state_scalars::<F>(chi(s));
    let after = state_scalars::<F>(chi_iota(s, round));
    let constant = word_scalars::<F>(RC[round]);
    let k = dot(constant, bit_weights);
    // only lane zero changes, and it changes by the round constant
    assert(after[0] =~= pointwise_plus(before[0], constant)) by {
        assert forall|i: int| 0 <= i < 64 implies after[0][i] == before[0][i].plus(constant[i]) by {
            lemma_bit_scalar_xor::<F>(chi(s)[0], RC[round], i);
        }
    }
    lemma_dot_plus(before[0], constant, bit_weights);
    let (p, q) = (lane_values(before, bit_weights), lane_values(after, bit_weights));
    assert forall|lane: int| 1 <= lane < 25 implies q[lane] == p[lane] by {
        assert(after[lane] =~= before[lane]);
    }
    let w = lane_weights;
    F::law_distributes(w[0], p[0], k);
    lemma_first_term(pointwise_times(w, p), pointwise_times(w, q), w[0].times(k));
}

/// Adding to the first term adds to the sum.
proof fn lemma_first_term<F: Field>(a: Seq<F>, b: Seq<F>, k: F)
    requires
        a.len() == b.len(),
        a.len() > 0,
        b[0] == a[0].plus(k),
        forall|i: int| 1 <= i < a.len() ==> b[i] == a[i],
    ensures
        sum(b) == k.plus(sum(a)),
    decreases a.len(),
{
    let (c, d) = (a.drop_last(), b.drop_last());
    if a.len() == 1 {
        assert(c =~= Seq::<F>::empty());
        assert(d =~= Seq::<F>::empty());
        assert(sum(c) == F::zero_spec());
        lemma_zero_plus(a[0]);
        lemma_zero_plus(b[0]);
        F::law_plus_commutes(a[0], k);
    } else {
        lemma_first_term(c, d, k);
        F::law_plus_associates(k, sum(c), a.last());
    }
}

} // verus!
