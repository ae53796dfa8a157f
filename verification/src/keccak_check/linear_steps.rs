//! The linear steps theta, rho and pi on words: what their recipe adds up to, and that they are
//! linear and lose nothing.

use vstd::prelude::*;

use super::blocks::{
    is_lanes, lanes_plus, law_linear_image_of_sum, linear_image, state_scalars, view_value,
};
use super::boolean::{
    bits_at, law_linear_image_of_bits, lemma_bit_scalar_xor, lemma_bits_of_xor_all,
    lemma_rotated_xor, xor_all,
};
use super::recipe::{
    counted_values, counts_terms, lane_terms, lemma_counts_add_up, lemma_lane_terms, ones, LinearRecipeStatic,
    RotView,
};
use super::rotation::lemma_rotated_bit;
use super::trace::{
    bit_scalar, column, law_pi_moves_lanes, pi_source, pre_chi_of, rho_pi, rotated_left, theta,
    theta_effect, R,
};
use crate::field::{
    lemma_one_times, lemma_times_zero, lemma_zero_plus, BinaryField, Field, Ring,
};
use crate::ghash::B128;
use crate::words::{lemma_equal_bits, lemma_word_bits, word_bit};

verus! {

/// The exclusive or of two states, lane by lane.
pub open spec fn xor_states(a: Seq<u64>, b: Seq<u64>) -> Seq<u64> {
    Seq::new(25, |lane: int| a[lane] ^ b[lane])
}

/// The state of zeros.
pub open spec fn zero_state() -> Seq<u64> {
    Seq::new(25, |lane: int| 0u64)
}

/// Words whose bits are equal as scalars are equal.
proof fn lemma_equal_scalars(a: u64, b: u64)
    requires
        forall|i: int| 0 <= i < 64 ==> #[trigger] bit_scalar::<B128>(a, i) == bit_scalar::<B128>(b, i),
    ensures
        a == b,
{
    B128::law_zero_is_not_one();
    assert forall|i: int| 0 <= i < 64 implies word_bit(a, i) == word_bit(b, i) by {
        assert(bit_scalar::<B128>(a, i) == bit_scalar::<B128>(b, i));
    }
    lemma_equal_bits(a, b);
}

/// The rotated lanes that a recipe takes up an odd number of times, and zero for the others.
pub open spec fn odd_words(
    counts: Seq<(usize, u8)>,
    views: Seq<RotView>,
    s: Seq<u64>,
) -> Seq<u64> {
    Seq::new(
        counts.len(),
        |a: int|
            if counts[a].1 % 2 == 1 {
                rotated_left(
                    s[views[counts[a].0 as int].lane as int],
                    views[counts[a].0 as int].rot,
                )
            } else {
                0
            },
    )
}

/// A sum of ones is the parity of their number.
proof fn lemma_ones_parity(n: nat)
    ensures
        ones::<B128>(n) == if n % 2 == 1 {
            B128::one_spec()
        } else {
            B128::zero_spec()
        },
    decreases n,
{
    if n > 0 {
        lemma_ones_parity((n - 1) as nat);
        B128::law_characteristic_two(B128::one_spec());
        lemma_zero_plus(B128::one_spec());
    }
}

/// The counted values of the bits of a state are the bits of the words that are named an odd number
/// of times.
proof fn lemma_counted_bits(
    counts: Seq<(usize, u8)>,
    views: Seq<RotView>,
    s: Seq<u64>,
    i: int,
)
    requires
        s.len() == 25,
        0 <= i < 64,
        forall|a: int| 0 <= a < counts.len() ==> (#[trigger] counts[a]).0 < views.len(),
        forall|j: int| 0 <= j < views.len() ==> (#[trigger] views[j]).lane < 25 && views[j].rot < 64,
    ensures
        counted_values(counts, views, view_value(state_scalars::<B128>(s), i)) == bits_at::<B128>(
            odd_words(counts, views, s),
            i,
        ),
{
    let phi = view_value(state_scalars::<B128>(s), i);
    let words = odd_words(counts, views, s);
    let values = counted_values(counts, views, phi);
    assert forall|a: int| 0 <= a < counts.len() implies values[a] == bits_at::<B128>(
        words,
        i,
    )[a] by {
        assert(counts[a].0 < views.len());
        let view = views[counts[a].0 as int];
        assert(view.lane < 25 && view.rot < 64);
        lemma_ones_parity(counts[a].1 as nat);
        lemma_rotated_bit(s[view.lane as int], view.rot, i);
        lemma_one_times(phi(view));
        lemma_times_zero(phi(view));
        lemma_word_bits(0, 0, i);
    }
    assert(values =~= bits_at::<B128>(words, i));
}

/// The recipe rebuilds the words before chi: each output lane is the exclusive or of the rotated
/// lanes that its counts name an odd number of times.
pub proof fn law_recipe_makes_pre_chi(recipe: LinearRecipeStatic, s: Seq<u64>, lane: int)
    requires
        recipe.is_valid(),
        s.len() == 25,
        0 <= lane < 25,
    ensures
        pre_chi_of(s)[lane] == xor_all(
            odd_words(recipe.recipe_counts@[lane]@, recipe.rot_views@, s),
        ),
{
    let counts = recipe.recipe_counts@[lane]@;
    let views = recipe.rot_views@;
    let terms = lane_terms(lane);
    lemma_lane_terms(lane);
    assert(counts_terms(counts, views, terms));
    assert forall|k: int| 0 <= k < terms.len() implies views.contains(#[trigger] terms[k]) by {
        assert(views.contains(lane_terms(lane)[k]));
    }
    lemma_counts_make_pre_chi(counts, views, s, lane);
}

proof fn lemma_counts_make_pre_chi(
    counts: Seq<(usize, u8)>,
    views: Seq<RotView>,
    s: Seq<u64>,
    lane: int,
)
    requires
        s.len() == 25,
        0 <= lane < 25,
        counts_terms(counts, views, lane_terms(lane)),
        views.no_duplicates(),
        forall|j: int| 0 <= j < views.len() ==> (#[trigger] views[j]).lane < 25 && views[j].rot < 64,
        forall|k: int|
            0 <= k < lane_terms(lane).len() ==> views.contains(#[trigger] lane_terms(lane)[k]),
    ensures
        pre_chi_of(s)[lane] == xor_all(odd_words(counts, views, s)),
{
    let words = odd_words(counts, views, s);
    let v = state_scalars::<B128>(s);
    let before = state_scalars::<B128>(pre_chi_of(s));
    law_linear_image_of_bits::<B128>(s);
    assert forall|i: int| 0 <= i < 64 implies #[trigger] bit_scalar::<B128>(pre_chi_of(s)[lane], i)
        == bit_scalar::<B128>(xor_all(words), i) by {
        lemma_counts_add_up(counts, views, lane_terms(lane), view_value(v, i));
        assert(linear_image(v)[lane][i] == before[lane][i]);
        lemma_bits_of_xor_all::<B128>(words, i);
        lemma_counted_bits(counts, views, s, i);
    }
    lemma_equal_scalars(pre_chi_of(s)[lane], xor_all(words));
}

/// The bits of the exclusive or of two states add up.
proof fn lemma_scalars_of_xor(a: Seq<u64>, b: Seq<u64>)
    requires
        a.len() == 25,
        b.len() == 25,
    ensures
        state_scalars::<B128>(xor_states(a, b)) == lanes_plus(
            state_scalars::<B128>(a),
            state_scalars::<B128>(b),
        ),
{
    let left = state_scalars::<B128>(xor_states(a, b));
    let right = lanes_plus(state_scalars::<B128>(a), state_scalars::<B128>(b));
    assert forall|lane: int| 0 <= lane < 25 implies left[lane] == right[lane] by {
        assert forall|i: int| 0 <= i < 64 implies left[lane][i] == right[lane][i] by {
            lemma_bit_scalar_xor::<B128>(a[lane], b[lane], i);
        }
        assert(left[lane] =~= right[lane]);
    }
    assert(left =~= right);
}

/// The linear steps are linear: the image of an exclusive or is the exclusive or of the images.
pub proof fn law_linear_steps_are_linear(a: Seq<u64>, b: Seq<u64>)
    requires
        a.len() == 25,
        b.len() == 25,
    ensures
        pre_chi_of(xor_states(a, b)) == xor_states(pre_chi_of(a), pre_chi_of(b)),
{
    let left = pre_chi_of(xor_states(a, b));
    let right = xor_states(pre_chi_of(a), pre_chi_of(b));
    let (u, v) = (state_scalars::<B128>(a), state_scalars::<B128>(b));
    lemma_scalars_of_xor(a, b);
    lemma_scalars_of_xor(pre_chi_of(a), pre_chi_of(b));
    assert(is_lanes(u) && is_lanes(v));
    law_linear_image_of_sum(u, v);
    law_linear_image_of_bits::<B128>(a);
    law_linear_image_of_bits::<B128>(b);
    law_linear_image_of_bits::<B128>(xor_states(a, b));
    let (x, y) = (state_scalars::<B128>(left), state_scalars::<B128>(right));
    assert(x == y);
    assert forall|lane: int| 0 <= lane < 25 implies left[lane] == right[lane] by {
        assert forall|i: int| 0 <= i < 64 implies #[trigger] bit_scalar::<B128>(left[lane], i)
            == bit_scalar::<B128>(right[lane], i) by {
            assert(x[lane][i] == y[lane][i]);
        }
        lemma_equal_scalars(left[lane], right[lane]);
    }
    assert(left =~= right);
}

proof fn lemma_xor_identities(a: u64, b: u64, c: u64, d: u64, e: u64)
    by (bit_vector)
    ensures
        a ^ a == 0,
        a ^ a ^ a ^ a ^ a == a,
        (a ^ b) ^ (b ^ c) == a ^ c,
        (a ^ b == 0) == (a == b),
        a == b ^ d ==> a ^ b ^ c == c ^ d,
        (a ^ b ^ c) ^ (d ^ c ^ e) ^ (e ^ d ^ b) == a,
{
}

/// The linear steps keep the state of zeros.
pub proof fn law_linear_steps_keep_zero()
    ensures
        pre_chi_of(zero_state()) == zero_state(),
{
    let z = zero_state();
    let t = pre_chi_of(z);
    lemma_xor_identities(0, 0, 0, 0, 0);
    assert(xor_states(z, z) =~= z);
    law_linear_steps_are_linear(z, z);
    assert forall|lane: int| 0 <= lane < 25 implies t[lane] == z[lane] by {
        lemma_xor_identities(t[lane], 0, 0, 0, 0);
        assert(t[lane] == t[lane] ^ t[lane]);
    }
    assert(t =~= z);
}

/// A word and the word rotated by one, added up `n` times over.
spec fn spread(w: u64, n: nat) -> u64
    decreases n,
{
    if n == 0 {
        w
    } else {
        spread(w, (n - 1) as nat) ^ rotated_left(spread(w, (n - 1) as nat), 1)
    }
}

proof fn lemma_spread_twice(w: u64, m: nat, n: nat)
    ensures
        spread(w, m + n) == spread(spread(w, m), n),
    decreases n,
{
    if n > 0 {
        lemma_spread_twice(w, m, (n - 1) as nat);
        assert((m + n - 1) as nat == m + (n - 1) as nat);
    }
}

proof fn lemma_spread_of_xor(v: u64, w: u64, n: nat)
    ensures
        spread(v ^ w, n) == spread(v, n) ^ spread(w, n),
    decreases n,
{
    if n > 0 {
        let m = (n - 1) as nat;
        lemma_spread_of_xor(v, w, m);
        let (a, b) = (spread(v, m), spread(w, m));
        lemma_rotated_xor(a, b, 1);
        let (p, q) = (rotated_left(a, 1), rotated_left(b, 1));
        lemma_xor_exchange(a, b, p, q);
    }
}

/// Four words can be added up in two orders.
proof fn lemma_xor_exchange(a: u64, b: u64, p: u64, q: u64)
    ensures
        (a ^ b) ^ (p ^ q) == (a ^ p) ^ (b ^ q),
{
    let (left, right) = ((a ^ b) ^ (p ^ q), (a ^ p) ^ (b ^ q));
    assert forall|i: int| 0 <= i < 64 implies word_bit(left, i) == word_bit(right, i) by {
        lemma_word_bits(a, b, i);
        lemma_word_bits(p, q, i);
        lemma_word_bits(a ^ b, p ^ q, i);
        lemma_word_bits(a, p, i);
        lemma_word_bits(b, q, i);
        lemma_word_bits(a ^ p, b ^ q, i);
    }
    lemma_equal_bits(left, right);
}

proof fn lemma_rotated_again(w: u64, m: u32)
    requires
        m <= 32,
    ensures
        rotated_left(rotated_left(w, m), m) == rotated_left(w, (2 * m) as u32),
{
    let (left, right) = (rotated_left(rotated_left(w, m), m), rotated_left(w, (2 * m) as u32));
    assert forall|i: int| 0 <= i < 64 implies word_bit(left, i) == word_bit(right, i) by {
        lemma_rotated_bit(rotated_left(w, m), m, i);
        lemma_rotated_bit(w, m, (i + 64 - m % 64) % 64);
        lemma_rotated_bit(w, (2 * m) as u32, i);
    }
    lemma_equal_bits(left, right);
}

/// Spreading a word over `2 * m` rotations, from what it is over `m` rotations.
proof fn lemma_spread_doubles(w: u64, m: u32)
    requires
        m <= 32,
        forall|v: u64| #[trigger] spread(v, m as nat) == v ^ rotated_left(v, m),
    ensures
        spread(w, (2 * m) as nat) == w ^ rotated_left(w, (2 * m) as u32),
{
    lemma_spread_twice(w, m as nat, m as nat);
    assert((m + m) as nat == (2 * m) as nat);
    let v = spread(w, m as nat);
    let p = rotated_left(w, m);
    assert(spread(v, m as nat) == v ^ rotated_left(v, m));
    lemma_rotated_xor(w, p, m);
    lemma_rotated_again(w, m);
    lemma_xor_identities(w, p, rotated_left(p, m), 0, 0);
}

/// Over all rotations, every word vanishes.
proof fn lemma_spread_vanishes(w: u64)
    ensures
        spread(w, 64) == 0,
{
    assert forall|v: u64| #[trigger] spread(v, 1) == v ^ rotated_left(v, 1) by {
        assert(spread(v, 0) == v);
    }
    assert forall|v: u64| #[trigger] spread(v, 2) == v ^ rotated_left(v, 2) by {
        lemma_spread_doubles(v, 1);
    }
    assert forall|v: u64| #[trigger] spread(v, 4) == v ^ rotated_left(v, 4) by {
        lemma_spread_doubles(v, 2);
    }
    assert forall|v: u64| #[trigger] spread(v, 8) == v ^ rotated_left(v, 8) by {
        lemma_spread_doubles(v, 4);
    }
    assert forall|v: u64| #[trigger] spread(v, 16) == v ^ rotated_left(v, 16) by {
        lemma_spread_doubles(v, 8);
    }
    assert forall|v: u64| #[trigger] spread(v, 32) == v ^ rotated_left(v, 32) by {
        lemma_spread_doubles(v, 16);
    }
    lemma_spread_doubles(w, 32);
    lemma_xor_identities(w, 0, 0, 0, 0);
}

/// Whether word `x` of five is its left neighbour and the rotated right one.
spec fn is_neighbour_sum(c: Seq<u64>, x: int) -> bool {
    c[x] == c[(x + 4) % 5] ^ rotated_left(c[(x + 1) % 5], 1)
}

/// Five words `a`, `p`, `q`, `r`, `s` in a circle: three neighbour sums make `a` a word and its
/// rotation.
proof fn lemma_circle_step(a: u64, p: u64, q: u64, r: u64, s: u64)
    requires
        a == s ^ rotated_left(p, 1),
        q == p ^ rotated_left(r, 1),
        r == q ^ rotated_left(s, 1),
    ensures
        a == (p ^ r ^ s) ^ rotated_left(p ^ r ^ s, 1),
{
    let (tp, tr, ts) = (rotated_left(p, 1), rotated_left(r, 1), rotated_left(s, 1));
    lemma_xor_identities(a, s, p, tp, 0);
    lemma_xor_identities(q, p, r, tr, 0);
    lemma_xor_identities(r, q, s, ts, 0);
    lemma_xor_identities(a, s, p, q, r);
    assert((p ^ tp) ^ (r ^ tr) ^ (s ^ ts) == a);
    lemma_xor_exchange(p, tp, r, tr);
    lemma_xor_exchange(p ^ r, tp ^ tr, s, ts);
    lemma_rotated_xor(p, r, 1);
    lemma_rotated_xor(p ^ r, s, 1);
}

/// Five words in a circle that are neighbour sums are spread words of any order.
proof fn lemma_circle_is_spread(c: Seq<u64>, n: nat) -> (w: Seq<u64>)
    requires
        c.len() == 5,
        forall|x: int| 0 <= x < 5 ==> #[trigger] is_neighbour_sum(c, x),
    ensures
        w.len() == 5,
        forall|x: int| 0 <= x < 5 ==> c[x] == #[trigger] spread(w[x], n),
    decreases n,
{
    if n == 0 {
        c
    } else {
        let m = (n - 1) as nat;
        let v = lemma_circle_is_spread(c, m);
        let w = Seq::new(5, |x: int| v[(x + 1) % 5] ^ v[(x + 3) % 5] ^ v[(x + 4) % 5]);
        assert forall|x: int| 0 <= x < 5 implies c[x] == #[trigger] spread(w[x], n) by {
            let (x1, x2, x3, x4) = ((x + 1) % 5, (x + 2) % 5, (x + 3) % 5, (x + 4) % 5);
            assert(is_neighbour_sum(c, x) && is_neighbour_sum(c, x2) && is_neighbour_sum(c, x3));
            assert((x2 + 4) % 5 == x1 && (x2 + 1) % 5 == x3);
            assert((x3 + 4) % 5 == x2 && (x3 + 1) % 5 == x4);
            lemma_circle_step(c[x], c[x1], c[x2], c[x3], c[x4]);
            let (p, q, r) = (v[x1], v[x3], v[x4]);
            assert(c[x1] == spread(p, m) && c[x3] == spread(q, m) && c[x4] == spread(r, m));
            lemma_spread_of_xor(p, q, m);
            lemma_spread_of_xor(p ^ q, r, m);
            assert(w[x] == p ^ q ^ r);
        }
        w
    }
}

/// A word of zeros stays one when it is rotated.
proof fn lemma_rotated_zero()
    ensures
        rotated_left(0, 1) == 0,
{
    lemma_rotated_xor(0, 0, 1);
    lemma_xor_identities(0, 0, 0, 0, 0);
    lemma_xor_identities(rotated_left(0, 1), 0, 0, 0, 0);
}

/// Where theta leads to zeros, every lane is what theta adds to its column.
proof fn lemma_theta_kernel_lane(s: Seq<u64>, lane: int)
    requires
        s.len() == 25,
        theta(s) == zero_state(),
        0 <= lane < 25,
    ensures
        s[lane] == theta_effect(s, lane % 5),
{
    assert(theta(s)[lane] == s[lane] ^ theta_effect(s, lane % 5));
    assert(theta(s)[lane] == 0);
    lemma_xor_identities(s[lane], theta_effect(s, lane % 5), 0, 0, 0);
}

/// Where theta leads to zeros, so is every column parity.
proof fn lemma_theta_kernel_column(s: Seq<u64>, x: int)
    requires
        s.len() == 25,
        theta(s) == zero_state(),
        0 <= x < 5,
    ensures
        column(s, x) == theta_effect(s, x),
{
    lemma_theta_kernel_lane(s, x);
    lemma_theta_kernel_lane(s, x + 5);
    lemma_theta_kernel_lane(s, x + 10);
    lemma_theta_kernel_lane(s, x + 15);
    lemma_theta_kernel_lane(s, x + 20);
    lemma_xor_identities(theta_effect(s, x), 0, 0, 0, 0);
}

/// Theta takes only the state of zeros to zeros.
proof fn lemma_theta_kernel(s: Seq<u64>)
    requires
        s.len() == 25,
        theta(s) == zero_state(),
    ensures
        s == zero_state(),
{
    let c = Seq::new(5, |x: int| column(s, x));
    assert forall|x: int| 0 <= x < 5 implies #[trigger] is_neighbour_sum(c, x) by {
        lemma_theta_kernel_column(s, x);
    }
    let w = lemma_circle_is_spread(c, 64);
    assert forall|x: int| 0 <= x < 5 implies #[trigger] column(s, x) == 0 by {
        lemma_spread_vanishes(w[x]);
        assert(c[x] == spread(w[x], 64));
    }
    lemma_rotated_zero();
    lemma_xor_identities(0, 0, 0, 0, 0);
    assert forall|lane: int| 0 <= lane < 25 implies s[lane] == zero_state()[lane] by {
        let x = lane % 5;
        lemma_theta_kernel_lane(s, lane);
        assert(column(s, (x + 4) % 5) == 0 && column(s, (x + 1) % 5) == 0);
    }
    assert(s =~= zero_state());
}

/// Rho and pi take only the state of zeros to zeros.
proof fn lemma_rho_pi_kernel(s: Seq<u64>)
    requires
        s.len() == 25,
        rho_pi(s) == zero_state(),
    ensures
        s == zero_state(),
{
    assert forall|lane: int| 0 <= lane < 25 implies s[lane] == 0 by {
        let (x, y) = (lane % 5, lane / 5);
        law_pi_moves_lanes(x, y);
        let to = y + 5 * ((2 * x + 3 * y) % 5);
        assert(pi_source(to) == lane);
        let r = R[lane];
        assert(rho_pi(s)[to] == 0);
        assert(rotated_left(s[lane], r) == 0);
        assert forall|i: int| 0 <= i < 64 implies word_bit(s[lane], i) == word_bit(0, i) by {
            let j = (i + r % 64) % 64;
            lemma_rotated_bit(s[lane], r, j);
            lemma_word_bits(0, 0, j);
            lemma_word_bits(0, 0, i);
            assert((j + 64 - r % 64) % 64 == i);
        }
        lemma_equal_bits(s[lane], 0);
    }
    assert(s =~= zero_state());
}

/// The linear steps lose nothing: different states have different images.
pub proof fn law_linear_steps_are_injective(a: Seq<u64>, b: Seq<u64>)
    requires
        a.len() == 25,
        b.len() == 25,
        a != b,
    ensures
        pre_chi_of(a) != pre_chi_of(b),
{
    if pre_chi_of(a) == pre_chi_of(b) {
        let d = xor_states(a, b);
        let t = pre_chi_of(d);
        law_linear_steps_are_linear(a, b);
        assert forall|lane: int| 0 <= lane < 25 implies t[lane] == zero_state()[lane] by {
            lemma_xor_identities(pre_chi_of(a)[lane], 0, 0, 0, 0);
        }
        assert(t =~= zero_state());
        lemma_rho_pi_kernel(theta(d));
        lemma_theta_kernel(d);
        assert forall|lane: int| 0 <= lane < 25 implies a[lane] == b[lane] by {
            assert(d[lane] == 0);
            lemma_xor_identities(a[lane], b[lane], 0, 0, 0);
        }
        assert(a =~= b);
    }
}

} // verus!
