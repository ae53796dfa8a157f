//! Field-valued Keccak states: 25 lanes with one field element for each of their 64 bits.

use vstd::arithmetic::power2::pow2;
use vstd::prelude::*;

use super::recipe::{
    coeff_from_count, counted_values, lane_terms, lemma_counts_add_up, term_values,
    LinearRecipeStatic, RotView,
};
use super::rotation::{round_constant_from_bit_weights, word_scalars};
use super::trace::{
    batch, bit_scalar, chi_next, holds_states, lane_bits, scalar_bit, LaneTables, State, RC,
};
use crate::field::{lemma_minus_is_plus, lemma_times_zero, lemma_zero_plus, BinaryField, Field};
use crate::mlecheck::{
    lemma_dot_quadratics, lemma_line_is_quadratic, lemma_product_of_lines, lemma_quadratic_plus,
    quadratic, quadratics,
};
use crate::multilinear::{
    block, dot, eq_ind_partial_eval, eq_table, inner_product, interpolated, lemma_interpolated,
    lemma_sum_plus, lemma_sum_scaled, lemma_sum_take, pointwise_plus, pointwise_times, scaled, sum,
};

verus! {

/// The values of one state: 64 for each of the 25 lanes.
pub type Block<F> = [[F; 64]; 25];

/// The lanes of a block.
pub open spec fn lanes_of<F>(b: Block<F>) -> Seq<Seq<F>> {
    Seq::new(25, |lane: int| b[lane]@)
}

/// The lanes of a sequence of blocks.
pub open spec fn all_lanes_of<F>(blocks: Seq<Block<F>>) -> Seq<Seq<Seq<F>>> {
    Seq::new(blocks.len(), |i: int| lanes_of(blocks[i]))
}

/// Whether there are 25 lanes of 64 values.
pub open spec fn is_lanes<F>(v: Seq<Seq<F>>) -> bool {
    &&& v.len() == 25
    &&& forall|lane: int| 0 <= lane < 25 ==> (#[trigger] v[lane]).len() == 64
}

/// The values of instance `i` in lane tables.
pub open spec fn instance_lanes<F>(tables: LaneTables<F>, i: int) -> Seq<Seq<F>> {
    Seq::new(25, |lane: int| block(tables[lane]@, 64, i))
}

/// The values of all instances in lane tables.
pub open spec fn table_instances<F>(tables: LaneTables<F>, n: nat) -> Seq<Seq<Seq<F>>> {
    Seq::new(n, |i: int| instance_lanes(tables, i))
}

/// The bits of a state as field elements.
pub open spec fn state_scalars<F: Field>(state: Seq<u64>) -> Seq<Seq<F>> {
    Seq::new(25, |lane: int| word_scalars(state[lane]))
}

/// The bits of a batch of states as field elements.
pub open spec fn batch_scalars<F: Field>(states: Seq<Seq<u64>>) -> Seq<Seq<Seq<F>>> {
    Seq::new(states.len(), |i: int| state_scalars(states[i]))
}

/// The values of one position in all instances.
pub open spec fn position_values<F>(instances: Seq<Seq<Seq<F>>>, lane: int, b: int) -> Seq<F> {
    Seq::new(instances.len(), |i: int| instances[i][lane][b])
}

/// The weighted sum of instances, position by position.
pub open spec fn combined<F: Field>(weights: Seq<F>, instances: Seq<Seq<Seq<F>>>) -> Seq<Seq<F>> {
    Seq::new(
        25,
        |lane: int| Seq::new(64, |b: int| dot(weights, position_values(instances, lane, b))),
    )
}

/// The lane tables of a batch hold the bits of its states, instance by instance.
pub proof fn law_tables_hold_states<F: Field>(
    tables: LaneTables<F>,
    states: Seq<Seq<u64>>,
)
    requires
        holds_states(tables, states),
    ensures
        table_instances(tables, states.len()) == batch_scalars::<F>(states),
{
    let a = table_instances(tables, states.len());
    let b = batch_scalars::<F>(states);
    assert forall|i: int| 0 <= i < states.len() implies a[i] == b[i] by {
        assert forall|lane: int| 0 <= lane < 25 implies a[i][lane] == b[i][lane] by {
            assert(tables[lane]@ == lane_bits::<F>(states, lane));
            assert forall|j: int| 0 <= j < 64 implies a[i][lane][j] == b[i][lane][j] by {
                assert((64 * i + j) / 64 == i && (64 * i + j) % 64 == j);
            }
            assert(a[i][lane] =~= b[i][lane]);
        }
        assert(a[i] =~= b[i]);
    }
    assert(a =~= b);
}

/// Returns the inner product of two vectors of 64 values.
pub fn dot_64<F: Field>(lhs: &[F; 64], rhs: &[F; 64]) -> (r: F)
    ensures
        r == dot(lhs@, rhs@),
{
    inner_product(lhs.as_slice(), rhs.as_slice())
}

/// Splits lane tables into one block for each instance.
pub fn lane_block_tables<F: Field>(lane_tables: &LaneTables<F>) -> (r: Vec<Block<F>>)
    requires
        forall|lane: int|
            0 <= lane < 25 ==> (#[trigger] lane_tables[lane])@.len() == lane_tables[0]@.len(),
    ensures
        all_lanes_of(r@) == table_instances(*lane_tables, (lane_tables[0]@.len() / 64) as nat),
{
    let n: usize = lane_tables[0].len() / 64;
    let mut out: Vec<Block<F>> = Vec::with_capacity(n);
    let mut i: usize = 0;
    while i < n
        invariant
            i <= n,
            n == lane_tables[0]@.len() / 64,
            lane_tables[0]@.len() <= usize::MAX,
            forall|lane: int|
                0 <= lane < 25 ==> (#[trigger] lane_tables[lane])@.len() == lane_tables[0]@.len(),
            out@.len() == i,
            forall|j: int|
                0 <= j < i ==> lanes_of(#[trigger] out@[j]) == instance_lanes(*lane_tables, j),
        decreases n - i,
    {
        let mut values: Block<F> = [[F::zero();64];25];
        let mut lane: usize = 0;
        while lane < 25
            invariant
                lane <= 25,
                i < n,
                n == lane_tables[0]@.len() / 64,
                lane_tables[0]@.len() <= usize::MAX,
                forall|l: int|
                    0 <= l < 25 ==> (#[trigger] lane_tables[l])@.len() == lane_tables[0]@.len(),
                forall|l: int|
                    0 <= l < lane ==> (#[trigger] values[l])@ == block(
                        lane_tables[l]@,
                        64,
                        i as int,
                    ),
            decreases 25 - lane,
        {
            let mut row: [F; 64] = [F::zero();64];
            let mut b: usize = 0;
            assert(lane_tables[lane as int]@.len() == lane_tables[0]@.len());
            while b < 64
                invariant
                    b <= 64,
                    lane < 25,
                    64 * i + 64 <= lane_tables[lane as int]@.len(),
                    lane_tables[lane as int]@.len() <= usize::MAX,
                    forall|c: int|
                        0 <= c < b ==> row[c] == lane_tables[lane as int]@[64 * i + c],
                decreases 64 - b,
            {
                row[b] = lane_tables[lane][64 * i + b];
                b = b + 1;
            }
            assert(row@ =~= block(lane_tables[lane as int]@, 64, i as int));
            values[lane] = row;
            lane = lane + 1;
        }
        assert(lanes_of(values) =~= instance_lanes(*lane_tables, i as int));
        out.push(values);
        i = i + 1;
    }
    assert(all_lanes_of(out@) =~= table_instances(*lane_tables, n as nat));
    out
}

/// Expands the bits of each state into a block.
pub fn words_to_block_tables<F: Field>(words: &[State]) -> (r: Vec<Block<F>>)
    ensures
        all_lanes_of(r@) == batch_scalars::<F>(batch(words@)),
{
    let mut out: Vec<Block<F>> = Vec::with_capacity(words.len());
    let mut i: usize = 0;
    while i < words.len()
        invariant
            i <= words@.len(),
            out@.len() == i,
            forall|j: int|
                0 <= j < i ==> lanes_of(#[trigger] out@[j]) == state_scalars::<F>(words@[j]@),
        decreases words@.len() - i,
    {
        let mut values: Block<F> = [[F::zero();64];25];
        let mut lane: usize = 0;
        while lane < 25
            invariant
                lane <= 25,
                i < words@.len(),
                forall|l: int|
                    0 <= l < lane ==> (#[trigger] values[l])@ == word_scalars::<F>(
                        words@[i as int][l],
                    ),
            decreases 25 - lane,
        {
            let word: u64 = words[i][lane];
            let mut row: [F; 64] = [F::zero();64];
            let mut b: usize = 0;
            while b < 64
                invariant
                    b <= 64,
                    forall|c: int| 0 <= c < b ==> row[c] == bit_scalar::<F>(word, c),
                decreases 64 - b,
            {
                row[b] = scalar_bit(word, b);
                b = b + 1;
            }
            assert(row@ =~= word_scalars::<F>(word));
            values[lane] = row;
            lane = lane + 1;
        }
        assert(lanes_of(values) =~= state_scalars::<F>(words@[i as int]@));
        out.push(values);
        i = i + 1;
    }
    assert(all_lanes_of(out@) =~= batch_scalars::<F>(batch(words@)));
    out
}

/// Evaluates the high variables of the 25 lane multilinears, position by position.
pub fn evaluate_lane_low_vectors<F: Field>(lane_tables: &LaneTables<F>, high_point: &[F]) -> (r:
    Block<F>)
    requires
        forall|lane: int|
            0 <= lane < 25 ==> (#[trigger] lane_tables[lane])@.len() == 64 * pow2(
                high_point@.len(),
            ),
    ensures
        lanes_of(r) == combined(
            eq_table(high_point@),
            table_instances(*lane_tables, pow2(high_point@.len())),
        ),
{
    let ghost n = pow2(high_point@.len());
    assert(lane_tables[0]@.len() == 64 * n);
    assert(lane_tables[0].len() <= usize::MAX);
    let high_eq = eq_ind_partial_eval(high_point);
    let ghost instances = table_instances(*lane_tables, n);
    let ghost expected = combined(high_eq@, instances);
    let mut out: Block<F> = [[F::zero();64];25];
    let mut lane: usize = 0;
    while lane < 25
        invariant
            lane <= 25,
            high_eq@.len() == n,
            64 * n <= usize::MAX,
            instances == table_instances(*lane_tables, n),
            expected == combined(high_eq@, instances),
            forall|l: int| 0 <= l < 25 ==> (#[trigger] lane_tables[l])@.len() == 64 * n,
            forall|l: int| 0 <= l < lane ==> (#[trigger] out[l])@ == expected[l],
        decreases 25 - lane,
    {
        let mut row: [F; 64] = [F::zero();64];
        let mut b: usize = 0;
        while b < 64
            invariant
                b <= 64,
                lane < 25,
                high_eq@.len() == n,
                64 * n <= usize::MAX,
                instances == table_instances(*lane_tables, n),
                expected == combined(high_eq@, instances),
                lane_tables[lane as int]@.len() == 64 * n,
                forall|c: int| 0 <= c < b ==> row[c] == expected[lane as int][c],
            decreases 64 - b,
        {
            let ghost values = position_values(instances, lane as int, b as int);
            let ghost terms = pointwise_times(high_eq@, values);
            let mut acc: F = F::zero();
            let mut i: usize = 0;
            while i < high_eq.len()
                invariant
                    i <= high_eq@.len(),
                    b < 64,
                    lane < 25,
                    high_eq@.len() == n,
                    64 * n <= usize::MAX,
                    lane_tables[lane as int]@.len() == 64 * n,
                    instances == table_instances(*lane_tables, n),
                    values == position_values(instances, lane as int, b as int),
                    terms == pointwise_times(high_eq@, values),
                    acc == sum(terms.take(i as int)),
                decreases high_eq@.len() - i,
            {
                let weight: F = high_eq[i];
                proof {
                    lemma_sum_take(terms, i as int);
                    lemma_times_zero(values[i as int]);
                    F::law_plus_zero(acc);
                }
                if !weight.is_equal(F::zero()) {
                    acc = acc.add(weight.mul(lane_tables[lane][64 * i + b]));
                }
                i = i + 1;
            }
            assert(terms.take(i as int) =~= terms);
            row[b] = acc;
            b = b + 1;
        }
        assert(row@ =~= expected[lane as int]);
        out[lane] = row;
        lane = lane + 1;
    }
    assert(lanes_of(out) =~= expected);
    out
}

/// Evaluate the 25 lane multilinears at a high point, working directly from `u64` words
/// without expanding to field elements.
pub fn evaluate_lane_low_vectors_from_words<F: Field>(words: &[State], high_point: &[F]) -> (r:
    Block<F>)
    requires
        words@.len() == pow2(high_point@.len()),
    ensures
        lanes_of(r) == combined(eq_table(high_point@), batch_scalars::<F>(batch(words@))),
{
    assert(words.len() <= usize::MAX);
    let high_eq = eq_ind_partial_eval(high_point);
    let ghost instances = batch_scalars::<F>(batch(words@));
    let ghost expected = combined(high_eq@, instances);
    let mut out: Block<F> = [[F::zero();64];25];
    let mut lane: usize = 0;
    while lane < 25
        invariant
            lane <= 25,
            high_eq@.len() == words@.len(),
            instances == batch_scalars::<F>(batch(words@)),
            expected == combined(high_eq@, instances),
            forall|l: int| 0 <= l < lane ==> (#[trigger] out[l])@ == expected[l],
        decreases 25 - lane,
    {
        let mut row: [F; 64] = [F::zero();64];
        let mut b: usize = 0;
        while b < 64
            invariant
                b <= 64,
                lane < 25,
                high_eq@.len() == words@.len(),
                instances == batch_scalars::<F>(batch(words@)),
                expected == combined(high_eq@, instances),
                forall|c: int| 0 <= c < b ==> row[c] == expected[lane as int][c],
            decreases 64 - b,
        {
            let ghost values = position_values(instances, lane as int, b as int);
            let ghost terms = pointwise_times(high_eq@, values);
            let mut acc: F = F::zero();
            let mut i: usize = 0;
            while i < high_eq.len()
                invariant
                    i <= high_eq@.len(),
                    b < 64,
                    lane < 25,
                    high_eq@.len() == words@.len(),
                    instances == batch_scalars::<F>(batch(words@)),
                    values == position_values(instances, lane as int, b as int),
                    terms == pointwise_times(high_eq@, values),
                    acc == sum(terms.take(i as int)),
                decreases high_eq@.len() - i,
            {
                let weight: F = high_eq[i];
                let word: u64 = words[i][lane];
                proof {
                    lemma_sum_take(terms, i as int);
                    lemma_times_zero(weight);
                    F::law_times_one(weight);
                    F::law_plus_zero(acc);
                }
                if (word >> (b as u64)) & 1 == 1 {
                    acc = acc.add(weight);
                }
                i = i + 1;
            }
            assert(terms.take(i as int) =~= terms);
            row[b] = acc;
            b = b + 1;
        }
        assert(row@ =~= expected[lane as int]);
        out[lane] = row;
        lane = lane + 1;
    }
    assert(lanes_of(out) =~= expected);
    out
}

/// The bit-weighted values of the lanes.
pub open spec fn lane_values<F: Field>(v: Seq<Seq<F>>, bit_weights: Seq<F>) -> Seq<F> {
    Seq::new(25, |lane: int| dot(v[lane], bit_weights))
}

/// Applies the bit weights to each lane.
pub fn fold_low_vectors<F: Field>(lane_low_vectors: &Block<F>, bit_weights: &[F; 64]) -> (r: [F;
    25])
    ensures
        r@ == lane_values(lanes_of(*lane_low_vectors), bit_weights@),
{
    let mut out: [F; 25] = [F::zero();25];
    let mut lane: usize = 0;
    while lane < 25
        invariant
            lane <= 25,
            forall|l: int|
                0 <= l < lane ==> out[l] == dot(lane_low_vectors[l]@, bit_weights@),
        decreases 25 - lane,
    {
        out[lane] = dot_64(&lane_low_vectors[lane], bit_weights);
        lane = lane + 1;
    }
    assert(out@ =~= lane_values(lanes_of(*lane_low_vectors), bit_weights@));
    out
}

/// The lane- and bit-weighted value of a state.
pub open spec fn mixed_lanes<F: Field>(
    v: Seq<Seq<F>>,
    lane_weights: Seq<F>,
    bit_weights: Seq<F>,
) -> F {
    dot(lane_weights, lane_values(v, bit_weights))
}

/// Applies the bit weights and then the lane weights.
pub fn mixed_output_from_low_vectors<F: Field>(
    output_low_vectors: &Block<F>,
    lane_weights: &[F; 25],
    bit_weights: &[F; 64],
) -> (r: F)
    ensures
        r == mixed_lanes(lanes_of(*output_low_vectors), lane_weights@, bit_weights@),
{
    let evals = fold_low_vectors(output_low_vectors, bit_weights);
    inner_product(lane_weights.as_slice(), evals.as_slice())
}

/// What a rotated view of a lane contributes at bit `b`.
pub open spec fn view_value<F>(v: Seq<Seq<F>>, b: int) -> spec_fn(RotView) -> F {
    |view: RotView| v[view.lane as int][(b + 64 - view.rot) % 64]
}

/// The image of field-valued lanes under `theta+rho+pi`: each output lane adds up its rotated
/// views.
pub open spec fn linear_image<F: Field>(v: Seq<Seq<F>>) -> Seq<Seq<F>> {
    Seq::new(
        25,
        |lane: int|
            Seq::new(64, |b: int| sum(term_values(lane_terms(lane), view_value(v, b)))),
    )
}

/// Applies `theta+rho+pi` to field-valued lanes.
pub fn apply_linear_recipe_to_low_vectors<F: Field>(
    recipe: &LinearRecipeStatic,
    input_low_vectors: &Block<F>,
) -> (r: Block<F>)
    requires
        recipe.is_valid(),
    ensures
        lanes_of(r) == linear_image(lanes_of(*input_low_vectors)),
{
    let ghost v = lanes_of(*input_low_vectors);
    let ghost views = recipe.rot_views@;
    let ghost expected = linear_image(v);
    let mut out: Block<F> = [[F::zero();64];25];
    let mut lane: usize = 0;
    while lane < 25
        invariant
            lane <= 25,
            recipe.is_valid(),
            views == recipe.rot_views@,
            v == lanes_of(*input_low_vectors),
            expected == linear_image(v),
            forall|l: int| 0 <= l < lane ==> (#[trigger] out[l])@ == expected[l],
        decreases 25 - lane,
    {
        let counts = &recipe.recipe_counts[lane];
        let mut row: [F; 64] = [F::zero();64];
        let mut b: usize = 0;
        while b < 64
            invariant
                b <= 64,
                lane < 25,
                recipe.is_valid(),
                views == recipe.rot_views@,
                *counts == recipe.recipe_counts@[lane as int],
                v == lanes_of(*input_low_vectors),
                expected == linear_image(v),
                forall|c: int| 0 <= c < b ==> row[c] == expected[lane as int][c],
            decreases 64 - b,
        {
            let ghost phi = view_value(v, b as int);
            let ghost terms = counted_values(counts@, views, phi);
            let mut acc: F = F::zero();
            let mut a: usize = 0;
            while a < counts.len()
                invariant
                    a <= counts@.len(),
                    b < 64,
                    lane < 25,
                    recipe.is_valid(),
                    views == recipe.rot_views@,
                    *counts == recipe.recipe_counts@[lane as int],
                    v == lanes_of(*input_low_vectors),
                    phi == view_value(v, b as int),
                    terms == counted_values(counts@, views, phi),
                    acc == sum(terms.take(a as int)),
                decreases counts@.len() - a,
            {
                let (index, count) = counts[a];
                assert(index < views.len());
                let coeff: F = coeff_from_count(count);
                let view: RotView = recipe.rot_views[index];
                assert(views[index as int].lane < 25 && views[index as int].rot < 64);
                let input_bit: usize = (b + 64 - view.rot as usize) % 64;
                proof {
                    lemma_sum_take(terms, a as int);
                    lemma_times_zero(phi(view));
                    F::law_plus_zero(acc);
                }
                if !coeff.is_equal(F::zero()) {
                    acc = acc.add(coeff.mul(input_low_vectors[view.lane][input_bit]));
                }
                a = a + 1;
            }
            assert(terms.take(a as int) =~= terms);
            proof {
                assert forall|k: int| 0 <= k < lane_terms(lane as int).len() implies views.contains(
                    #[trigger] lane_terms(lane as int)[k],
                ) by {}
                lemma_counts_add_up(counts@, views, lane_terms(lane as int), phi);
            }
            row[b] = acc;
            b = b + 1;
        }
        assert(row@ =~= expected[lane as int]);
        out[lane] = row;
        lane = lane + 1;
    }
    assert(lanes_of(out) =~= expected);
    out
}

/// The same on the block of one instance.
pub fn apply_linear_recipe_to_blocks<F: Field>(
    recipe: &LinearRecipeStatic,
    input_blocks: &Block<F>,
) -> (r: Block<F>)
    requires
        recipe.is_valid(),
    ensures
        lanes_of(r) == linear_image(lanes_of(*input_blocks)),
{
    apply_linear_recipe_to_low_vectors(recipe, input_blocks)
}

/// The value of the chi step at bit `b` of a lane, over a field of characteristic two.
pub open spec fn chi_value<F: Field>(v: Seq<Seq<F>>, lane: int, b: int) -> F {
    v[lane][b].plus(v[chi_next(lane, 2)][b]).plus(
        v[chi_next(lane, 1)][b].times(v[chi_next(lane, 2)][b]),
    )
}

/// The values of the chi step.
pub open spec fn chi_image<F: Field>(v: Seq<Seq<F>>) -> Seq<Seq<F>> {
    Seq::new(25, |lane: int| Seq::new(64, |b: int| chi_value(v, lane, b)))
}

/// The products of neighbouring lanes, which are the quadratic part of the chi step.
pub open spec fn product_image<F: Field>(v: Seq<Seq<F>>) -> Seq<Seq<F>> {
    Seq::new(
        25,
        |lane: int|
            Seq::new(64, |b: int| v[chi_next(lane, 1)][b].times(v[chi_next(lane, 2)][b])),
    )
}

/// The lane- and bit-weighted value of the state after chi and iota.
pub open spec fn composed<F: Field>(
    v: Seq<Seq<F>>,
    lane_weights: Seq<F>,
    round: int,
    bit_weights: Seq<F>,
) -> F {
    lane_weights[0].times(dot(word_scalars::<F>(RC[round]), bit_weights)).plus(
        mixed_lanes(chi_image(v), lane_weights, bit_weights),
    )
}

/// The lane- and bit-weighted value of the quadratic part of the chi step.
pub open spec fn composed_infinity<F: Field>(
    v: Seq<Seq<F>>,
    lane_weights: Seq<F>,
    bit_weights: Seq<F>,
) -> F {
    mixed_lanes(product_image(v), lane_weights, bit_weights)
}

fn chi_block<F: Field>(v: &Block<F>) -> (r: Block<F>)
    ensures
        lanes_of(r) == chi_image(lanes_of(*v)),
{
    let ghost expected = chi_image(lanes_of(*v));
    let mut out: Block<F> = [[F::zero();64];25];
    let mut lane: usize = 0;
    while lane < 25
        invariant
            lane <= 25,
            expected == chi_image(lanes_of(*v)),
            forall|l: int| 0 <= l < lane ==> (#[trigger] out[l])@ == expected[l],
        decreases 25 - lane,
    {
        let b_lane: usize = (lane % 5 + 1) % 5 + 5 * (lane / 5);
        let c_lane: usize = (lane % 5 + 2) % 5 + 5 * (lane / 5);
        let mut row: [F; 64] = [F::zero();64];
        let mut bit: usize = 0;
        while bit < 64
            invariant
                bit <= 64,
                lane < 25,
                b_lane == chi_next(lane as int, 1),
                c_lane == chi_next(lane as int, 2),
                b_lane < 25,
                c_lane < 25,
                expected == chi_image(lanes_of(*v)),
                forall|c: int| 0 <= c < bit ==> row[c] == expected[lane as int][c],
            decreases 64 - bit,
        {
            row[bit] = v[lane][bit].add(v[c_lane][bit]).add(v[b_lane][bit].mul(v[c_lane][bit]));
            bit = bit + 1;
        }
        assert(row@ =~= expected[lane as int]);
        out[lane] = row;
        lane = lane + 1;
    }
    assert(lanes_of(out) =~= expected);
    out
}

fn product_block<F: Field>(v: &Block<F>) -> (r: Block<F>)
    ensures
        lanes_of(r) == product_image(lanes_of(*v)),
{
    let ghost expected = product_image(lanes_of(*v));
    let mut out: Block<F> = [[F::zero();64];25];
    let mut lane: usize = 0;
    while lane < 25
        invariant
            lane <= 25,
            expected == product_image(lanes_of(*v)),
            forall|l: int| 0 <= l < lane ==> (#[trigger] out[l])@ == expected[l],
        decreases 25 - lane,
    {
        let b_lane: usize = (lane % 5 + 1) % 5 + 5 * (lane / 5);
        let c_lane: usize = (lane % 5 + 2) % 5 + 5 * (lane / 5);
        let mut row: [F; 64] = [F::zero();64];
        let mut bit: usize = 0;
        while bit < 64
            invariant
                bit <= 64,
                lane < 25,
                b_lane == chi_next(lane as int, 1),
                c_lane == chi_next(lane as int, 2),
                b_lane < 25,
                c_lane < 25,
                expected == product_image(lanes_of(*v)),
                forall|c: int| 0 <= c < bit ==> row[c] == expected[lane as int][c],
            decreases 64 - bit,
        {
            row[bit] = v[b_lane][bit].mul(v[c_lane][bit]);
            bit = bit + 1;
        }
        assert(row@ =~= expected[lane as int]);
        out[lane] = row;
        lane = lane + 1;
    }
    assert(lanes_of(out) =~= expected);
    out
}

/// Returns the lane- and bit-weighted value of the state after chi and iota.
pub fn compose_chi_iota_from_low_vectors<F: Field>(
    pre_chi_low_vectors: &Block<F>,
    lane_weights: &[F; 25],
    round: usize,
    bit_weights: &[F; 64],
) -> (r: F)
    requires
        round < 24,
    ensures
        r == composed(
            lanes_of(*pre_chi_low_vectors),
            lane_weights@,
            round as int,
            bit_weights@,
        ),
{
    let constant: F = lane_weights[0].mul(round_constant_from_bit_weights(round, bit_weights));
    let image = chi_block(pre_chi_low_vectors);
    constant.add(mixed_output_from_low_vectors(&image, lane_weights, bit_weights))
}

/// Returns the lane- and bit-weighted value of the quadratic part of the chi step.
pub fn compose_chi_iota_infinity_from_low_vectors<F: Field>(
    pre_chi_low_vectors: &Block<F>,
    lane_weights: &[F; 25],
    bit_weights: &[F; 64],
) -> (r: F)
    ensures
        r == composed_infinity(lanes_of(*pre_chi_low_vectors), lane_weights@, bit_weights@),
{
    let image = product_block(pre_chi_low_vectors);
    mixed_output_from_low_vectors(&image, lane_weights, bit_weights)
}

/// The position-wise sum of two states.
pub open spec fn lanes_plus<F: Field>(a: Seq<Seq<F>>, b: Seq<Seq<F>>) -> Seq<Seq<F>> {
    Seq::new(25, |lane: int| Seq::new(64, |j: int| a[lane][j].plus(b[lane][j])))
}

/// The position-wise point at `x` on the lines through two states.
pub open spec fn lanes_at<F: Field>(lo: Seq<Seq<F>>, hi: Seq<Seq<F>>, x: F) -> Seq<Seq<F>> {
    Seq::new(25, |lane: int| Seq::new(64, |j: int| interpolated(lo[lane][j], hi[lane][j], x)))
}

/// Returns the position-wise sum of two blocks.
pub fn add_blocks<F: Field>(a: &Block<F>, b: &Block<F>) -> (r: Block<F>)
    ensures
        lanes_of(r) == lanes_plus(lanes_of(*a), lanes_of(*b)),
{
    let ghost expected = lanes_plus(lanes_of(*a), lanes_of(*b));
    let mut out: Block<F> = [[F::zero();64];25];
    let mut lane: usize = 0;
    while lane < 25
        invariant
            lane <= 25,
            expected == lanes_plus(lanes_of(*a), lanes_of(*b)),
            forall|l: int| 0 <= l < lane ==> (#[trigger] out[l])@ == expected[l],
        decreases 25 - lane,
    {
        let mut row: [F; 64] = [F::zero();64];
        let mut bit: usize = 0;
        while bit < 64
            invariant
                bit <= 64,
                lane < 25,
                expected == lanes_plus(lanes_of(*a), lanes_of(*b)),
                forall|c: int| 0 <= c < bit ==> row[c] == expected[lane as int][c],
            decreases 64 - bit,
        {
            row[bit] = a[lane][bit].add(b[lane][bit]);
            bit = bit + 1;
        }
        assert(row@ =~= expected[lane as int]);
        out[lane] = row;
        lane = lane + 1;
    }
    assert(lanes_of(out) =~= expected);
    out
}

fn interpolate_blocks<F: Field>(lo: &Block<F>, hi: &Block<F>, x: F) -> (r: Block<F>)
    ensures
        lanes_of(r) == lanes_at(lanes_of(*lo), lanes_of(*hi), x),
{
    let ghost expected = lanes_at(lanes_of(*lo), lanes_of(*hi), x);
    let mut out: Block<F> = [[F::zero();64];25];
    let mut lane: usize = 0;
    while lane < 25
        invariant
            lane <= 25,
            expected == lanes_at(lanes_of(*lo), lanes_of(*hi), x),
            forall|l: int| 0 <= l < lane ==> (#[trigger] out[l])@ == expected[l],
        decreases 25 - lane,
    {
        let mut row: [F; 64] = [F::zero();64];
        let mut bit: usize = 0;
        while bit < 64
            invariant
                bit <= 64,
                lane < 25,
                expected == lanes_at(lanes_of(*lo), lanes_of(*hi), x),
                forall|c: int| 0 <= c < bit ==> row[c] == expected[lane as int][c],
            decreases 64 - bit,
        {
            let low: F = lo[lane][bit];
            row[bit] = low.add(x.mul(hi[lane][bit].sub(low)));
            bit = bit + 1;
        }
        assert(row@ =~= expected[lane as int]);
        out[lane] = row;
        lane = lane + 1;
    }
    assert(lanes_of(out) =~= expected);
    out
}

/// The instances with the highest instance variable fixed to `c`.
pub open spec fn folded_instances<F: Field>(instances: Seq<Seq<Seq<F>>>, c: F) -> Seq<
    Seq<Seq<F>>,
> {
    Seq::new(
        instances.len() / 2,
        |i: int| lanes_at(instances[i], instances[i + instances.len() / 2], c),
    )
}

/// Fixes the highest instance variable of the blocks.
pub fn fold_block_tables_inplace<F: Field>(blocks: &mut Vec<Block<F>>, challenge: F)
    ensures
        all_lanes_of(final(blocks)@) == folded_instances(all_lanes_of(old(blocks)@), challenge),
{
    let split: usize = blocks.len() / 2;
    let ghost before = all_lanes_of(blocks@);
    let mut out: Vec<Block<F>> = Vec::with_capacity(split);
    let mut i: usize = 0;
    while i < split
        invariant
            i <= split,
            split == blocks@.len() / 2,
            blocks@.len() <= usize::MAX,
            before == all_lanes_of(blocks@),
            out@.len() == i,
            forall|j: int|
                0 <= j < i ==> lanes_of(#[trigger] out@[j]) == lanes_at(
                    before[j],
                    before[j + split],
                    challenge,
                ),
        decreases split - i,
    {
        let folded = interpolate_blocks(&blocks[i], &blocks[i + split], challenge);
        out.push(folded);
        i = i + 1;
    }
    assert(all_lanes_of(out@) =~= folded_instances(before, challenge));
    *blocks = out;
}

/// The lane values that a sequence of quadratic polynomials takes at `x`.
proof fn lemma_mixed_lanes_quadratic<F: Field>(
    lo: Seq<Seq<F>>,
    hi: Seq<Seq<F>>,
    inf: Seq<Seq<F>>,
    at: Seq<Seq<F>>,
    lane_weights: Seq<F>,
    bit_weights: Seq<F>,
    x: F,
)
    requires
        is_lanes(lo),
        is_lanes(hi),
        is_lanes(inf),
        is_lanes(at),
        lane_weights.len() == 25,
        bit_weights.len() == 64,
        forall|lane: int, b: int|
            0 <= lane < 25 && 0 <= b < 64 ==> #[trigger] at[lane][b] == quadratic(
                lo[lane][b],
                hi[lane][b],
                inf[lane][b],
                x,
            ),
    ensures
        mixed_lanes(at, lane_weights, bit_weights) == quadratic(
            mixed_lanes(lo, lane_weights, bit_weights),
            mixed_lanes(hi, lane_weights, bit_weights),
            mixed_lanes(inf, lane_weights, bit_weights),
            x,
        ),
{
    let (vlo, vhi, vinf) = (
        lane_values(lo, bit_weights),
        lane_values(hi, bit_weights),
        lane_values(inf, bit_weights),
    );
    assert forall|lane: int| 0 <= lane < 25 implies lane_values(at, bit_weights)[lane] == quadratic(
        vlo[lane],
        vhi[lane],
        vinf[lane],
        x,
    ) by {
        assert(at[lane] =~= quadratics(lo[lane], hi[lane], inf[lane], x));
        lemma_dot_quadratics(bit_weights, lo[lane], hi[lane], inf[lane], x);
        crate::multilinear::lemma_dot_commutes(bit_weights, at[lane]);
        crate::multilinear::lemma_dot_commutes(bit_weights, lo[lane]);
        crate::multilinear::lemma_dot_commutes(bit_weights, hi[lane]);
        crate::multilinear::lemma_dot_commutes(bit_weights, inf[lane]);
    }
    assert(lane_values(at, bit_weights) =~= quadratics(vlo, vhi, vinf, x));
    lemma_dot_quadratics(lane_weights, vlo, vhi, vinf, x);
}

/// Along a line of states, the weighted value after chi and iota is a quadratic polynomial.
pub proof fn law_composed_along_line<F: BinaryField>(
    lo: Seq<Seq<F>>,
    hi: Seq<Seq<F>>,
    lane_weights: Seq<F>,
    round: int,
    bit_weights: Seq<F>,
    x: F,
)
    requires
        is_lanes(lo),
        is_lanes(hi),
        lane_weights.len() == 25,
        bit_weights.len() == 64,
    ensures
        composed(lanes_at(lo, hi, x), lane_weights, round, bit_weights) == quadratic(
            composed(lo, lane_weights, round, bit_weights),
            composed(hi, lane_weights, round, bit_weights),
            composed_infinity(lanes_plus(lo, hi), lane_weights, bit_weights),
            x,
        ),
{
    let at = lanes_at(lo, hi, x);
    let sum_lanes = lanes_plus(lo, hi);
    let z = F::zero_spec();
    assert forall|lane: int, b: int| 0 <= lane < 25 && 0 <= b < 64 implies
        #[trigger] chi_image(at)[lane][b] == quadratic(
        chi_image(lo)[lane][b],
        chi_image(hi)[lane][b],
        product_image(sum_lanes)[lane][b],
        x,
    ) by {
        let (l1, l2) = (chi_next(lane, 1), chi_next(lane, 2));
        let (a0, a1) = (lo[lane][b], hi[lane][b]);
        let (b0, b1) = (lo[l1][b], hi[l1][b]);
        let (c0, c1) = (lo[l2][b], hi[l2][b]);
        lemma_line_is_quadratic(a0, a1, x);
        lemma_line_is_quadratic(c0, c1, x);
        lemma_product_of_lines(b0, b1, c0, c1, x);
        lemma_minus_is_plus(b1, b0);
        lemma_minus_is_plus(c1, c0);
        F::law_plus_commutes(b1, b0);
        F::law_plus_commutes(c1, c0);
        let q = b0.plus(b1).times(c0.plus(c1));
        lemma_quadratic_plus(a0, a1, z, c0, c1, z, x);
        F::law_plus_zero(z);
        lemma_quadratic_plus(a0.plus(c0), a1.plus(c1), z, b0.times(c0), b1.times(c1), q, x);
        lemma_zero_plus(q);
    }
    lemma_mixed_lanes_quadratic(
        chi_image(lo),
        chi_image(hi),
        product_image(sum_lanes),
        chi_image(at),
        lane_weights,
        bit_weights,
        x,
    );
    // the round constant does not depend on the state
    let k = lane_weights[0].times(dot(word_scalars::<F>(RC[round]), bit_weights));
    let (m0, m1, mi) = (
        mixed_lanes(chi_image(lo), lane_weights, bit_weights),
        mixed_lanes(chi_image(hi), lane_weights, bit_weights),
        composed_infinity(sum_lanes, lane_weights, bit_weights),
    );
    lemma_quadratic_plus(k, k, z, m0, m1, mi, x);
    lemma_zero_plus(mi);
    lemma_line_is_quadratic(k, k, x);
    crate::field::lemma_minus_self(k);
    lemma_times_zero(x);
    F::law_plus_zero(k);
}

/// The images of two states under `theta+rho+pi` can be interpolated before or after.
pub proof fn law_linear_image_of_line<F: Field>(lo: Seq<Seq<F>>, hi: Seq<Seq<F>>, x: F)
    requires
        is_lanes(lo),
        is_lanes(hi),
    ensures
        linear_image(lanes_at(lo, hi, x)) == lanes_at(linear_image(lo), linear_image(hi), x),
{
    let left = linear_image(lanes_at(lo, hi, x));
    let right = lanes_at(linear_image(lo), linear_image(hi), x);
    let m = F::one_spec().minus(x);
    assert forall|lane: int| 0 <= lane < 25 implies left[lane] == right[lane] by {
        assert forall|b: int| 0 <= b < 64 implies left[lane][b] == right[lane][b] by {
            let terms = lane_terms(lane);
            let (s, t) = (
                term_values(terms, view_value(lo, b)),
                term_values(terms, view_value(hi, b)),
            );
            let u = term_values(terms, view_value(lanes_at(lo, hi, x), b));
            assert forall|k: int| 0 <= k < terms.len() implies u[k] == pointwise_plus(
                scaled(m, s),
                scaled(x, t),
            )[k] by {
                assert(terms[k].lane < 25);
                lemma_interpolated(s[k], t[k], x);
            }
            assert(u =~= pointwise_plus(scaled(m, s), scaled(x, t)));
            lemma_sum_plus(scaled(m, s), scaled(x, t));
            lemma_sum_scaled(m, s);
            lemma_sum_scaled(x, t);
            lemma_interpolated(sum(s), sum(t), x);
        }
        assert(left[lane] =~= right[lane]);
    }
    assert(left =~= right);
}

/// The image of a sum of states under `theta+rho+pi` is the sum of the images.
pub proof fn law_linear_image_of_sum<F: Field>(a: Seq<Seq<F>>, b: Seq<Seq<F>>)
    requires
        is_lanes(a),
        is_lanes(b),
    ensures
        linear_image(lanes_plus(a, b)) == lanes_plus(linear_image(a), linear_image(b)),
{
    let left = linear_image(lanes_plus(a, b));
    let right = lanes_plus(linear_image(a), linear_image(b));
    assert forall|lane: int| 0 <= lane < 25 implies left[lane] == right[lane] by {
        assert forall|j: int| 0 <= j < 64 implies left[lane][j] == right[lane][j] by {
            let terms = lane_terms(lane);
            let (s, t) = (
                term_values(terms, view_value(a, j)),
                term_values(terms, view_value(b, j)),
            );
            let u = term_values(terms, view_value(lanes_plus(a, b), j));
            assert forall|k: int| 0 <= k < terms.len() implies u[k] == pointwise_plus(s, t)[k] by {
                assert(terms[k].lane < 25);
            }
            assert(u =~= pointwise_plus(s, t));
            lemma_sum_plus(s, t);
        }
        assert(left[lane] =~= right[lane]);
    }
    assert(left =~= right);
}

} // verus!
