//! The reduction of a claim before chi to a claim on the round input, through `theta+rho+pi`.

use vstd::arithmetic::power2::{lemma2_to64, lemma_pow2_pos, lemma_pow2_unfold, pow2};
use vstd::prelude::*;

use super::blocks::{
    combined, evaluate_lane_low_vectors, fold_low_vectors, instance_lanes, is_lanes,
    lane_block_tables, lane_values, lanes_of, linear_image, all_lanes_of, mixed_lanes,
    table_instances, view_value, Block, dot_64,
};
use super::claims::{copy_vector, BitIndexedMixedClaim, ClaimFault, Error};
use super::recipe::{
    coeff_from_count, lane_terms, lemma_lane_terms, lemma_sum_by_lanes, lemma_views_add_up,
    lemma_views_of_lane, linear_recipe_static, multiplicity, ones, term_values, values_of_lane,
    weighted_view_values, LinearRecipeStatic, RotView,
};
use super::rotation::{
    bit_lagrange_weights, bit_weights_at, lemma_dot_rotated, lemma_whole_blocks,
    rotate_bit_lagrange_weights, rotated_blocks,
};
use super::trace::LaneTables;
use crate::powers::{is_power_of_two, log2_exact};
use crate::field::{lemma_times_zero, BinaryField, Field};
use crate::mlecheck::{
    linear_coeffs, linear_round_coeffs, polynomial_at, EvalPoint, RoundCoeffs, RoundCoeffsOrEval,
    SumcheckError,
};
use crate::multilinear::{
    column_of, column_sums, dot, eq_table, fold_highest_var_inplace, folded_high,
    lemma_sum_exchange, lemma_sum_scaled, lemma_sum_take, pointwise_times, rotated, row_sums,
    scaled, sum,
};

verus! {

/// Input to the standalone linear-round reduction.
#[derive(Debug, Clone, PartialEq, Eq)]
pub struct LinearRoundReduction<F> {
    /// Bit-indexed mixed claim on the explicit `pre_chi` lanes.
    pub pre_chi_claim: BitIndexedMixedClaim<F>,
}

/// Output of the standalone linear-round reduction.
#[derive(Debug, Clone, PartialEq, Eq)]
pub struct LinearRoundOutput<F> {
    /// Reduced point for the remaining high instance variables.
    pub reduced_high_point: Vec<F>,
    /// Evaluations of the 25 folded input lanes at `reduced_high_point`.
    pub input_evals: [F; 25],
    /// Evaluation of the mixed linear round polynomial at `reduced_high_point`.
    pub reduced_eval: F,
}

/// How often each output lane takes up view `view`, as field elements.
pub open spec fn view_coefficients<F: Field>(view: RotView) -> Seq<F> {
    Seq::new(25, |lane: int| ones::<F>(multiplicity(lane_terms(lane), view)))
}

/// The weight of each view that the lane weights induce.
pub open spec fn view_weights<F: Field>(views: Seq<RotView>, lane_weights: Seq<F>) -> Seq<F> {
    Seq::new(views.len(), |j: int| dot(lane_weights, view_coefficients::<F>(views[j])))
}

/// The bit-weighted value of a rotated view.
pub open spec fn view_dot<F: Field>(v: Seq<Seq<F>>, bit_weights: Seq<F>) -> spec_fn(RotView) -> F {
    |view: RotView| dot(v[view.lane as int], rotated(bit_weights, view.rot as int))
}

/// The bit-weighted values of the rotated views.
pub open spec fn view_dots<F: Field>(
    views: Seq<RotView>,
    v: Seq<Seq<F>>,
    bit_weights: Seq<F>,
) -> Seq<F> {
    Seq::new(views.len(), |j: int| view_dot(v, bit_weights)(views[j]))
}

/// The weighted value that a state takes on before chi.
pub open spec fn linear_value<F: Field>(
    v: Seq<Seq<F>>,
    lane_weights: Seq<F>,
    bit_weights: Seq<F>,
) -> F {
    mixed_lanes(linear_image(v), lane_weights, bit_weights)
}

/// Adding up bit-weighted rotated views is the same as weighting the bits of their sum.
proof fn lemma_sum_of_view_dots<F: Field>(
    terms: Seq<RotView>,
    v: Seq<Seq<F>>,
    bit_weights: Seq<F>,
    image: Seq<F>,
)
    requires
        is_lanes(v),
        bit_weights.len() == 64,
        forall|k: int|
            0 <= k < terms.len() ==> (#[trigger] terms[k]).lane < 25 && terms[k].rot < 64,
        image.len() == 64,
        forall|b: int|
            0 <= b < 64 ==> #[trigger] image[b] == sum(term_values(terms, view_value(v, b))),
    ensures
        sum(term_values(terms, view_dot(v, bit_weights))) == dot(image, bit_weights),
{
    let table = Seq::new(
        terms.len(),
        |k: int|
            pointwise_times(
                rotated_blocks(v[terms[k].lane as int], terms[k].rot as int),
                bit_weights,
            ),
    );
    assert forall|k: int| 0 <= k < terms.len() implies row_sums(table)[k] == term_values(
        terms,
        view_dot(v, bit_weights),
    )[k] by {
        assert(terms[k].lane < 25);
        lemma_dot_rotated(v[terms[k].lane as int], bit_weights, terms[k].rot as int);
    }
    assert(row_sums(table) =~= term_values(terms, view_dot(v, bit_weights)));
    assert forall|k: int| 0 <= k < table.len() implies (#[trigger] table[k]).len() == 64 by {
        assert(terms[k].lane < 25);
    }
    lemma_sum_exchange(table, 64);
    assert forall|b: int| 0 <= b < 64 implies column_sums(table, 64)[b] == image[b].times(
        bit_weights[b],
    ) by {
        let values = term_values(terms, view_value(v, b));
        assert forall|k: int| 0 <= k < terms.len() implies column_of(table, b)[k] == scaled(
            bit_weights[b],
            values,
        )[k] by {
            assert(terms[k].lane < 25 && terms[k].rot < 64);
            F::law_times_commutes(values[k], bit_weights[b]);
        }
        assert(column_of(table, b) =~= scaled(bit_weights[b], values));
        lemma_sum_scaled(bit_weights[b], values);
        F::law_times_commutes(bit_weights[b], sum(values));
    }
    assert(column_sums(table, 64) =~= pointwise_times(image, bit_weights));
}

/// Adding up the bit-weighted rotated views of an output lane gives its bit-weighted value.
proof fn lemma_lane_of_view_dots<F: Field>(v: Seq<Seq<F>>, bit_weights: Seq<F>, lane: int)
    requires
        is_lanes(v),
        bit_weights.len() == 64,
        0 <= lane < 25,
    ensures
        sum(term_values(lane_terms(lane), view_dot(v, bit_weights))) == dot(
            linear_image(v)[lane],
            bit_weights,
        ),
{
    lemma_lane_terms(lane);
    lemma_sum_of_view_dots(lane_terms(lane), v, bit_weights, linear_image(v)[lane]);
}

/// The weighted sum of the rotated views is the weighted value before chi.
pub proof fn lemma_weighted_views<F: Field>(
    views: Seq<RotView>,
    v: Seq<Seq<F>>,
    lane_weights: Seq<F>,
    bit_weights: Seq<F>,
)
    requires
        is_lanes(v),
        lane_weights.len() == 25,
        bit_weights.len() == 64,
        views.no_duplicates(),
        forall|lane: int, k: int|
            0 <= lane < 25 && 0 <= k < 11 ==> views.contains(#[trigger] lane_terms(lane)[k]),
    ensures
        dot(view_weights(views, lane_weights), view_dots(views, v, bit_weights)) == linear_value(
            v,
            lane_weights,
            bit_weights,
        ),
{
    let phi = view_dot(v, bit_weights);
    let n = views.len();
    let table = Seq::new(
        25,
        |lane: int|
            scaled(lane_weights[lane], weighted_view_values(views, lane_terms(lane), phi)),
    );
    assert forall|lane: int| 0 <= lane < table.len() implies (#[trigger] table[lane]).len() == n by {}
    lemma_sum_exchange(table, n);
    let values = lane_values(linear_image(v), bit_weights);
    assert forall|lane: int| 0 <= lane < 25 implies row_sums(table)[lane] == pointwise_times(
        lane_weights,
        values,
    )[lane] by {
        let terms = lane_terms(lane);
        lemma_sum_scaled(lane_weights[lane], weighted_view_values(views, terms, phi));
        assert forall|k: int| 0 <= k < terms.len() implies views.contains(
            #[trigger] terms[k],
        ) by {
            assert(views.contains(lane_terms(lane)[k]));
        }
        lemma_views_add_up(views, terms, phi);
        lemma_lane_of_view_dots(v, bit_weights, lane);
    }
    assert(row_sums(table) =~= pointwise_times(lane_weights, values));
    let products = pointwise_times(view_weights(views, lane_weights), view_dots(views, v, bit_weights));
    assert forall|j: int| 0 <= j < n implies column_sums(table, n)[j] == products[j] by {
        let c = view_coefficients::<F>(views[j]);
        let x = phi(views[j]);
        let weighted = pointwise_times(lane_weights, c);
        assert forall|lane: int| 0 <= lane < 25 implies column_of(table, j)[lane] == scaled(
            x,
            weighted,
        )[lane] by {
            F::law_times_associates(lane_weights[lane], c[lane], x);
            F::law_times_commutes(weighted[lane], x);
        }
        assert(column_of(table, j) =~= scaled(x, weighted));
        lemma_sum_scaled(x, weighted);
        F::law_times_commutes(x, sum(weighted));
    }
    assert(column_sums(table, n) =~= products);
}

/// Spreads the lane weights over the views that the lanes take up.
fn view_weights_from_lane_weights<F: Field>(
    recipe: &LinearRecipeStatic,
    lane_weights: &[F; 25],
) -> (r: Vec<F>)
    requires
        recipe.is_valid(),
    ensures
        r@ == view_weights(recipe.rot_views@, lane_weights@),
{
    let ghost views = recipe.rot_views@;
    let n: usize = recipe.rot_views.len();
    let mut out: Vec<F> = Vec::with_capacity(n);
    let mut i: usize = 0;
    while i < n
        invariant
            i <= n,
            out@.len() == i,
            forall|j: int| 0 <= j < i ==> out@[j] == F::zero_spec(),
        decreases n - i,
    {
        out.push(F::zero());
        i = i + 1;
    }
    let ghost terms = Seq::new(
        n as nat,
        |j: int| pointwise_times(lane_weights@, view_coefficients::<F>(views[j])),
    );
    let mut lane: usize = 0;
    assert forall|j: int| 0 <= j < n implies out@[j] == sum((#[trigger] terms[j]).take(0)) by {
        assert(terms[j].take(0) =~= Seq::<F>::empty());
    }
    while lane < 25
        invariant
            lane <= 25,
            recipe.is_valid(),
            views == recipe.rot_views@,
            n == views.len(),
            out@.len() == n,
            terms == Seq::new(
                n as nat,
                |j: int| pointwise_times(lane_weights@, view_coefficients::<F>(views[j])),
            ),
            forall|j: int| 0 <= j < n ==> out@[j] == sum((#[trigger] terms[j]).take(lane as int)),
        decreases 25 - lane,
    {
        let output_weight: F = lane_weights[lane];
        let counts = &recipe.recipe_counts[lane];
        let ghost before = out@;
        let ghost own = lane_terms(lane as int);
        let mut a: usize = 0;
        while a < counts.len()
            invariant
                a <= counts@.len(),
                lane < 25,
                recipe.is_valid(),
                views == recipe.rot_views@,
                n == views.len(),
                *counts == recipe.recipe_counts@[lane as int],
                output_weight == lane_weights[lane as int],
                own == lane_terms(lane as int),
                before.len() == n,
                out@.len() == n,
                forall|j: int|
                    0 <= j < n ==> #[trigger] out@[j] == if exists|c: int|
                        0 <= c < a && (#[trigger] counts@[c]).0 == j {
                        before[j].plus(
                            output_weight.times(ones::<F>(multiplicity(own, views[j]))),
                        )
                    } else {
                        before[j]
                    },
            decreases counts@.len() - a,
        {
            let (index, count) = counts[a];
            assert(index < views.len());
            assert(count == multiplicity(own, views[index as int]));
            let coeff: F = coeff_from_count(count);
            let ghost current = out@;
            assert(!(exists|c: int| 0 <= c < a && (#[trigger] counts@[c]).0 == index));
            proof {
                lemma_times_zero(output_weight);
                F::law_plus_zero(before[index as int]);
            }
            if !coeff.is_equal(F::zero()) {
                let updated: F = out[index].add(output_weight.mul(coeff));
                out.set(index, updated);
            }
            proof {
                assert forall|j: int| 0 <= j < n implies #[trigger] out@[j] == if exists|c: int|
                    0 <= c < a + 1 && (#[trigger] counts@[c]).0 == j {
                    before[j].plus(output_weight.times(ones::<F>(multiplicity(own, views[j]))))
                } else {
                    before[j]
                } by {
                    if j == index {
                        assert(counts@[a as int].0 == j);
                    } else {
                        assert(out@[j] == current[j]);
                        if exists|c: int| 0 <= c < a + 1 && (#[trigger] counts@[c]).0 == j {
                            let c = choose|c: int|
                                0 <= c < a + 1 && (#[trigger] counts@[c]).0 == j;
                            assert(0 <= c < a && counts@[c].0 == j);
                        }
                        if exists|c: int| 0 <= c < a && (#[trigger] counts@[c]).0 == j {
                            let c = choose|c: int| 0 <= c < a && (#[trigger] counts@[c]).0 == j;
                            assert(0 <= c < a + 1 && counts@[c].0 == j);
                        }
                    }
                }
            }
            a = a + 1;
        }
        proof {
            assert forall|j: int| 0 <= j < n implies out@[j] == sum(
                (#[trigger] terms[j]).take(lane + 1),
            ) by {
                lemma_sum_take(terms[j], lane as int);
                assert(terms[j][lane as int] == output_weight.times(
                    ones::<F>(multiplicity(own, views[j])),
                ));
                if multiplicity(own, views[j]) == 0 {
                    lemma_times_zero(output_weight);
                    F::law_plus_zero(before[j]);
                }
            }
        }
        lane = lane + 1;
    }
    proof {
        assert forall|j: int| 0 <= j < n implies out@[j] == view_weights(
            views,
            lane_weights@,
        )[j] by {
            assert(terms[j].take(25) =~= terms[j]);
        }
        assert(out@ =~= view_weights(views, lane_weights@));
    }
    out
}

/// Rotates the bit weights by each of the rotations of the recipe.
fn rotate_weights<F: Field>(recipe: &LinearRecipeStatic, bit_weights: &[F; 64]) -> (r: Vec<
    [F; 64],
>)
    ensures
        r@.len() == recipe.unique_rotations@.len(),
        forall|u: int|
            0 <= u < r@.len() ==> (#[trigger] r@[u])@ == rotated(
                bit_weights@,
                recipe.unique_rotations@[u] as int,
            ),
{
    let mut out: Vec<[F; 64]> = Vec::new();
    let mut u: usize = 0;
    while u < recipe.unique_rotations.len()
        invariant
            u <= recipe.unique_rotations@.len(),
            out@.len() == u,
            forall|w: int|
                0 <= w < u ==> (#[trigger] out@[w])@ == rotated(
                    bit_weights@,
                    recipe.unique_rotations@[w] as int,
                ),
        decreases recipe.unique_rotations@.len() - u,
    {
        out.push(rotate_bit_lagrange_weights(bit_weights, recipe.unique_rotations[u]));
        u = u + 1;
    }
    out
}

/// Adds up the weighted rotated views of one lane.
fn lane_view_sum<F: Field>(
    recipe: &LinearRecipeStatic,
    view_weights: &[F],
    rotated_weights: &[[F; 64]],
    values: &Block<F>,
    lane: usize,
    Ghost(bit_weights): Ghost<Seq<F>>,
) -> (r: F)
    requires
        recipe.is_valid(),
        lane < 25,
        view_weights@.len() == recipe.rot_views@.len(),
        rotated_weights@.len() == recipe.unique_rotations@.len(),
        forall|u: int|
            0 <= u < rotated_weights@.len() ==> (#[trigger] rotated_weights@[u])@ == rotated(
                bit_weights,
                recipe.unique_rotations@[u] as int,
            ),
    ensures
        r == sum(
            values_of_lane(
                recipe.rot_views@,
                lane as int,
                pointwise_times(
                    view_weights@,
                    view_dots(recipe.rot_views@, lanes_of(*values), bit_weights),
                ),
            ),
        ),
{
    let ghost views = recipe.rot_views@;
    let ghost products = pointwise_times(
        view_weights@,
        view_dots(views, lanes_of(*values), bit_weights),
    );
    let ghost terms = values_of_lane(views, lane as int, products);
    let list = &recipe.lane_views[lane];
    let mut acc: F = F::zero();
    let mut a: usize = 0;
    while a < list.len()
        invariant
            a <= list@.len(),
            recipe.is_valid(),
            lane < 25,
            views == recipe.rot_views@,
            *list == recipe.lane_views@[lane as int],
            view_weights@.len() == recipe.rot_views@.len(),
            rotated_weights@.len() == recipe.unique_rotations@.len(),
            forall|u: int|
                0 <= u < rotated_weights@.len() ==> (#[trigger] rotated_weights@[u])@ == rotated(
                    bit_weights,
                    recipe.unique_rotations@[u] as int,
                ),
            products == pointwise_times(
                view_weights@,
                view_dots(views, lanes_of(*values), bit_weights),
            ),
            terms == values_of_lane(views, lane as int, products),
            acc == sum(terms.take(a as int)),
        decreases list@.len() - a,
    {
        let (rot, index) = list[a];
        proof {
            lemma_views_of_lane(views, lane as int, a as int);
            assert(views[index as int].rot < 64);
            lemma_sum_take(terms, a as int);
        }
        let coeff: F = view_weights[index];
        proof {
            lemma_times_zero(view_dot(lanes_of(*values), bit_weights)(views[index as int]));
            F::law_plus_zero(acc);
        }
        if !coeff.is_equal(F::zero()) {
            assert(recipe.rotation_index@.contains_key(views[index as int].rot));
            match recipe.rotation_index.get(&rot) {
                Some(place) => {
                    acc = acc.add(coeff.mul(dot_64(&values[lane], &rotated_weights[*place])));
                },
                None => {
                    assert(false);
                },
            }
        }
        a = a + 1;
    }
    assert(terms.take(a as int) =~= terms);
    acc
}

/// Adds up the weighted rotated views of a state.
fn weighted_view_sum<F: Field>(
    recipe: &LinearRecipeStatic,
    view_weights: &[F],
    rotated_weights: &[[F; 64]],
    values: &Block<F>,
    Ghost(bit_weights): Ghost<Seq<F>>,
) -> (r: F)
    requires
        recipe.is_valid(),
        view_weights@.len() == recipe.rot_views@.len(),
        rotated_weights@.len() == recipe.unique_rotations@.len(),
        forall|u: int|
            0 <= u < rotated_weights@.len() ==> (#[trigger] rotated_weights@[u])@ == rotated(
                bit_weights,
                recipe.unique_rotations@[u] as int,
            ),
    ensures
        r == dot(view_weights@, view_dots(recipe.rot_views@, lanes_of(*values), bit_weights)),
{
    let ghost views = recipe.rot_views@;
    let ghost products = pointwise_times(
        view_weights@,
        view_dots(views, lanes_of(*values), bit_weights),
    );
    let ghost by_lane = Seq::new(25, |l: int| sum(values_of_lane(views, l, products)));
    let mut acc: F = F::zero();
    let mut lane: usize = 0;
    while lane < 25
        invariant
            lane <= 25,
            recipe.is_valid(),
            views == recipe.rot_views@,
            view_weights@.len() == recipe.rot_views@.len(),
            rotated_weights@.len() == recipe.unique_rotations@.len(),
            forall|u: int|
                0 <= u < rotated_weights@.len() ==> (#[trigger] rotated_weights@[u])@ == rotated(
                    bit_weights,
                    recipe.unique_rotations@[u] as int,
                ),
            products == pointwise_times(
                view_weights@,
                view_dots(views, lanes_of(*values), bit_weights),
            ),
            by_lane == Seq::new(25, |l: int| sum(values_of_lane(views, l, products))),
            acc == sum(by_lane.take(lane as int)),
        decreases 25 - lane,
    {
        proof {
            lemma_sum_take(by_lane, lane as int);
        }
        let part: F = lane_view_sum(
            recipe,
            view_weights,
            rotated_weights,
            values,
            lane,
            Ghost(bit_weights),
        );
        acc = acc.add(part);
        lane = lane + 1;
    }
    proof {
        assert(by_lane.take(25) =~= by_lane);
        assert forall|j: int| 0 <= j < views.len() implies (#[trigger] views[j]).lane < 25 by {}
        lemma_sum_by_lanes(views, products);
    }
    acc
}

/// The weighted values that the instances of lane tables take on before chi.
pub open spec fn linear_values<F: Field>(
    instances: Seq<Seq<Seq<F>>>,
    lane_weights: Seq<F>,
    bit_weights: Seq<F>,
) -> Seq<F> {
    Seq::new(instances.len(), |i: int| linear_value(instances[i], lane_weights, bit_weights))
}

/// Weights the rotated views of each instance.
fn materialize_weighted_rot_view_sum<F: Field>(
    recipe: &LinearRecipeStatic,
    input: &LaneTables<F>,
    view_weights: &[F],
    bit_weights: &[F; 64],
) -> (r: Vec<F>)
    requires
        recipe.is_valid(),
        view_weights@.len() == recipe.rot_views@.len(),
        forall|lane: int|
            0 <= lane < 25 ==> (#[trigger] input[lane])@.len() == input[0]@.len(),
    ensures
        r@.len() == input[0]@.len() / 64,
        forall|i: int|
            0 <= i < r@.len() ==> #[trigger] r@[i] == dot(
                view_weights@,
                view_dots(recipe.rot_views@, instance_lanes(*input, i), bit_weights@),
            ),
{
    let rotated_weights = rotate_weights(recipe, bit_weights);
    let blocks = lane_block_tables(input);
    let ghost instances = table_instances(*input, (input[0]@.len() / 64) as nat);
    assert(blocks@.len() == all_lanes_of(blocks@).len());
    let mut out: Vec<F> = Vec::with_capacity(blocks.len());
    let mut i: usize = 0;
    while i < blocks.len()
        invariant
            i <= blocks@.len(),
            recipe.is_valid(),
            view_weights@.len() == recipe.rot_views@.len(),
            rotated_weights@.len() == recipe.unique_rotations@.len(),
            forall|u: int|
                0 <= u < rotated_weights@.len() ==> (#[trigger] rotated_weights@[u])@ == rotated(
                    bit_weights@,
                    recipe.unique_rotations@[u] as int,
                ),
            instances == table_instances(*input, (input[0]@.len() / 64) as nat),
            all_lanes_of(blocks@) == instances,
            blocks@.len() == instances.len(),
            out@.len() == i,
            forall|j: int|
                0 <= j < i ==> #[trigger] out@[j] == dot(
                    view_weights@,
                    view_dots(recipe.rot_views@, instance_lanes(*input, j), bit_weights@),
                ),
        decreases blocks@.len() - i,
    {
        let value: F = weighted_view_sum(
            recipe,
            view_weights,
            rotated_weights.as_slice(),
            &blocks[i],
            Ghost(bit_weights@),
        );
        assert(all_lanes_of(blocks@)[i as int] == lanes_of(blocks@[i as int]));
        out.push(value);
        i = i + 1;
    }
    out
}

/// Materialize the mixed linear polynomial induced by the current lane weights.
///
/// Entry `i` is the weighted value that instance `i` takes on after `theta`, `rho` and `pi`.
pub fn materialize_mixed_linear_table<F: Field>(
    input: &LaneTables<F>,
    bit_weights: &[F; 64],
    lane_weights: [F; 25],
) -> (r: Vec<F>)
    requires
        input[0]@.len() >= 64,
        is_power_of_two(input[0]@.len() as int),
        forall|lane: int|
            0 <= lane < 25 ==> (#[trigger] input[lane])@.len() == input[0]@.len(),
    ensures
        r@ == linear_values(
            table_instances(*input, (input[0]@.len() / 64) as nat),
            lane_weights@,
            bit_weights@,
        ),
{
    let recipe = linear_recipe_static();
    let weights = view_weights_from_lane_weights(&recipe, &lane_weights);
    let out = materialize_weighted_rot_view_sum(&recipe, input, weights.as_slice(), bit_weights);
    let ghost instances = table_instances(*input, (input[0]@.len() / 64) as nat);
    proof {
        assert forall|i: int| 0 <= i < out@.len() implies out@[i] == linear_value(
            instances[i],
            lane_weights@,
            bit_weights@,
        ) by {
            lemma_weighted_views(
                recipe.rot_views@,
                instances[i],
                lane_weights@,
                bit_weights@,
            );
        }
        assert(out@ =~= linear_values(instances, lane_weights@, bit_weights@));
    }
    out
}

/// Evaluates the folded input lanes at a high point.
pub fn evaluate_input_lanes_at_point<F: Field>(
    input: &LaneTables<F>,
    high_point: &[F],
    bit_weights: &[F; 64],
) -> (r: [F; 25])
    requires
        forall|lane: int|
            0 <= lane < 25 ==> (#[trigger] input[lane])@.len() == 64 * pow2(high_point@.len()),
    ensures
        r@ == lane_values(
            combined(eq_table(high_point@), table_instances(*input, pow2(high_point@.len()))),
            bit_weights@,
        ),
{
    let lane_low_vectors = evaluate_lane_low_vectors(input, high_point);
    fold_low_vectors(&lane_low_vectors, bit_weights)
}

/// Evaluates the folded input lanes and the mixed linear polynomial at a high point.
pub fn evaluate_input_lanes_and_linear_at_point<F: Field>(
    input: &LaneTables<F>,
    lane_weights: &[F; 25],
    high_point: &[F],
    bit_weights: &[F; 64],
) -> (r: ([F; 25], F))
    requires
        forall|lane: int|
            0 <= lane < 25 ==> (#[trigger] input[lane])@.len() == 64 * pow2(high_point@.len()),
    ensures
        ({
            let folded = combined(
                eq_table(high_point@),
                table_instances(*input, pow2(high_point@.len())),
            );
            &&& r.0@ == lane_values(folded, bit_weights@)
            &&& r.1 == linear_value(folded, lane_weights@, bit_weights@)
        }),
{
    let recipe = linear_recipe_static();
    let lane_low_vectors = evaluate_lane_low_vectors(input, high_point);
    let input_evals = fold_low_vectors(&lane_low_vectors, bit_weights);
    let rotated_weights = rotate_weights(&recipe, bit_weights);
    let weights = view_weights_from_lane_weights(&recipe, lane_weights);
    let reduced_eval: F = weighted_view_sum(
        &recipe,
        weights.as_slice(),
        rotated_weights.as_slice(),
        &lane_low_vectors,
        Ghost(bit_weights@),
    );
    proof {
        lemma_weighted_views(
            recipe.rot_views@,
            lanes_of(lane_low_vectors),
            lane_weights@,
            bit_weights@,
        );
    }
    (input_evals, reduced_eval)
}

/// Whether all lane tables have `h` high variables beside the six of the bit index.
pub open spec fn has_high_vars<F>(tables: LaneTables<F>, h: nat) -> bool {
    forall|lane: int| 0 <= lane < 25 ==> (#[trigger] tables[lane])@.len() == 64 * pow2(h)
}

/// Whether all lane tables are tables of multilinear polynomials.
pub open spec fn are_tables<F>(tables: LaneTables<F>) -> bool {
    forall|lane: int| 0 <= lane < 25 ==> is_power_of_two((#[trigger] tables[lane])@.len() as int)
}

/// Whether all lane tables have the same length.
pub open spec fn same_lengths<F>(tables: LaneTables<F>) -> bool {
    forall|lane: int| 0 <= lane < 25 ==> (#[trigger] tables[lane])@.len() == tables[0]@.len()
}

/// Decides whether all lane tables have the same length.
pub fn check_same_lengths<F>(tables: &LaneTables<F>) -> (r: bool)
    ensures
        r == same_lengths(*tables),
{
    let mut lane: usize = 0;
    while lane < 25
        invariant
            lane <= 25,
            forall|l: int|
                0 <= l < lane ==> (#[trigger] tables[l])@.len() == tables[0]@.len(),
        decreases 25 - lane,
    {
        if tables[lane].len() != tables[0].len() {
            return false;
        }
        lane = lane + 1;
    }
    true
}

/// A table with at least 64 entries has at least six variables, and as many high variables as
/// its length says.
proof fn lemma_high_vars(len: nat, k: nat, h: nat)
    requires
        len == pow2(k),
    ensures
        len >= 64 <==> k >= 6,
        k >= 6 ==> (len == 64 * pow2(h) <==> k == h + 6),
{
    lemma2_to64();
    if k >= 6 {
        lemma_whole_blocks(k);
        let m = (k - 6) as nat;
        if m < h {
            lemma_pow2_strict(m, h);
        } else if h < m {
            lemma_pow2_strict(h, m);
        }
    } else {
        lemma_pow2_strict(k, 6);
    }
}

/// Powers of two grow strictly with the exponent.
pub proof fn lemma_pow2_strict(a: nat, b: nat)
    requires
        a < b,
    ensures
        pow2(a) < pow2(b),
    decreases b,
{
    lemma_pow2_unfold(b);
    lemma_pow2_pos((b - 1) as nat);
    if a < b - 1 {
        lemma_pow2_strict(a, (b - 1) as nat);
    }
}

/// Checks that the input tables and the high point of a reduction fit together.
pub fn validate_reduction<F: Field>(
    input: &LaneTables<F>,
    reduction: &LinearRoundReduction<F>,
) -> (r: Result<(), Error>)
    requires
        are_tables(*input),
    ensures
        r == if input[0]@.len() < 64 {
            Err::<(), Error>(Error::InvalidClaim(ClaimFault::LaneTablesTooSmall))
        } else if !same_lengths(*input) {
            Err(Error::InvalidClaim(ClaimFault::InputDimensions))
        } else if !has_high_vars(*input, reduction.pre_chi_claim.high_point@.len()) {
            Err(Error::InvalidClaim(ClaimFault::HighPointLength))
        } else {
            Ok(())
        },
{
    let ghost h = reduction.pre_chi_claim.high_point@.len();
    assert(is_power_of_two(input[0]@.len() as int));
    let log_len: usize = log2_exact(input[0].len());
    proof {
        lemma_high_vars(input[0]@.len(), log_len as nat, h);
    }
    if log_len < 6 {
        return Err(Error::InvalidClaim(ClaimFault::LaneTablesTooSmall));
    }
    if !check_same_lengths(input) {
        return Err(Error::InvalidClaim(ClaimFault::InputDimensions));
    }
    if reduction.pre_chi_claim.high_point.len() != log_len - 6 {
        assert(input[0]@.len() != 64 * pow2(h));
        return Err(Error::InvalidClaim(ClaimFault::HighPointLength));
    }
    Ok(())
}

/// The prover of the linear reduction: a table, the point at which it is evaluated, and either the
/// claimed value or a pending round polynomial.
#[derive(Debug, Clone, PartialEq, Eq)]
pub struct LinearMleCheckProver<F> {
    pub multilinear: Vec<F>,
    pub last_coeffs_or_eval: RoundCoeffsOrEval<F>,
    pub point: EvalPoint<F>,
}

/// The value at one of the linear round polynomial of a table.
pub open spec fn linear_y_1<F: Field>(table: Seq<F>, point: Seq<F>) -> F {
    dot(eq_table(point.drop_last()), table.skip((table.len() / 2) as int))
}

impl<F: Field> LinearMleCheckProver<F> {
    /// Whether the table has as many variables as the point, and a pending round polynomial
    /// belongs to a variable.
    pub open spec fn is_valid(&self) -> bool {
        &&& self.multilinear@.len() == pow2(self.point.coordinates@.len())
        &&& self.last_coeffs_or_eval is Coeffs ==> self.point.coordinates@.len() > 0
    }

    /// Starts the reduction of a claimed evaluation.
    pub fn new(multilinear: Vec<F>, eval_point: Vec<F>, eval_claim: F) -> (r: Result<
        Self,
        SumcheckError,
    >)
        requires
            is_power_of_two(multilinear@.len() as int),
        ensures
            multilinear@.len() != pow2(eval_point@.len()) ==> r == Err::<Self, SumcheckError>(
                SumcheckError::MultilinearSizeMismatch,
            ),
            multilinear@.len() == pow2(eval_point@.len()) ==> (r matches Ok(prover)
                && prover.is_valid() && prover.multilinear == multilinear
                && prover.point.coordinates == eval_point && prover.last_coeffs_or_eval
                == RoundCoeffsOrEval::Eval(eval_claim)),
    {
        let log_len: usize = log2_exact(multilinear.len());
        if log_len != eval_point.len() {
            proof {
                if log_len < eval_point@.len() {
                    lemma_pow2_strict(log_len as nat, eval_point@.len());
                } else {
                    lemma_pow2_strict(eval_point@.len(), log_len as nat);
                }
            }
            return Err(SumcheckError::MultilinearSizeMismatch);
        }
        Ok(
            LinearMleCheckProver {
                multilinear,
                last_coeffs_or_eval: RoundCoeffsOrEval::Eval(eval_claim),
                point: EvalPoint { coordinates: eval_point },
            },
        )
    }

    /// Returns the number of variables that are still open.
    pub fn n_vars(&self) -> (r: usize)
        ensures
            r == self.point.coordinates@.len(),
    {
        self.point.n_vars_remaining()
    }

    /// Returns the number of claims that the reduction is about.
    pub fn n_claims(&self) -> (r: usize)
        ensures
            r == 1,
    {
        1
    }

    /// Returns the coordinates that are still open.
    pub fn eval_point(&self) -> (r: &[F])
        ensures
            r@ == self.point.coordinates@,
    {
        self.point.coordinates.as_slice()
    }

    /// Computes the next round polynomial.
    pub fn execute(&mut self) -> (r: Result<Vec<RoundCoeffs<F>>, SumcheckError>)
        requires
            old(self).is_valid(),
            old(self).last_coeffs_or_eval is Eval ==> old(self).point.coordinates@.len() > 0,
        ensures
            final(self).is_valid(),
            final(self).multilinear == old(self).multilinear,
            final(self).point == old(self).point,
            match old(self).last_coeffs_or_eval {
                RoundCoeffsOrEval::Coeffs(_) => r == Err::<Vec<RoundCoeffs<F>>, SumcheckError>(
                    SumcheckError::ExpectedFold,
                ) && *final(self) == *old(self),
                RoundCoeffsOrEval::Eval(claim) => {
                    let point = old(self).point.coordinates@;
                    let coeffs = linear_coeffs(
                        claim,
                        point.last(),
                        linear_y_1(old(self).multilinear@, point),
                    );
                    &&& r matches Ok(rounds) && rounds@.len() == 1 && rounds@[0].coeffs@ == coeffs
                    &&& final(self).last_coeffs_or_eval matches RoundCoeffsOrEval::Coeffs(pending)
                        && pending.coeffs@ == coeffs
                },
            },
    {
        let last_eval: F = match &self.last_coeffs_or_eval {
            RoundCoeffsOrEval::Eval(eval) => *eval,
            RoundCoeffsOrEval::Coeffs(_) => {
                return Err(SumcheckError::ExpectedFold);
            },
        };
        let ghost point = self.point.coordinates@;
        assert(self.multilinear.len() <= usize::MAX);
        let eq_expansion = self.point.eq_expansion();
        let half: usize = self.multilinear.len() / 2;
        proof {
            lemma_pow2_unfold(point.len());
        }
        let ghost upper = self.multilinear@.skip(half as int);
        let ghost terms = pointwise_times(eq_table(point.drop_last()), upper);
        let mut y_1: F = F::zero();
        let mut i: usize = 0;
        while i < half
            invariant
                i <= half,
                self.multilinear@.len() == 2 * half,
                self.multilinear@.len() <= usize::MAX,
                eq_expansion@.len() == half,
                upper == self.multilinear@.skip(half as int),
                terms == pointwise_times(eq_expansion@, upper),
                y_1 == sum(terms.take(i as int)),
            decreases half - i,
        {
            proof {
                lemma_sum_take(terms, i as int);
            }
            y_1 = y_1.add(eq_expansion[i].mul(self.multilinear[half + i]));
            i = i + 1;
        }
        assert(terms.take(half as int) =~= terms);
        let alpha: F = self.point.next_coordinate();
        let round_coeffs = linear_round_coeffs(last_eval, alpha, y_1);
        self.last_coeffs_or_eval = RoundCoeffsOrEval::Coeffs(round_coeffs.copied());
        let mut out: Vec<RoundCoeffs<F>> = Vec::with_capacity(1);
        out.push(round_coeffs);
        Ok(out)
    }

    /// Fixes the highest open variable to the challenge.
    pub fn fold(&mut self, challenge: F) -> (r: Result<(), SumcheckError>)
        requires
            old(self).is_valid(),
        ensures
            final(self).is_valid(),
            match old(self).last_coeffs_or_eval {
                RoundCoeffsOrEval::Eval(_) => r == Err::<(), SumcheckError>(
                    SumcheckError::ExpectedExecute,
                ) && *final(self) == *old(self),
                RoundCoeffsOrEval::Coeffs(coeffs) => {
                    &&& r == Ok::<(), SumcheckError>(())
                    &&& final(self).multilinear@ == folded_high(old(self).multilinear@, challenge)
                    &&& final(self).point.coordinates@ == old(self).point.coordinates@.drop_last()
                    &&& final(self).last_coeffs_or_eval == RoundCoeffsOrEval::Eval(
                        polynomial_at(coeffs.coeffs@, challenge),
                    )
                },
            },
    {
        let eval: F = match &self.last_coeffs_or_eval {
            RoundCoeffsOrEval::Coeffs(coeffs) => coeffs.evaluate(challenge),
            RoundCoeffsOrEval::Eval(_) => {
                return Err(SumcheckError::ExpectedExecute);
            },
        };
        proof {
            lemma_pow2_unfold(self.point.coordinates@.len());
        }
        fold_highest_var_inplace(&mut self.multilinear, challenge);
        self.point.fold();
        self.last_coeffs_or_eval = RoundCoeffsOrEval::Eval(eval);
        Ok(())
    }

    /// Returns the value of the table once all variables are fixed.
    pub fn finish(self) -> (r: Result<Vec<F>, SumcheckError>)
        requires
            self.is_valid(),
        ensures
            self.point.coordinates@.len() > 0 ==> r == Err::<Vec<F>, SumcheckError>(
                match self.last_coeffs_or_eval {
                    RoundCoeffsOrEval::Coeffs(_) => SumcheckError::ExpectedFold,
                    RoundCoeffsOrEval::Eval(_) => SumcheckError::ExpectedExecute,
                },
            ),
            self.point.coordinates@.len() == 0 ==> (r matches Ok(evals) && evals@
                == self.multilinear@),
    {
        if self.n_vars() > 0 {
            return Err(
                match self.last_coeffs_or_eval {
                    RoundCoeffsOrEval::Coeffs(_) => SumcheckError::ExpectedFold,
                    RoundCoeffsOrEval::Eval(_) => SumcheckError::ExpectedExecute,
                },
            );
        }
        proof {
            lemma2_to64();
        }
        let mut out: Vec<F> = Vec::with_capacity(1);
        out.push(self.multilinear[0]);
        assert(out@ =~= self.multilinear@);
        Ok(out)
    }
}

/// Returns the challenges of a reduction from the lowest variable on.
///
/// The rounds fix the highest variable first.
pub fn reversed<F: Copy>(challenges: &[F]) -> (r: Vec<F>)
    ensures
        r@ == challenges@.reverse(),
{
    let n: usize = challenges.len();
    let mut out: Vec<F> = Vec::with_capacity(n);
    let mut i: usize = 0;
    while i < n
        invariant
            i <= n,
            n == challenges@.len(),
            out@ == challenges@.reverse().take(i as int),
        decreases n - i,
    {
        out.push(challenges[n - 1 - i]);
        i = i + 1;
    }
    assert(challenges@.reverse().take(n as int) =~= challenges@.reverse());
    out
}

/// Starts the prover side of one `theta+rho+pi` linear reduction step.
pub fn start_round<F: BinaryField>(
    input: &LaneTables<F>,
    reduction: &LinearRoundReduction<F>,
) -> (r: Result<LinearMleCheckProver<F>, Error>)
    requires
        are_tables(*input),
    ensures
        input[0]@.len() < 64 ==> r == Err::<LinearMleCheckProver<F>, Error>(
            Error::InvalidClaim(ClaimFault::LaneTablesTooSmall),
        ),
        input[0]@.len() >= 64 && !same_lengths(*input) ==> r == Err::<
            LinearMleCheckProver<F>,
            Error,
        >(Error::InvalidClaim(ClaimFault::InputDimensions)),
        input[0]@.len() >= 64 && same_lengths(*input) && !has_high_vars(
            *input,
            reduction.pre_chi_claim.high_point@.len(),
        ) ==> r == Err::<LinearMleCheckProver<F>, Error>(
            Error::InvalidClaim(ClaimFault::HighPointLength),
        ),
        has_high_vars(*input, reduction.pre_chi_claim.high_point@.len()) ==> (r matches Ok(prover)
            && prover.is_valid() && prover.multilinear@ == linear_values(
            table_instances(*input, pow2(reduction.pre_chi_claim.high_point@.len())),
            reduction.pre_chi_claim.lane_weights@,
            bit_weights_at(reduction.pre_chi_claim.bit_challenge),
        ) && prover.point.coordinates@ == reduction.pre_chi_claim.high_point@
            && prover.last_coeffs_or_eval == RoundCoeffsOrEval::Eval(
            reduction.pre_chi_claim.mixed_eval,
        )),
{
    proof {
        lemma_pow2_pos(reduction.pre_chi_claim.high_point@.len());
        assert(has_high_vars(*input, reduction.pre_chi_claim.high_point@.len()) ==> input[0]@.len()
            == 64 * pow2(reduction.pre_chi_claim.high_point@.len()));
    }
    match validate_reduction(input, reduction) {
        Ok(()) => {},
        Err(error) => {
            return Err(error);
        },
    }
    let bit_weights = bit_lagrange_weights(reduction.pre_chi_claim.bit_challenge);
    assert(is_power_of_two(input[0]@.len() as int));
    let table = materialize_mixed_linear_table(
        input,
        &bit_weights,
        reduction.pre_chi_claim.lane_weights,
    );
    assert(input[0]@.len() / 64 == pow2(reduction.pre_chi_claim.high_point@.len()));
    assert(is_power_of_two(table@.len() as int));
    match LinearMleCheckProver::new(
        table,
        copy_vector(reduction.pre_chi_claim.high_point.as_slice()),
        reduction.pre_chi_claim.mixed_eval,
    ) {
        Ok(prover) => Ok(prover),
        Err(error) => Err(Error::SumcheckProver(error)),
    }
}

/// Whether `output` is what the input tables give at the challenges of a reduction.
pub open spec fn is_linear_output<F: BinaryField>(
    output: LinearRoundOutput<F>,
    input: LaneTables<F>,
    reduction: LinearRoundReduction<F>,
    challenges: Seq<F>,
    reduced_eval: F,
) -> bool {
    let point = challenges.reverse();
    &&& output.reduced_high_point@ == point
    &&& output.input_evals@ == lane_values(
        combined(eq_table(point), table_instances(input, pow2(point.len()))),
        bit_weights_at(reduction.pre_chi_claim.bit_challenge),
    )
    &&& output.reduced_eval == reduced_eval
}

/// Prove one `theta+rho+pi` linear reduction step, from the challenges of its rounds and the
/// evaluations that its prover ended with.
pub fn prove_round<F: BinaryField>(
    input: &LaneTables<F>,
    reduction: &LinearRoundReduction<F>,
    challenges: &[F],
    multilinear_evals: &[F],
) -> (r: Result<LinearRoundOutput<F>, Error>)
    requires
        has_high_vars(*input, reduction.pre_chi_claim.high_point@.len()),
        challenges@.len() == reduction.pre_chi_claim.high_point@.len(),
    ensures
        multilinear_evals@.len() == 0 ==> r == Err::<LinearRoundOutput<F>, Error>(
            Error::InvalidClaim(ClaimFault::EvaluationCount),
        ),
        multilinear_evals@.len() > 0 ==> (r matches Ok(output) && is_linear_output(
            output,
            *input,
            *reduction,
            challenges@,
            multilinear_evals@[0],
        )),
{
    if multilinear_evals.len() == 0 {
        return Err(Error::InvalidClaim(ClaimFault::EvaluationCount));
    }
    let bit_weights = bit_lagrange_weights(reduction.pre_chi_claim.bit_challenge);
    let reduced_high_point = reversed(challenges);
    let input_evals = evaluate_input_lanes_at_point(
        input,
        reduced_high_point.as_slice(),
        &bit_weights,
    );
    Ok(LinearRoundOutput { reduced_high_point, input_evals, reduced_eval: multilinear_evals[0] })
}

/// The value of the mixed linear polynomial of the input tables at the challenges of a reduction.
pub open spec fn reduced_linear_eval<F: BinaryField>(
    input: LaneTables<F>,
    reduction: LinearRoundReduction<F>,
    challenges: Seq<F>,
) -> F {
    let point = challenges.reverse();
    linear_value(
        combined(eq_table(point), table_instances(input, pow2(point.len()))),
        reduction.pre_chi_claim.lane_weights@,
        bit_weights_at(reduction.pre_chi_claim.bit_challenge),
    )
}

/// Verify one `theta+rho+pi` linear reduction step against explicit input tables, from the
/// challenges of its rounds and the claim that they ended with.
pub fn verify_round<F: BinaryField>(
    input: &LaneTables<F>,
    reduction: &LinearRoundReduction<F>,
    challenges: &[F],
    eval: F,
) -> (r: Result<LinearRoundOutput<F>, Error>)
    requires
        are_tables(*input),
        challenges@.len() == reduction.pre_chi_claim.high_point@.len(),
    ensures
        input[0]@.len() < 64 ==> r == Err::<LinearRoundOutput<F>, Error>(
            Error::InvalidClaim(ClaimFault::LaneTablesTooSmall),
        ),
        input[0]@.len() >= 64 && !same_lengths(*input) ==> r == Err::<
            LinearRoundOutput<F>,
            Error,
        >(Error::InvalidClaim(ClaimFault::InputDimensions)),
        input[0]@.len() >= 64 && same_lengths(*input) && !has_high_vars(
            *input,
            reduction.pre_chi_claim.high_point@.len(),
        ) ==> r == Err::<LinearRoundOutput<F>, Error>(
            Error::InvalidClaim(ClaimFault::HighPointLength),
        ),
        has_high_vars(*input, reduction.pre_chi_claim.high_point@.len()) && reduced_linear_eval(
            *input,
            *reduction,
            challenges@,
        ) != eval ==> r == Err::<LinearRoundOutput<F>, Error>(Error::InvalidAssert),
        has_high_vars(*input, reduction.pre_chi_claim.high_point@.len()) && reduced_linear_eval(
            *input,
            *reduction,
            challenges@,
        ) == eval ==> (r matches Ok(output) && is_linear_output(
            output,
            *input,
            *reduction,
            challenges@,
            eval,
        )),
{
    proof {
        lemma_pow2_pos(reduction.pre_chi_claim.high_point@.len());
        assert(has_high_vars(*input, reduction.pre_chi_claim.high_point@.len()) ==> input[0]@.len()
            == 64 * pow2(reduction.pre_chi_claim.high_point@.len()));
    }
    match validate_reduction(input, reduction) {
        Ok(()) => {},
        Err(error) => {
            return Err(error);
        },
    }
    let reduced_high_point = reversed(challenges);
    let bit_weights = bit_lagrange_weights(reduction.pre_chi_claim.bit_challenge);
    let (input_evals, reduced_eval) = evaluate_input_lanes_and_linear_at_point(
        input,
        &reduction.pre_chi_claim.lane_weights,
        reduced_high_point.as_slice(),
        &bit_weights,
    );
    if !reduced_eval.is_equal(eval) {
        return Err(Error::InvalidAssert);
    }
    Ok(LinearRoundOutput { reduced_high_point, input_evals, reduced_eval })
}

} // verus!
