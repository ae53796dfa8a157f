//! The `theta+rho+pi` substep as a sparse sum of rotated lanes.

use std::collections::BTreeMap;

use vstd::prelude::*;

use super::trace::{idx, pi_source, R};
use crate::field::{
    lemma_plus_times, lemma_times_zero, lemma_zero_plus, BinaryField, Field,
};
use crate::multilinear::{
    lemma_sum_plus, lemma_sum_zeros, pointwise_plus, sum,
};

verus! {

/// A rotated view of one input lane.
#[derive(Debug, Clone, Copy, PartialEq, Eq, PartialOrd, Ord, Hash, Structural)]
pub struct RotView {
    pub lane: usize,
    pub rot: u32,
}

/// One sparse term in the linear round recipe.
#[derive(Debug, Clone, Copy, PartialEq, Eq)]
pub struct LinearRecipeTerm<F> {
    pub coeff: F,
    pub rot_view_index: usize,
}

/// Sparse per-output-lane recipe for reconstructing `theta+rho+pi`.
pub type LinearRecipe<F> = Vec<Vec<LinearRecipeTerm<F>>>;

/// The deduplicated rotated views and, for each output lane, how often it takes up each of them.
#[derive(Debug)]
pub struct LinearRecipeStatic {
    pub rot_views: Vec<RotView>,
    pub recipe_counts: Vec<Vec<(usize, u8)>>,
    pub lane_views: Vec<Vec<(u32, usize)>>,
    pub unique_rotations: Vec<u32>,
    pub rotation_index: BTreeMap<u32, usize>,
}

/// The rotated lanes that add up to the image of lane `source` under theta and rho: the lane
/// itself, and the two neighbouring columns, the second of them rotated by one more.
pub open spec fn source_terms(source: int) -> Seq<RotView> {
    let rot = R[source] % 64;
    Seq::new(
        11,
        |k: int|
            if k == 0 {
                RotView { lane: source as usize, rot }
            } else if k % 2 == 1 {
                RotView { lane: ((source % 5 + 4) % 5 + 5 * ((k - 1) / 2)) as usize, rot }
            } else {
                RotView {
                    lane: ((source % 5 + 1) % 5 + 5 * ((k - 2) / 2)) as usize,
                    rot: ((rot + 1) % 64) as u32,
                }
            },
    )
}

/// The rotated lanes that add up to an output lane.
pub open spec fn lane_terms(output_lane: int) -> Seq<RotView> {
    source_terms(pi_source(output_lane))
}

/// The terms of the first `n` source lanes.
pub open spec fn terms_of_sources(n: nat) -> Seq<RotView>
    decreases n,
{
    if n == 0 {
        Seq::empty()
    } else {
        terms_of_sources((n - 1) as nat) + source_terms(n - 1)
    }
}

/// The elements of a sequence in the order in which they first occur.
pub open spec fn first_occurrences<A>(s: Seq<A>) -> Seq<A>
    decreases s.len(),
{
    if s.len() == 0 {
        Seq::empty()
    } else {
        let rest = first_occurrences(s.drop_last());
        if rest.contains(s.last()) {
            rest
        } else {
            rest.push(s.last())
        }
    }
}

/// How often a view occurs among the terms.
pub open spec fn multiplicity(terms: Seq<RotView>, view: RotView) -> nat
    decreases terms.len(),
{
    if terms.len() == 0 {
        0
    } else {
        multiplicity(terms.drop_last(), view) + if terms.last() == view {
            1nat
        } else {
            0nat
        }
    }
}

/// Whether `counts` lists, by ascending view index, how often each view occurs among the terms.
pub open spec fn counts_terms(
    counts: Seq<(usize, u8)>,
    views: Seq<RotView>,
    terms: Seq<RotView>,
) -> bool {
    &&& forall|a: int, b: int|
        0 <= a < b < counts.len() ==> (#[trigger] counts[a]).0 < (#[trigger] counts[b]).0
    &&& forall|a: int|
        0 <= a < counts.len() ==> {
            &&& (#[trigger] counts[a]).0 < views.len()
            &&& counts[a].1 == multiplicity(terms, views[counts[a].0 as int])
            &&& counts[a].1 > 0
        }
    &&& forall|j: int|
        0 <= j < views.len() && multiplicity(terms, #[trigger] views[j]) > 0 ==> exists|a: int|
            0 <= a < counts.len() && (#[trigger] counts[a]).0 == j
}

/// The rotations and indices of the views of one lane, in the order of the views.
pub open spec fn views_of_lane(views: Seq<RotView>, lane: int) -> Seq<(u32, usize)>
    decreases views.len(),
{
    if views.len() == 0 {
        Seq::empty()
    } else {
        let rest = views_of_lane(views.drop_last(), lane);
        if views.last().lane == lane {
            rest.push((views.last().rot, (views.len() - 1) as usize))
        } else {
            rest
        }
    }
}

/// The rotations of a sequence of views.
pub open spec fn rotations(views: Seq<RotView>) -> Seq<u32> {
    Seq::new(views.len(), |i: int| views[i].rot)
}

/// The deduplicated views of all source lanes.
pub open spec fn all_views() -> Seq<RotView> {
    first_occurrences(terms_of_sources(25))
}

/// Whether a map gives for each rotation its place in a list.
pub open spec fn is_index_of(index: Map<u32, usize>, list: Seq<u32>) -> bool {
    &&& forall|rot: u32| #[trigger] index.contains_key(rot) <==> list.contains(rot)
    &&& forall|rot: u32| #[trigger]
        index.contains_key(rot) ==> index[rot] < list.len() && list[index[rot] as int] == rot
}

/// How often a view is counted, by its index.
pub open spec fn count_at(counts: Map<usize, u8>, index: usize) -> int {
    if counts.contains_key(index) {
        counts[index] as int
    } else {
        0
    }
}

/// The place of a view in a list of views, or the end of the list where it is new.
pub open spec fn place_of(views: Seq<RotView>, view: RotView) -> int {
    if views.contains(view) {
        views.index_of(view)
    } else {
        views.len() as int
    }
}

/// Whether a map counts how often each view occurs among the terms.
pub open spec fn maps_counts(
    counts: Map<usize, u8>,
    views: Seq<RotView>,
    terms: Seq<RotView>,
) -> bool {
    &&& forall|j: usize| #[trigger]
        counts.contains_key(j) <==> j < views.len() && multiplicity(terms, views[j as int]) > 0
    &&& forall|j: usize| #[trigger]
        counts.contains_key(j) ==> counts[j] == multiplicity(terms, views[j as int])
}

impl LinearRecipeStatic {
    /// Whether this is the recipe of `theta+rho+pi`.
    pub open spec fn is_valid(&self) -> bool {
        let views = self.rot_views@;
        &&& views == all_views()
        &&& views.len() <= 275
        &&& views.no_duplicates()
        &&& forall|j: int| 0 <= j < views.len() ==> (#[trigger] views[j]).lane < 25 && views[j].rot < 64
        &&& forall|lane: int, k: int|
            0 <= lane < 25 && 0 <= k < 11 ==> views.contains(#[trigger] lane_terms(lane)[k])
        &&& self.recipe_counts@.len() == 25
        &&& forall|lane: int|
            0 <= lane < 25 ==> counts_terms(
                (#[trigger] self.recipe_counts@[lane])@,
                views,
                lane_terms(lane),
            )
        &&& self.lane_views@.len() == 25
        &&& forall|lane: int|
            0 <= lane < 25 ==> (#[trigger] self.lane_views@[lane])@ == views_of_lane(views, lane)
        &&& self.unique_rotations@ == first_occurrences(rotations(views))
        &&& is_index_of(self.rotation_index@, self.unique_rotations@)
        &&& forall|j: int|
            0 <= j < views.len() ==> self.rotation_index@.contains_key((#[trigger] views[j]).rot)
    }
}

/// The first occurrences hold the same elements, each of them once, and are no longer.
pub proof fn lemma_first_occurrences<A>(s: Seq<A>)
    ensures
        first_occurrences(s).no_duplicates(),
        first_occurrences(s).len() <= s.len(),
        forall|i: int| 0 <= i < s.len() ==> first_occurrences(s).contains(#[trigger] s[i]),
        forall|j: int|
            0 <= j < first_occurrences(s).len() ==> s.contains(#[trigger] first_occurrences(s)[j]),
    decreases s.len(),
{
    if s.len() > 0 {
        let rest = s.drop_last();
        let d = first_occurrences(rest);
        let f = first_occurrences(s);
        lemma_first_occurrences(rest);
        assert forall|i: int| 0 <= i < s.len() implies f.contains(#[trigger] s[i]) by {
            if i < s.len() - 1 {
                assert(s[i] == rest[i]);
                assert(d.contains(s[i]));
                let k = choose|k: int| 0 <= k < d.len() && d[k] == s[i];
                assert(f[k] == s[i]);
            } else if !d.contains(s[i]) {
                assert(f[d.len() as int] == s[i]);
            }
        }
        assert forall|j: int| 0 <= j < f.len() implies s.contains(#[trigger] f[j]) by {
            if j < d.len() {
                assert(rest.contains(d[j]));
                let k = choose|k: int| 0 <= k < rest.len() && rest[k] == d[j];
                assert(s[k] == f[j]);
            } else {
                assert(s[s.len() - 1] == f[j]);
            }
        }
    }
}

/// A view occurs among the terms exactly where its multiplicity is positive.
pub proof fn lemma_multiplicity(terms: Seq<RotView>, view: RotView)
    ensures
        multiplicity(terms, view) <= terms.len(),
        multiplicity(terms, view) > 0 <==> terms.contains(view),
    decreases terms.len(),
{
    if terms.len() > 0 {
        let rest = terms.drop_last();
        lemma_multiplicity(rest, view);
        if rest.contains(view) {
            let k = choose|k: int| 0 <= k < rest.len() && rest[k] == view;
            assert(terms[k] == view);
        }
        if terms.last() == view {
            assert(terms[terms.len() - 1] == view);
        }
        if terms.contains(view) && terms.last() != view {
            let k = choose|k: int| 0 <= k < terms.len() && terms[k] == view;
            assert(rest[k] == view);
        }
    }
}

/// The number that stands for a view in an index: the lane above, the rotation below.
pub open spec fn view_key(view: RotView) -> u128 {
    (view.lane * 0x1_0000_0000 + view.rot) as u128
}

/// Whether a map gives for each view its place in a list, so that no view is listed twice.
pub open spec fn indexes(index: Map<u128, usize>, views: Seq<RotView>) -> bool {
    &&& forall|key: u128| #[trigger]
        index.contains_key(key) ==> index[key] < views.len() && view_key(views[index[key] as int])
            == key
    &&& forall|i: int|
        0 <= i < views.len() ==> index.contains_key(view_key(#[trigger] views[i]))
            && index[view_key(views[i])] == i
}

/// Different views have different keys.
proof fn lemma_keys_differ(a: RotView, b: RotView)
    requires
        view_key(a) == view_key(b),
    ensures
        a == b,
{
    assert(a.lane * 0x1_0000_0000 + a.rot == b.lane * 0x1_0000_0000 + b.rot);
    assert(a.lane == b.lane && a.rot == b.rot);
}

/// Indexed views are distinct.
pub proof fn law_indexed_views_are_distinct(index: Map<u128, usize>, views: Seq<RotView>)
    requires
        indexes(index, views),
    ensures
        views.no_duplicates(),
{
    assert forall|i: int, j: int| 0 <= i < views.len() && 0 <= j < views.len() && i != j implies
        views[i] != views[j] by {
        assert(index[view_key(views[i])] == i);
        assert(index[view_key(views[j])] == j);
    }
}

/// Returns the number that stands for a view.
fn key_of(view: RotView) -> (r: u128)
    ensures
        r == view_key(view),
{
    (view.lane as u128) * 0x1_0000_0000 + (view.rot as u128)
}

/// Counts one more occurrence of a view, appending the view where it is new.
///
/// The index stays that of the views, the count of the view rises by one, and no other count
/// changes.
pub fn add_recipe_count(
    rot_view_indices: &mut BTreeMap<u128, usize>,
    rot_views: &mut Vec<RotView>,
    recipe_map: &mut BTreeMap<usize, u8>,
    rot_view: RotView,
)
    requires
        indexes(old(rot_view_indices)@, old(rot_views)@),
        count_at(
            old(recipe_map)@,
            place_of(old(rot_views)@, rot_view) as usize,
        ) < 255,
    ensures
        indexes(final(rot_view_indices)@, final(rot_views)@),
        final(rot_views)@ == if old(rot_views)@.contains(rot_view) {
            old(rot_views)@
        } else {
            old(rot_views)@.push(rot_view)
        },
        final(rot_views)@[place_of(old(rot_views)@, rot_view)] == rot_view,
        final(recipe_map)@ == old(recipe_map)@.insert(
            place_of(old(rot_views)@, rot_view) as usize,
            (count_at(old(recipe_map)@, place_of(old(rot_views)@, rot_view) as usize) + 1) as u8,
        ),
{
    let ghost before = rot_views@;
    let ghost index_before = rot_view_indices@;
    let key: u128 = key_of(rot_view);
    proof {
        if before.contains(rot_view) {
            let i = before.index_of(rot_view);
            assert(before[i] == rot_view);
            assert(index_before[key] == i);
        }
    }
    let found: Option<usize> = match rot_view_indices.get(&key) {
        Some(index) => Some(*index),
        None => None,
    };
    let index: usize = match found {
        Some(index) => {
            proof {
                lemma_keys_differ(before[index as int], rot_view);
                assert(before.contains(rot_view));
            }
            index
        },
        None => {
            let next: usize = rot_views.len();
            rot_views.push(rot_view);
            rot_view_indices.insert(key, next);
            proof {
                assert(!before.contains(rot_view));
                let views = rot_views@;
                assert forall|k: u128| #[trigger] rot_view_indices@.contains_key(k) implies
                    rot_view_indices@[k] < views.len() && view_key(
                    views[rot_view_indices@[k] as int],
                ) == k by {
                    if k != key {
                        assert(index_before.contains_key(k));
                    }
                }
                assert forall|i: int| 0 <= i < views.len() implies rot_view_indices@.contains_key(
                    view_key(#[trigger] views[i]),
                ) && rot_view_indices@[view_key(views[i])] == i by {
                    if i < next {
                        assert(before[i] == views[i]);
                        assert(view_key(before[i]) != key);
                    }
                }
            }
            next
        },
    };
    assert(place_of(before, rot_view) == index);
    let count: u8 = match recipe_map.get(&index) {
        Some(count) => *count,
        None => 0,
    };
    recipe_map.insert(index, count + 1);
}

/// One more term is counted where its view is counted once more.
proof fn lemma_counts_one_more(
    seen: Seq<RotView>,
    terms: Seq<RotView>,
    view: RotView,
    counts: Map<usize, u8>,
)
    requires
        seen.len() < 1000,
        terms.len() < 100,
        forall|k: int| 0 <= k < terms.len() ==> seen.contains(#[trigger] terms[k]),
        maps_counts(counts, first_occurrences(seen), terms),
    ensures
        ({
            let views = first_occurrences(seen);
            let more = first_occurrences(seen.push(view));
            let i = place_of(views, view) as usize;
            &&& more == if views.contains(view) {
                views
            } else {
                views.push(view)
            }
            &&& views.no_duplicates()
            &&& count_at(counts, i) < 100
            &&& maps_counts(
                counts.insert(i, (count_at(counts, i) + 1) as u8),
                more,
                terms.push(view),
            )
        }),
{
    let views = first_occurrences(seen);
    let more = first_occurrences(seen.push(view));
    let i = place_of(views, view) as usize;
    lemma_first_occurrences(seen);
    lemma_first_occurrences(seen.push(view));
    assert(seen.push(view).drop_last() =~= seen);
    assert(terms.push(view).drop_last() =~= terms);
    lemma_multiplicity(terms, view);
    assert(i == place_of(views, view));
    assert(more[i as int] == view);
    if !views.contains(view) && terms.contains(view) {
        let k = choose|k: int| 0 <= k < terms.len() && terms[k] == view;
        assert(seen.contains(terms[k]));
        let l = choose|l: int| 0 <= l < seen.len() && seen[l] == view;
        assert(views.contains(seen[l]));
    }
    assert(count_at(counts, i) == multiplicity(terms, view));
    let after = counts.insert(i, (count_at(counts, i) + 1) as u8);
    assert forall|j: usize| #[trigger]
        after.contains_key(j) <==> j < more.len() && multiplicity(terms.push(view), more[j as int])
            > 0 by {
        if j != i {
            assert(after.contains_key(j) == counts.contains_key(j));
            if j < more.len() {
                assert(more[j as int] != view);
            }
        }
    }
    assert forall|j: usize| #[trigger] after.contains_key(j) implies after[j] == multiplicity(
        terms.push(view),
        more[j as int],
    ) by {
        if j != i {
            assert(counts.contains_key(j));
            assert(more[j as int] != view);
        }
    }
}

/// Returns the counts of a map by ascending view index.
fn list_counts(
    recipe_map: &BTreeMap<usize, u8>,
    n: usize,
    Ghost(views): Ghost<Seq<RotView>>,
    Ghost(terms): Ghost<Seq<RotView>>,
) -> (r: Vec<(usize, u8)>)
    requires
        n == views.len(),
        maps_counts(recipe_map@, views, terms),
    ensures
        counts_terms(r@, views, terms),
{
    let mut out: Vec<(usize, u8)> = Vec::new();
    let mut j: usize = 0;
    while j < n
        invariant
            j <= n,
            n == views.len(),
            maps_counts(recipe_map@, views, terms),
            forall|a: int, b: int|
                0 <= a < b < out@.len() ==> (#[trigger] out@[a]).0 < (#[trigger] out@[b]).0,
            forall|a: int|
                0 <= a < out@.len() ==> {
                    &&& (#[trigger] out@[a]).0 < j
                    &&& out@[a].1 == multiplicity(terms, views[out@[a].0 as int])
                    &&& out@[a].1 > 0
                },
            forall|l: int|
                0 <= l < j && multiplicity(terms, #[trigger] views[l]) > 0 ==> exists|a: int|
                    0 <= a < out@.len() && (#[trigger] out@[a]).0 == l,
        decreases n - j,
    {
        let ghost before = out@;
        match recipe_map.get(&j) {
            Some(count) => {
                out.push((j, *count));
            },
            None => {},
        }
        proof {
            assert(recipe_map@.contains_key(j) <==> multiplicity(terms, views[j as int]) > 0);
            assert forall|l: int|
                0 <= l < j + 1 && multiplicity(terms, #[trigger] views[l]) > 0 implies exists|
                a: int,
            | 0 <= a < out@.len() && (#[trigger] out@[a]).0 == l by {
                if l < j {
                    let a = choose|a: int| 0 <= a < before.len() && (#[trigger] before[a]).0 == l;
                    assert(out@[a].0 == l);
                } else {
                    assert(out@[out@.len() - 1].0 == l);
                }
            }
        }
        j = j + 1;
    }
    out
}

/// Counts stay valid when views are appended that the terms do not hold.
proof fn lemma_counts_extend(
    counts: Seq<(usize, u8)>,
    views: Seq<RotView>,
    more: Seq<RotView>,
    terms: Seq<RotView>,
)
    requires
        counts_terms(counts, views, terms),
        more.len() >= views.len(),
        more.take(views.len() as int) == views,
        more.no_duplicates(),
        forall|k: int| 0 <= k < terms.len() ==> views.contains(#[trigger] terms[k]),
    ensures
        counts_terms(counts, more, terms),
{
    assert forall|j: int| 0 <= j < views.len() implies more[j] == views[j] by {
        assert(more.take(views.len() as int)[j] == views[j]);
    }
    assert forall|j: int| 0 <= j < more.len() && multiplicity(terms, #[trigger] more[j])
        > 0 implies exists|a: int| 0 <= a < counts.len() && (#[trigger] counts[a]).0 == j by {
        lemma_multiplicity(terms, more[j]);
        let k = choose|k: int| 0 <= k < terms.len() && terms[k] == more[j];
        assert(views.contains(terms[k]));
        let l = choose|l: int| 0 <= l < views.len() && views[l] == more[j];
        assert(more[l] == more[j]);
        assert(multiplicity(terms, views[j]) > 0);
    }
}

/// Appending an element keeps the first occurrences before it.
proof fn lemma_first_occurrences_push<A>(s: Seq<A>, a: A)
    ensures
        first_occurrences(s.push(a)).len() >= first_occurrences(s).len(),
        first_occurrences(s.push(a)).take(first_occurrences(s).len() as int) == first_occurrences(
            s,
        ),
{
    assert(s.push(a).drop_last() =~= s);
    assert(first_occurrences(s.push(a)).take(first_occurrences(s).len() as int)
        =~= first_occurrences(s));
}

/// Returns term `k` of a source lane.
fn source_term(source: usize, k: usize) -> (r: RotView)
    requires
        source < 25,
        k < 11,
    ensures
        r == source_terms(source as int)[k as int],
{
    let x: usize = source % 5;
    let rotation: u32 = R[source] % 64;
    if k == 0 {
        RotView { lane: source, rot: rotation }
    } else if k % 2 == 1 {
        RotView { lane: idx((x + 4) % 5, (k - 1) / 2), rot: rotation }
    } else {
        RotView { lane: idx((x + 1) % 5, (k - 2) / 2), rot: (rotation + 1) % 64 }
    }
}

/// Whether the views hold the terms of the first `n` source lanes and the counts refer to them.
spec fn holds_sources(
    views: Seq<RotView>,
    seen: Seq<RotView>,
    by_source: Seq<Vec<(usize, u8)>>,
) -> bool {
    &&& views == first_occurrences(seen)
    &&& forall|u: int|
        0 <= u < by_source.len() ==> counts_terms(
            (#[trigger] by_source[u])@,
            views,
            source_terms(u),
        )
    &&& forall|u: int, k: int|
        0 <= u < by_source.len() && 0 <= k < 11 ==> seen.contains(#[trigger] source_terms(u)[k])
    &&& forall|j: int|
        0 <= j < seen.len() ==> (#[trigger] seen[j]).lane < 25 && seen[j].rot < 64
}

/// Counts the terms of one source lane.
fn count_source(
    rot_view_indices: &mut BTreeMap<u128, usize>,
    rot_views: &mut Vec<RotView>,
    source: usize,
    Ghost(by_source): Ghost<Seq<Vec<(usize, u8)>>>,
) -> (counts: Vec<(usize, u8)>)
    requires
        source < 25,
        indexes(old(rot_view_indices)@, old(rot_views)@),
        by_source.len() == source,
        holds_sources(old(rot_views)@, terms_of_sources(source as nat), by_source),
        terms_of_sources(source as nat).len() == 11 * source,
    ensures
        indexes(final(rot_view_indices)@, final(rot_views)@),
        holds_sources(
            final(rot_views)@,
            terms_of_sources((source + 1) as nat),
            by_source.push(counts),
        ),
        terms_of_sources((source + 1) as nat).len() == 11 * (source + 1),
{
    let ghost start = terms_of_sources(source as nat);
    let ghost own = source_terms(source as int);
    let mut recipe_map: BTreeMap<usize, u8> = BTreeMap::new();
    let mut k: usize = 0;
    assert(start + own.take(0) =~= start);
    while k < 11
        invariant
            k <= 11,
            source < 25,
            by_source.len() == source,
            start.len() == 11 * source,
            own == source_terms(source as int),
            indexes(rot_view_indices@, rot_views@),
            holds_sources(rot_views@, start + own.take(k as int), by_source),
            maps_counts(recipe_map@, rot_views@, own.take(k as int)),
        decreases 11 - k,
    {
        let ghost seen = start + own.take(k as int);
        let ghost terms = own.take(k as int);
        let ghost before = rot_views@;
        let view: RotView = source_term(source, k);
        assert forall|l: int| 0 <= l < terms.len() implies seen.contains(#[trigger] terms[l]) by {
            assert(seen[start.len() + l] == terms[l]);
        }
        proof {
            lemma_counts_one_more(seen, terms, view, recipe_map@);
        }
        add_recipe_count(rot_view_indices, rot_views, &mut recipe_map, view);
        let ghost more = start + own.take(k + 1);
        proof {
            assert(seen.push(view) =~= more);
            assert(terms.push(view) =~= own.take(k + 1));
            lemma_first_occurrences_push(seen, view);
            lemma_first_occurrences(seen);
            lemma_first_occurrences(more);
            assert forall|u: int| 0 <= u < by_source.len() implies counts_terms(
                (#[trigger] by_source[u])@,
                rot_views@,
                source_terms(u),
            ) by {
                assert forall|l: int| 0 <= l < source_terms(u).len() implies before.contains(
                    #[trigger] source_terms(u)[l],
                ) by {
                    assert(seen.contains(source_terms(u)[l]));
                    let m = choose|m: int| 0 <= m < seen.len() && seen[m] == source_terms(u)[l];
                    assert(before.contains(seen[m]));
                }
                lemma_counts_extend(by_source[u]@, before, rot_views@, source_terms(u));
            }
            assert forall|u: int, l: int|
                0 <= u < by_source.len() && 0 <= l < 11 implies more.contains(
                #[trigger] source_terms(u)[l],
            ) by {
                assert(seen.contains(source_terms(u)[l]));
                let m = choose|m: int| 0 <= m < seen.len() && seen[m] == source_terms(u)[l];
                assert(more[m] == source_terms(u)[l]);
            }
        }
        k = k + 1;
    }
    assert(own.take(11) =~= own);
    let counts: Vec<(usize, u8)> = list_counts(
        &recipe_map,
        rot_views.len(),
        Ghost(rot_views@),
        Ghost(own),
    );
    proof {
        let all = terms_of_sources((source + 1) as nat);
        assert(start + own =~= all);
        let extended = by_source.push(counts);
        assert forall|u: int| 0 <= u < extended.len() implies counts_terms(
            (#[trigger] extended[u])@,
            rot_views@,
            source_terms(u),
        ) by {
            if u < source {
                assert(extended[u] == by_source[u]);
            }
        }
        assert forall|u: int, l: int| 0 <= u < extended.len() && 0 <= l < 11 implies all.contains(
            #[trigger] source_terms(u)[l],
        ) by {
            if u == source {
                assert(all[start.len() + l] == own[l]);
            }
        }
    }
    counts
}

/// Returns the rotations and indices of the views of one lane.
fn collect_lane_views(rot_views: &[RotView], lane: usize) -> (r: Vec<(u32, usize)>)
    ensures
        r@ == views_of_lane(rot_views@, lane as int),
{
    let mut out: Vec<(u32, usize)> = Vec::new();
    let mut j: usize = 0;
    assert(rot_views@.take(0) =~= Seq::<RotView>::empty());
    while j < rot_views.len()
        invariant
            j <= rot_views@.len(),
            out@ == views_of_lane(rot_views@.take(j as int), lane as int),
        decreases rot_views@.len() - j,
    {
        assert(rot_views@.take(j + 1).drop_last() =~= rot_views@.take(j as int));
        if rot_views[j].lane == lane {
            out.push((rot_views[j].rot, j));
        }
        j = j + 1;
    }
    assert(rot_views@.take(j as int) =~= rot_views@);
    out
}

fn copy_counts(counts: &[(usize, u8)]) -> (r: Vec<(usize, u8)>)
    ensures
        r@ == counts@,
{
    let mut out: Vec<(usize, u8)> = Vec::with_capacity(counts.len());
    let mut i: usize = 0;
    while i < counts.len()
        invariant
            i <= counts@.len(),
            out@ == counts@.take(i as int),
        decreases counts@.len() - i,
    {
        out.push(counts[i]);
        i = i + 1;
    }
    assert(counts@.take(i as int) =~= counts@);
    out
}

/// Returns the distinct rotations of the views, and for each rotation its place among them.
fn collect_rotations(rot_views: &[RotView]) -> (r: (Vec<u32>, BTreeMap<u32, usize>))
    ensures
        r.0@ == first_occurrences(rotations(rot_views@)),
        is_index_of(r.1@, r.0@),
        forall|j: int|
            0 <= j < rot_views@.len() ==> r.1@.contains_key((#[trigger] rot_views@[j]).rot),
{
    let mut unique: Vec<u32> = Vec::new();
    let mut index: BTreeMap<u32, usize> = BTreeMap::new();
    let ghost rots = rotations(rot_views@);
    let mut j: usize = 0;
    assert(rots.take(0) =~= Seq::<u32>::empty());
    while j < rot_views.len()
        invariant
            j <= rot_views@.len(),
            rots == rotations(rot_views@),
            unique@ == first_occurrences(rots.take(j as int)),
            is_index_of(index@, unique@),
        decreases rot_views@.len() - j,
    {
        let rot: u32 = rot_views[j].rot;
        let ghost (before, listed) = (index@, unique@);
        assert(rots.take(j + 1).drop_last() =~= rots.take(j as int));
        if !index.contains_key(&rot) {
            let place: usize = unique.len();
            index.insert(rot, place);
            unique.push(rot);
            proof {
                assert(unique@[place as int] == rot);
                assert forall|q: u32| #[trigger] index@.contains_key(q) <==> unique@.contains(
                    q,
                ) by {
                    if listed.contains(q) {
                        let l = choose|l: int| 0 <= l < listed.len() && listed[l] == q;
                        assert(unique@[l] == q);
                    }
                    if unique@.contains(q) && q != rot {
                        let l = choose|l: int| 0 <= l < unique@.len() && unique@[l] == q;
                        assert(listed[l] == q);
                    }
                    assert(before.contains_key(q) <==> listed.contains(q));
                }
                assert forall|q: u32| #[trigger] index@.contains_key(q) implies index@[q]
                    < unique@.len() && unique@[index@[q] as int] == q by {
                    if q != rot {
                        assert(before.contains_key(q));
                    }
                }
            }
        }
        j = j + 1;
    }
    assert(rots.take(j as int) =~= rots);
    proof {
        lemma_first_occurrences(rots);
        assert forall|l: int| 0 <= l < rot_views@.len() implies index@.contains_key(
            (#[trigger] rot_views@[l]).rot,
        ) by {
            assert(unique@.contains(rots[l]));
        }
    }
    (unique, index)
}

/// Builds the deduplicated rotated views and the sparse `theta+rho+pi` recipe.
pub fn linear_recipe_static() -> (r: LinearRecipeStatic)
    ensures
        r.is_valid(),
{
    let mut rot_view_indices: BTreeMap<u128, usize> = BTreeMap::new();
    let mut rot_views: Vec<RotView> = Vec::new();
    let mut by_source: Vec<Vec<(usize, u8)>> = Vec::new();
    let mut source: usize = 0;
    while source < 25
        invariant
            source <= 25,
            by_source@.len() == source,
            indexes(rot_view_indices@, rot_views@),
            holds_sources(rot_views@, terms_of_sources(source as nat), by_source@),
            terms_of_sources(source as nat).len() == 11 * source,
        decreases 25 - source,
    {
        let counts = count_source(
            &mut rot_view_indices,
            &mut rot_views,
            source,
            Ghost(by_source@),
        );
        by_source.push(counts);
        source = source + 1;
    }
    let ghost seen = terms_of_sources(25);
    let ghost views = rot_views@;
    proof {
        lemma_first_occurrences(seen);
        assert forall|j: int| 0 <= j < views.len() implies (#[trigger] views[j]).lane < 25
            && views[j].rot < 64 by {
            assert(seen.contains(views[j]));
            let k = choose|k: int| 0 <= k < seen.len() && seen[k] == views[j];
            assert(seen[k].lane < 25);
        }
        assert forall|lane: int, k: int| 0 <= lane < 25 && 0 <= k < 11 implies views.contains(
            #[trigger] lane_terms(lane)[k],
        ) by {
            let u = pi_source(lane);
            assert(seen.contains(source_terms(u)[k]));
            let m = choose|m: int| 0 <= m < seen.len() && seen[m] == source_terms(u)[k];
            assert(views.contains(seen[m]));
        }
    }
    let mut recipe_counts: Vec<Vec<(usize, u8)>> = Vec::new();
    let mut lane_views: Vec<Vec<(u32, usize)>> = Vec::new();
    let mut lane: usize = 0;
    while lane < 25
        invariant
            lane <= 25,
            rot_views@ == views,
            by_source@.len() == 25,
            forall|u: int|
                0 <= u < 25 ==> counts_terms(
                    (#[trigger] by_source@[u])@,
                    views,
                    source_terms(u),
                ),
            recipe_counts@.len() == lane,
            forall|l: int|
                0 <= l < lane ==> counts_terms(
                    (#[trigger] recipe_counts@[l])@,
                    views,
                    lane_terms(l),
                ),
            lane_views@.len() == lane,
            forall|l: int|
                0 <= l < lane ==> (#[trigger] lane_views@[l])@ == views_of_lane(views, l),
        decreases 25 - lane,
    {
        let from: usize = idx((lane % 5 + 3 * (lane / 5)) % 5, lane % 5);
        assert(counts_terms(by_source@[from as int]@, views, source_terms(from as int)));
        recipe_counts.push(copy_counts(by_source[from].as_slice()));
        lane_views.push(collect_lane_views(rot_views.as_slice(), lane));
        lane = lane + 1;
    }
    let (unique_rotations, rotation_index) = collect_rotations(rot_views.as_slice());
    LinearRecipeStatic { rot_views, recipe_counts, lane_views, unique_rotations, rotation_index }
}

/// The sum of `n` ones.
pub open spec fn ones<F: Field>(n: nat) -> F
    decreases n,
{
    if n == 0 {
        F::zero_spec()
    } else {
        ones::<F>((n - 1) as nat).plus(F::one_spec())
    }
}

/// In a binary field an even number of ones is zero, and an odd number of them is one.
pub proof fn law_ones_go_by_parity<F: BinaryField>(n: nat)
    ensures
        ones::<F>(n) == if n % 2 == 0 {
            F::zero_spec()
        } else {
            F::one_spec()
        },
    decreases n,
{
    if n > 0 {
        law_ones_go_by_parity::<F>((n - 1) as nat);
        lemma_zero_plus(F::one_spec());
        F::law_characteristic_two(F::one_spec());
    }
}

/// Returns the sum of `count` ones.
pub fn coeff_from_count<F: Field>(count: u8) -> (r: F)
    ensures
        r == ones::<F>(count as nat),
{
    let mut acc: F = F::zero();
    let mut i: u8 = 0;
    while i < count
        invariant
            i <= count,
            acc == ones::<F>(i as nat),
        decreases count - i,
    {
        acc = acc.add(F::one());
        i = i + 1;
    }
    acc
}

/// The coefficients of the terms of a recipe, and which views they belong to.
pub open spec fn is_recipe_of<F: Field>(
    recipe: Seq<LinearRecipeTerm<F>>,
    views: Seq<RotView>,
    terms: Seq<RotView>,
) -> bool {
    &&& forall|a: int, b: int|
        0 <= a < b < recipe.len() ==> (#[trigger] recipe[a]).rot_view_index < (
        #[trigger] recipe[b]).rot_view_index
    &&& forall|a: int|
        0 <= a < recipe.len() ==> {
            &&& (#[trigger] recipe[a]).rot_view_index < views.len()
            &&& recipe[a].coeff == ones::<F>(
                multiplicity(terms, views[recipe[a].rot_view_index as int]),
            )
            &&& recipe[a].coeff != F::zero_spec()
        }
    &&& forall|j: int|
        0 <= j < views.len() && ones::<F>(multiplicity(terms, #[trigger] views[j]))
            != F::zero_spec() ==> exists|a: int|
            0 <= a < recipe.len() && (#[trigger] recipe[a]).rot_view_index == j
}

fn recipe_from_counts<F: Field>(
    counts: &[(usize, u8)],
    Ghost(views): Ghost<Seq<RotView>>,
    Ghost(terms): Ghost<Seq<RotView>>,
) -> (r: Vec<LinearRecipeTerm<F>>)
    requires
        counts_terms(counts@, views, terms),
    ensures
        is_recipe_of(r@, views, terms),
{
    let mut out: Vec<LinearRecipeTerm<F>> = Vec::new();
    let mut i: usize = 0;
    while i < counts.len()
        invariant
            i <= counts@.len(),
            counts_terms(counts@, views, terms),
            forall|a: int, b: int|
                0 <= a < b < out@.len() ==> (#[trigger] out@[a]).rot_view_index < (
                #[trigger] out@[b]).rot_view_index,
            forall|a: int|
                0 <= a < out@.len() && i < counts@.len() ==> (#[trigger] out@[a]).rot_view_index
                    < counts@[i as int].0,
            forall|a: int|
                0 <= a < out@.len() ==> {
                    &&& (#[trigger] out@[a]).rot_view_index < views.len()
                    &&& out@[a].coeff == ones::<F>(
                        multiplicity(terms, views[out@[a].rot_view_index as int]),
                    )
                    &&& out@[a].coeff != F::zero_spec()
                },
            forall|c: int|
                0 <= c < i && ones::<F>((#[trigger] counts@[c]).1 as nat) != F::zero_spec()
                    ==> exists|a: int|
                    0 <= a < out@.len() && (#[trigger] out@[a]).rot_view_index == counts@[c].0,
        decreases counts@.len() - i,
    {
        let (rot_view_index, count) = counts[i];
        let coeff: F = coeff_from_count(count);
        let ghost before = out@;
        if !coeff.is_equal(F::zero()) {
            out.push(LinearRecipeTerm { coeff, rot_view_index });
        }
        proof {
            assert forall|c: int|
                0 <= c < i + 1 && ones::<F>((#[trigger] counts@[c]).1 as nat)
                    != F::zero_spec() implies exists|a: int|
                0 <= a < out@.len() && (#[trigger] out@[a]).rot_view_index == counts@[c].0 by {
                if c < i {
                    let a = choose|a: int|
                        0 <= a < before.len() && (#[trigger] before[a]).rot_view_index
                            == counts@[c].0;
                    assert(out@[a].rot_view_index == counts@[c].0);
                } else {
                    assert(out@[out@.len() - 1].rot_view_index == counts@[c].0);
                }
            }
        }
        i = i + 1;
    }
    proof {
        assert forall|j: int|
            0 <= j < views.len() && ones::<F>(multiplicity(terms, #[trigger] views[j]))
                != F::zero_spec() implies exists|a: int|
            0 <= a < out@.len() && (#[trigger] out@[a]).rot_view_index == j by {
            assert(multiplicity(terms, views[j]) > 0);
            let c = choose|c: int| 0 <= c < counts@.len() && (#[trigger] counts@[c]).0 == j;
            assert(ones::<F>(counts@[c].1 as nat) != F::zero_spec());
        }
    }
    out
}

/// Build the deduplicated rotated-view list and sparse `theta+rho+pi` recipe.
pub fn build_linear_recipe<F: Field>() -> (r: (Vec<RotView>, LinearRecipe<F>))
    ensures
        r.0@ == all_views(),
        r.1@.len() == 25,
        forall|lane: int|
            0 <= lane < 25 ==> is_recipe_of((#[trigger] r.1@[lane])@, all_views(), lane_terms(lane)),
{
    let fixed = linear_recipe_static();
    let mut recipe: LinearRecipe<F> = Vec::new();
    let mut lane: usize = 0;
    while lane < 25
        invariant
            lane <= 25,
            fixed.is_valid(),
            recipe@.len() == lane,
            forall|l: int|
                0 <= l < lane ==> is_recipe_of(
                    (#[trigger] recipe@[l])@,
                    all_views(),
                    lane_terms(l),
                ),
        decreases 25 - lane,
    {
        let terms = recipe_from_counts(
            fixed.recipe_counts[lane].as_slice(),
            Ghost(fixed.rot_views@),
            Ghost(lane_terms(lane as int)),
        );
        recipe.push(terms);
        lane = lane + 1;
    }
    (fixed.rot_views, recipe)
}

/// The values of a function on the terms.
pub open spec fn term_values<F: Field>(
    terms: Seq<RotView>,
    phi: spec_fn(RotView) -> F,
) -> Seq<F> {
    Seq::new(terms.len(), |k: int| phi(terms[k]))
}

/// The values of a function on the views, each as often as the view occurs among the terms.
pub open spec fn weighted_view_values<F: Field>(
    views: Seq<RotView>,
    terms: Seq<RotView>,
    phi: spec_fn(RotView) -> F,
) -> Seq<F> {
    Seq::new(
        views.len(),
        |j: int| ones::<F>(multiplicity(terms, views[j])).times(phi(views[j])),
    )
}

/// The value of a function on view `l`, at its place among zeros.
spec fn single_value<F: Field>(n: nat, l: int, x: F) -> Seq<F> {
    Seq::new(
        n,
        |j: int|
            if j == l {
                x
            } else {
                F::zero_spec()
            },
    )
}

proof fn lemma_sum_single_value<F: Field>(n: nat, l: int, x: F)
    requires
        0 <= l < n,
    ensures
        sum(single_value(n, l, x)) == x,
    decreases n,
{
    let s = single_value(n, l, x);
    let rest = s.drop_last();
    if n - 1 == l {
        lemma_sum_zeros(rest);
        lemma_zero_plus(x);
    } else {
        assert(rest =~= single_value((n - 1) as nat, l, x));
        lemma_sum_single_value((n - 1) as nat, l, x);
        F::law_plus_zero(x);
    }
}

/// Adding up the terms gives the same as adding up the views by multiplicity.
pub proof fn lemma_views_add_up<F: Field>(
    views: Seq<RotView>,
    terms: Seq<RotView>,
    phi: spec_fn(RotView) -> F,
)
    requires
        views.no_duplicates(),
        forall|k: int| 0 <= k < terms.len() ==> views.contains(#[trigger] terms[k]),
    ensures
        sum(weighted_view_values(views, terms, phi)) == sum(term_values(terms, phi)),
    decreases terms.len(),
{
    let weighted = weighted_view_values(views, terms, phi);
    if terms.len() == 0 {
        assert forall|j: int| 0 <= j < views.len() implies weighted[j] == F::zero_spec() by {
            lemma_times_zero(phi(views[j]));
        }
        lemma_sum_zeros(weighted);
    } else {
        let rest = terms.drop_last();
        let last = terms.last();
        assert forall|k: int| 0 <= k < rest.len() implies views.contains(#[trigger] rest[k]) by {
            assert(rest[k] == terms[k]);
        }
        lemma_views_add_up(views, rest, phi);
        assert(term_values(terms, phi).drop_last() =~= term_values(rest, phi));
        assert(views.contains(terms[terms.len() - 1]));
        let l = choose|l: int| 0 <= l < views.len() && views[l] == last;
        let base = weighted_view_values(views, rest, phi);
        let extra = single_value(views.len(), l, phi(last));
        assert forall|j: int| 0 <= j < views.len() implies weighted[j] == base[j].plus(
            extra[j],
        ) by {
            if j == l {
                let c = ones::<F>(multiplicity(rest, last));
                lemma_plus_times(c, F::one_spec(), phi(last));
                F::law_times_commutes(F::one_spec(), phi(last));
                F::law_times_one(phi(last));
            } else {
                assert(views[j] != last);
                F::law_plus_zero(base[j]);
            }
        }
        assert(weighted =~= pointwise_plus(base, extra));
        lemma_sum_plus(base, extra);
        lemma_sum_single_value(views.len(), l, phi(last));
    }
}

/// A sum whose other terms are zero can be taken over listed positions alone.
pub proof fn lemma_sparse_sum<F: Field>(g: Seq<F>, positions: Seq<int>)
    requires
        forall|a: int, b: int|
            0 <= a < b < positions.len() ==> (#[trigger] positions[a]) < (#[trigger] positions[b]),
        forall|a: int| 0 <= a < positions.len() ==> 0 <= #[trigger] positions[a] < g.len(),
        forall|j: int|
            0 <= j < g.len() && #[trigger] g[j] != F::zero_spec() ==> positions.contains(j),
    ensures
        sum(g) == sum(Seq::new(positions.len(), |a: int| g[positions[a]])),
    decreases g.len(),
{
    let listed = Seq::new(positions.len(), |a: int| g[positions[a]]);
    if g.len() == 0 {
        if positions.len() > 0 {
            assert(positions[0] < g.len());
        }
    } else {
        let n = g.len() - 1;
        let rest = g.drop_last();
        if positions.len() > 0 && positions.last() == n {
            let fewer = positions.drop_last();
            assert forall|j: int| 0 <= j < rest.len() && #[trigger] rest[j]
                != F::zero_spec() implies fewer.contains(j) by {
                assert(g[j] != F::zero_spec());
                let a = choose|a: int| 0 <= a < positions.len() && positions[a] == j;
                assert(fewer[a] == j);
            }
            assert forall|a: int| 0 <= a < fewer.len() implies 0 <= #[trigger] fewer[a]
                < rest.len() by {
                assert(positions[a] < positions[positions.len() - 1]);
            }
            lemma_sparse_sum(rest, fewer);
            assert(listed.drop_last() =~= Seq::new(fewer.len(), |a: int| rest[fewer[a]]));
        } else {
            if g[n] != F::zero_spec() {
                let a = choose|a: int| 0 <= a < positions.len() && positions[a] == n;
                assert(positions[a] <= positions[positions.len() - 1]);
            }
            assert forall|a: int| 0 <= a < positions.len() implies 0 <= #[trigger] positions[a]
                < rest.len() by {
                if positions[a] == n {
                    assert(positions[a] <= positions[positions.len() - 1]);
                }
            }
            assert forall|j: int| 0 <= j < rest.len() && #[trigger] rest[j]
                != F::zero_spec() implies positions.contains(j) by {
                assert(g[j] != F::zero_spec());
            }
            lemma_sparse_sum(rest, positions);
            assert(listed =~= Seq::new(positions.len(), |a: int| rest[positions[a]]));
            F::law_plus_zero(sum(rest));
        }
    }
}

/// The values of a function on the counted views, each as often as it is counted.
pub open spec fn counted_values<F: Field>(
    counts: Seq<(usize, u8)>,
    views: Seq<RotView>,
    phi: spec_fn(RotView) -> F,
) -> Seq<F> {
    Seq::new(
        counts.len(),
        |a: int| ones::<F>(counts[a].1 as nat).times(phi(views[counts[a].0 as int])),
    )
}

/// Adding up the terms gives the same as adding up the counted views.
pub proof fn lemma_counts_add_up<F: Field>(
    counts: Seq<(usize, u8)>,
    views: Seq<RotView>,
    terms: Seq<RotView>,
    phi: spec_fn(RotView) -> F,
)
    requires
        counts_terms(counts, views, terms),
        views.no_duplicates(),
        forall|k: int| 0 <= k < terms.len() ==> views.contains(#[trigger] terms[k]),
    ensures
        sum(counted_values(counts, views, phi)) == sum(term_values(terms, phi)),
{
    let g = weighted_view_values(views, terms, phi);
    let positions = Seq::new(counts.len(), |a: int| counts[a].0 as int);
    lemma_views_add_up(views, terms, phi);
    assert forall|j: int| 0 <= j < g.len() && #[trigger] g[j] != F::zero_spec() implies
        positions.contains(j) by {
        if multiplicity(terms, views[j]) == 0 {
            lemma_times_zero(phi(views[j]));
        } else {
            let a = choose|a: int| 0 <= a < counts.len() && (#[trigger] counts[a]).0 == j;
            assert(positions[a] == j);
        }
    }
    lemma_sparse_sum(g, positions);
    assert(counted_values(counts, views, phi) =~= Seq::new(
        positions.len(),
        |a: int| g[positions[a]],
    ));
}

/// The values that belong to the views of one lane.
pub open spec fn values_of_lane<F>(views: Seq<RotView>, lane: int, g: Seq<F>) -> Seq<F> {
    Seq::new(views_of_lane(views, lane).len(), |a: int| g[views_of_lane(views, lane)[a].1 as int])
}

/// The listed views of a lane are views of that lane.
pub proof fn lemma_views_of_lane(views: Seq<RotView>, lane: int, a: int)
    requires
        0 <= a < views_of_lane(views, lane).len(),
        views.len() <= usize::MAX,
    ensures
        views_of_lane(views, lane)[a].1 < views.len(),
        views[views_of_lane(views, lane)[a].1 as int].lane == lane,
        views[views_of_lane(views, lane)[a].1 as int].rot == views_of_lane(views, lane)[a].0,
    decreases views.len(),
{
    let rest = views.drop_last();
    if a < views_of_lane(rest, lane).len() {
        lemma_views_of_lane(rest, lane, a);
    }
}

/// Adding up the values lane by lane gives the sum of all values.
pub proof fn lemma_sum_by_lanes<F: Field>(views: Seq<RotView>, g: Seq<F>)
    requires
        views.len() <= usize::MAX,
        g.len() == views.len(),
        forall|j: int| 0 <= j < views.len() ==> (#[trigger] views[j]).lane < 25,
    ensures
        sum(Seq::new(25, |lane: int| sum(values_of_lane(views, lane, g)))) == sum(g),
    decreases views.len(),
{
    let by_lane = Seq::new(25, |lane: int| sum(values_of_lane(views, lane, g)));
    if views.len() == 0 {
        assert forall|lane: int| 0 <= lane < 25 implies by_lane[lane] == F::zero_spec() by {
            assert(values_of_lane(views, lane, g) =~= Seq::<F>::empty());
        }
        lemma_sum_zeros(by_lane);
    } else {
        let rest = views.drop_last();
        let h = g.drop_last();
        let last = views.last().lane as int;
        assert(views[views.len() - 1].lane < 25);
        assert forall|j: int| 0 <= j < rest.len() implies (#[trigger] rest[j]).lane < 25 by {
            assert(views[j].lane < 25);
        }
        lemma_sum_by_lanes(rest, h);
        let before = Seq::new(25, |lane: int| sum(values_of_lane(rest, lane, h)));
        let extra = single_value(25, last, g.last());
        assert forall|lane: int| 0 <= lane < 25 implies by_lane[lane] == before[lane].plus(
            extra[lane],
        ) by {
            let (v, w) = (values_of_lane(views, lane, g), values_of_lane(rest, lane, h));
            assert forall|a: int| 0 <= a < w.len() implies v[a] == w[a] by {
                lemma_views_of_lane(rest, lane, a);
            }
            if lane == last {
                assert(v.drop_last() =~= w);
                assert(v.last() == g.last());
            } else {
                assert(v =~= w);
                F::law_plus_zero(before[lane]);
            }
        }
        assert(by_lane =~= pointwise_plus(before, extra));
        lemma_sum_plus(before, extra);
        lemma_sum_single_value(25, last, g.last());
    }
}

/// The terms of an output lane are eleven rotated lanes.
pub proof fn lemma_lane_terms(lane: int)
    requires
        0 <= lane < 25,
    ensures
        lane_terms(lane).len() == 11,
        forall|k: int|
            0 <= k < 11 ==> (#[trigger] lane_terms(lane)[k]).lane < 25 && lane_terms(lane)[k].rot
                < 64,
{
    let source = pi_source(lane);
    assert(0 <= source < 25);
}

} // verus!
