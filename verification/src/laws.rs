//! What holds of scoring as a whole.

use crate::accumulator;
use crate::column;
use crate::column::{Batch, Column, ColumnData, Row};
use crate::element;
use crate::element::Element;
use crate::error::{Failure, ScoreError};
use crate::exact;
use crate::exact::Scored;
use crate::float;
use crate::indexed;
use crate::model::{ElementArray, Elements, Metric, SubVectors};
use crate::plan;
use crate::plan::{Operator, Plan};
use crate::rounding;
use crate::score;
use vstd::arithmetic::div_mod::{lemma_div_non_zero, lemma_fundamental_div_mod};
use vstd::prelude::*;

verus! {

/// Rounding keeps the order of integers.
proof fn lemma_round_int_monotone(x: int, y: int, bits: nat)
    requires
        bits > 0,
        x <= y,
    ensures
        rounding::round_int(x, bits) <= rounding::round_int(y, bits),
{
    if x < 0 && y < 0 {
        rounding::lemma_round_monotone(
            rounding::magnitude(y),
            rounding::magnitude(x),
            bits,
        );
    } else if x >= 0 {
        rounding::lemma_round_monotone(
            rounding::magnitude(x),
            rounding::magnitude(y),
            bits,
        );
    }
}

/// A sum of distances of which none is greater is not greater.
pub proof fn law_sum_is_monotone(left: Seq<int>, right: Seq<int>)
    requires
        left.len() == right.len(),
        forall|i: int| 0 <= i < left.len() ==> #[trigger] left[i] <= right[i],
    ensures
        accumulator::rounded_sum(left) <= accumulator::rounded_sum(right),
    decreases left.len(),
{
    if left.len() > 0 {
        let (a, b) = (left.drop_last(), right.drop_last());
        assert forall|i: int| 0 <= i < a.len() implies #[trigger] a[i] <= b[i] by {
            assert(left[i] <= right[i]);
        }
        law_sum_is_monotone(a, b);
        assert(left[left.len() - 1] <= right[left.len() - 1]);
        lemma_round_int_monotone(
            accumulator::rounded_sum(a) + left.last(),
            accumulator::rounded_sum(b) + right.last(),
            53,
        );
    }
}

/// A row that is nowhere farther from the query vectors than another has no greater distance.
pub proof fn law_score_is_monotone(
    left: Seq<Seq<u32>>,
    right: Seq<Seq<u32>>,
    left_score: u32,
    right_score: u32,
)
    requires
        left.len() == right.len(),
        score::row_score(left) == Ok::<Option<u32>, ScoreError>(Some(left_score)),
        score::row_score(right) == Ok::<Option<u32>, ScoreError>(Some(right_score)),
        forall|i: int|
            0 <= i < left.len() ==> float::value(score::nearest(#[trigger] left[i]).unwrap())
                <= float::value(score::nearest(right[i]).unwrap()),
    ensures
        float::value(left_score) <= float::value(right_score),
{
    let (a, b) = (score::minima(left), score::minima(right));
    assert forall|i: int| 0 <= i < a.len() implies #[trigger] a[i] <= b[i] by {
        assert(a[i] == float::value(score::nearest(left[i]).unwrap()));
    }
    law_sum_is_monotone(a, b);
    let (x, y) = (accumulator::rounded_sum(a), accumulator::rounded_sum(b));
    float::lemma_nearest_single(x);
    float::lemma_nearest_single(y);
    lemma_round_int_monotone(x, y, 24);
}

/// With one query vector, the score is the nearest distance itself, to the last bit of its value.
pub proof fn law_single_vector_score_is_exact(distances: Seq<u32>)
    ensures
        match score::row_score(seq![distances]) {
            Ok(None) => score::nearest(distances) is None,
            Ok(Some(score)) => {
                &&& score::nearest(distances) is Some
                &&& float::is_finite(score::nearest(distances).unwrap())
                &&& float::value(score) == float::value(score::nearest(distances).unwrap())
            },
            Err(_) => {
                &&& score::nearest(distances) is Some
                &&& !float::is_finite(score::nearest(distances).unwrap())
            },
        },
{
    let table = seq![distances];
    assert(table[0] == distances);
    if let Some(best) = score::nearest(distances) {
        if float::is_finite(best) {
            let terms = score::minima(table);
            assert(terms.drop_last() =~= Seq::<int>::empty());
            assert(terms.last() == float::value(best));
            assert(accumulator::rounded_sum(terms.drop_last()) == 0);
            float::lemma_single_is_exact(best);
            assert(accumulator::rounded_sum(terms) == float::value(best));
            float::lemma_nearest_single(float::value(best));
        }
    }
}

/// The sum of all terms, without rounding.
pub open spec fn exact_sum(terms: Seq<int>) -> int
    decreases terms.len(),
{
    if terms.len() == 0 {
        0
    } else {
        exact_sum(terms.drop_last()) + terms.last()
    }
}

/// Small distances are not rounded away: while every partial sum can be held at double precision,
/// the sum is exact.
pub proof fn law_representable_sums_are_exact(terms: Seq<int>)
    requires
        forall|count: int|
            0 <= count <= terms.len() ==> rounding::round_int(
                exact_sum(#[trigger] terms.take(count)),
                float::DOUBLE_BITS as nat,
            ) == exact_sum(terms.take(count)),
    ensures
        accumulator::rounded_sum(terms) == exact_sum(terms),
    decreases terms.len(),
{
    assert(terms.take(terms.len() as int) =~= terms);
    if terms.len() > 0 {
        let less = terms.drop_last();
        assert forall|count: int| 0 <= count <= less.len() implies rounding::round_int(
            exact_sum(#[trigger] less.take(count)),
            float::DOUBLE_BITS as nat,
        ) == exact_sum(less.take(count)) by {
            assert(less.take(count) =~= terms.take(count));
        }
        law_representable_sums_are_exact(less);
    }
}

/// The nearest distance is one of the distances, is no NaN, and no other comes before it; there is
/// none exactly when all are NaNs.
pub proof fn law_nearest_is_least(distances: Seq<u32>)
    ensures
        match score::nearest(distances) {
            Some(best) => {
                &&& distances.contains(best)
                &&& !float::is_nan(best)
                &&& forall|i: int|
                    0 <= i < distances.len() && !float::is_nan(#[trigger] distances[i])
                        ==> float::total_position(best) <= float::total_position(distances[i])
            },
            None => forall|i: int|
                0 <= i < distances.len() ==> float::is_nan(#[trigger] distances[i]),
        },
    decreases distances.len(),
{
    if distances.len() > 0 {
        let less = distances.drop_last();
        law_nearest_is_least(less);
        if let Some(best) = score::nearest(less) {
            let k = choose|k: int| 0 <= k < less.len() && less[k] == best;
            assert(distances[k] == best);
        }
        assert(distances[distances.len() - 1] == distances.last());
        assert forall|i: int| 0 <= i < less.len() implies distances[i] == #[trigger] less[i] by {}
        assert forall|i: int|
            0 <= i < distances.len() && !float::is_nan(#[trigger] distances[i])
                && score::nearest(distances) is Some implies float::total_position(
            score::nearest(distances).unwrap(),
        ) <= float::total_position(distances[i]) by {
            if i < less.len() {
                assert(less[i] == distances[i]);
            }
        }
        assert forall|i: int| 0 <= i < distances.len() && score::nearest(distances) is None implies
            float::is_nan(#[trigger] distances[i]) by {
            if i < less.len() {
                assert(less[i] == distances[i]);
            }
        }
    }
}

/// A stored vector without a defined distance to a query vector is ignored.
pub proof fn law_undefined_distances_are_ignored(before: Seq<u32>, undefined: u32, after: Seq<u32>)
    requires
        float::is_nan(undefined),
    ensures
        score::nearest(before + seq![undefined] + after) == score::nearest(before + after),
    decreases after.len(),
{
    let with = before + seq![undefined] + after;
    let without = before + after;
    if after.len() == 0 {
        assert(with.drop_last() =~= before);
        assert(without =~= before);
    } else {
        law_undefined_distances_are_ignored(before, undefined, after.drop_last());
        assert(with.drop_last() =~= before + seq![undefined] + after.drop_last());
        assert(without.drop_last() =~= before + after.drop_last());
    }
}

/// Whether the elements of binary32 or binary64 from `start` to before `end` are all zeros.
pub open spec fn are_zeros(elements: Elements, start: int, end: int) -> bool {
    match elements {
        Elements::Float32(values) => element::is_single_zero(values@.subrange(start, end)),
        Elements::Float64(values) => element::is_double_zero(values@.subrange(start, end)),
        _ => false,
    }
}

/// Under the cosine distance a zero query vector masks the row, instead of failing the search.
pub proof fn law_zero_query_vector_masks_the_row(
    query: ElementArray,
    vectors: SubVectors,
    outcome: Result<Option<u32>, ScoreError>,
    k: int,
)
    requires
        score::is_row_outcome(Metric::Cosine, query, vectors, outcome),
        score::row_error(query, vectors) is None,
        vectors.dimension > 0,
        0 <= k < query.elements.count() / vectors.dimension as nat,
        are_zeros(
            query.elements,
            k * vectors.dimension,
            k * vectors.dimension + vectors.dimension,
        ),
    ensures
        outcome == Ok::<Option<u32>, ScoreError>(None),
{
    let table = choose|table: Seq<Seq<u32>>|
        #[trigger] score::is_row_table(Metric::Cosine, query, vectors, table) && outcome
            == score::row_score(table);
    match (query.elements, vectors.values.elements) {
        (Elements::Float32(q), Elements::Float32(v)) => {
            lemma_all_undefined::<u32>(q@, v@, vectors.dimension as nat, table, k);
        },
        (Elements::Float64(q), Elements::Float64(v)) => {
            lemma_all_undefined::<u64>(q@, v@, vectors.dimension as nat, table, k);
        },
        _ => {},
    }
}

/// Under the cosine distance a row of zero vectors is masked, instead of failing the search.
pub proof fn law_zero_stored_vectors_mask_the_row(
    query: ElementArray,
    vectors: SubVectors,
    outcome: Result<Option<u32>, ScoreError>,
)
    requires
        score::is_row_outcome(Metric::Cosine, query, vectors, outcome),
        score::row_error(query, vectors) is None,
        0 < vectors.dimension <= query.elements.count(),
        are_zeros(vectors.values.elements, 0, vectors.values.elements.count() as int),
    ensures
        outcome == Ok::<Option<u32>, ScoreError>(None),
{
    let dimension = vectors.dimension as nat;
    let table = choose|table: Seq<Seq<u32>>|
        #[trigger] score::is_row_table(Metric::Cosine, query, vectors, table) && outcome
            == score::row_score(table);
    lemma_div_non_zero(query.elements.count() as int, dimension as int);
    match (query.elements, vectors.values.elements) {
        (Elements::Float32(q), Elements::Float32(v)) => {
            assert forall|j: int| 0 <= j < v@.len() / dimension implies element::is_single_zero(
                #[trigger] score::chunk(v@, dimension, j),
            ) by {
                lemma_chunk_inside(v@.len(), dimension, j);
                let whole = v@.subrange(0, v@.len() as int);
                let part = score::chunk(v@, dimension, j);
                assert forall|i: int| 0 <= i < part.len() implies float::is_zero(
                    #[trigger] part[i],
                ) by {
                    assert(part[i] == whole[j * dimension + i]);
                }
            }
            lemma_all_undefined::<u32>(q@, v@, dimension, table, 0);
        },
        (Elements::Float64(q), Elements::Float64(v)) => {
            assert forall|j: int| 0 <= j < v@.len() / dimension implies element::is_double_zero(
                #[trigger] score::chunk(v@, dimension, j),
            ) by {
                lemma_chunk_inside(v@.len(), dimension, j);
                let whole = v@.subrange(0, v@.len() as int);
                let part = score::chunk(v@, dimension, j);
                assert forall|i: int| 0 <= i < part.len() implies float::is_zero_double(
                    #[trigger] part[i],
                ) by {
                    assert(part[i] == whole[j * dimension + i]);
                }
            }
            lemma_all_undefined::<u64>(q@, v@, dimension, table, 0);
        },
        _ => {},
    }
}

/// A whole vector ends before the elements do.
pub proof fn lemma_chunk_inside(len: nat, dimension: nat, j: int)
    requires
        dimension > 0,
        0 <= j < len / dimension,
    ensures
        0 <= j * dimension,
        j * dimension + dimension <= len,
{
    lemma_fundamental_div_mod(len as int, dimension as int);
    let whole = len / dimension;
    assert(0 <= j * dimension && j * dimension + dimension <= len) by (nonlinear_arith)
        requires
            0 <= j < whole,
            dimension * whole <= len,
            dimension > 0,
    ;
}

/// The number of whole vectors leaves less than one vector.
pub proof fn lemma_whole_vectors(len: nat, dimension: nat)
    requires
        dimension > 0,
    ensures
        (len / dimension) * dimension <= len < (len / dimension) * dimension + dimension,
{
    lemma_fundamental_div_mod(len as int, dimension as int);
    let whole = len / dimension;
    assert(dimension * whole == whole * dimension) by (nonlinear_arith);
}

/// A query vector without any defined distance masks the row.
proof fn lemma_all_undefined<T: Element>(
    query: Seq<T>,
    stored: Seq<T>,
    dimension: nat,
    table: Seq<Seq<u32>>,
    k: int,
)
    requires
        score::is_distance_table(Metric::Cosine, query, stored, dimension, table),
        0 <= k < table.len(),
        forall|j: int|
            0 <= j < stored.len() / dimension ==> T::is_undefined(
                Metric::Cosine,
                score::chunk(query, dimension, k),
                #[trigger] score::chunk(stored, dimension, j),
            ),
    ensures
        score::row_score(table) == Ok::<Option<u32>, ScoreError>(None),
{
    let distances = table[k];
    assert forall|j: int| 0 <= j < distances.len() implies float::is_nan(
        #[trigger] distances[j],
    ) by {
        assert(T::is_undefined(
            Metric::Cosine,
            score::chunk(query, dimension, k),
            score::chunk(stored, dimension, j),
        ));
    }
    law_nearest_is_least(distances);
    if let Some(best) = score::nearest(distances) {
        let j = choose|j: int| 0 <= j < distances.len() && distances[j] == best;
        assert(float::is_nan(distances[j]));
    }
}

/// The order in which a row stores its vectors does not matter.
pub proof fn law_stored_order_does_not_matter(left: Seq<u32>, right: Seq<u32>)
    requires
        left.to_multiset() == right.to_multiset(),
    ensures
        score::nearest(left) == score::nearest(right),
{
    broadcast use vstd::seq_lib::group_to_multiset_ensures;

    law_nearest_is_least(left);
    law_nearest_is_least(right);
    assert forall|x: u32| left.contains(x) <==> right.contains(x) by {
        assert(left.contains(x) <==> left.to_multiset().count(x) > 0);
        assert(right.contains(x) <==> right.to_multiset().count(x) > 0);
    }
    if let Some(a) = score::nearest(left) {
        assert(right.contains(a));
        let i = choose|i: int| 0 <= i < right.len() && right[i] == a;
        assert(!float::is_nan(right[i]));
        let b = score::nearest(right).unwrap();
        assert(left.contains(b));
        let j = choose|j: int| 0 <= j < left.len() && left[j] == b;
        assert(!float::is_nan(left[j]));
        assert(float::total_position(a) == float::total_position(b));
    } else if let Some(b) = score::nearest(right) {
        assert(left.contains(b));
        let j = choose|j: int| 0 <= j < left.len() && left[j] == b;
        assert(float::is_nan(left[j]));
    }
}

/// The least distance of a row is that of one of its candidates, and none of them has a smaller one;
/// a row has one exactly when it has a candidate.
pub proof fn law_least_is_least(candidates: Seq<(u64, u32)>, id: u64)
    ensures
        match indexed::least(candidates, id) {
            Some(best) => {
                &&& exists|i: int|
                    0 <= i < candidates.len() && (#[trigger] candidates[i]).0 == id && float::value(
                        candidates[i].1,
                    ) == best
                &&& forall|i: int|
                    0 <= i < candidates.len() && (#[trigger] candidates[i]).0 == id ==> best
                        <= float::value(candidates[i].1)
            },
            None => forall|i: int|
                0 <= i < candidates.len() ==> (#[trigger] candidates[i]).0 != id,
        },
    decreases candidates.len(),
{
    if candidates.len() > 0 {
        let less = candidates.drop_last();
        law_least_is_least(less, id);
        let last = candidates.len() - 1;
        assert forall|i: int| 0 <= i < less.len() implies #[trigger] less[i] == candidates[i] by {}
        if let Some(best) = indexed::least(less, id) {
            let k = choose|k: int|
                0 <= k < less.len() && (#[trigger] less[k]).0 == id && float::value(less[k].1)
                    == best;
            assert(candidates[k] == less[k]);
        }
        assert(candidates[last] == candidates.last());
        assert forall|i: int| 0 <= i < candidates.len() && i != last implies #[trigger] candidates[i]
            == less[i] by {}
    }
}

/// The greatest distance is that of one of the candidates, and none of them has a greater one; there
/// is one exactly when there is a candidate.
pub proof fn law_greatest_is_greatest(candidates: Seq<(u64, u32)>)
    ensures
        match indexed::greatest(candidates) {
            Some(worst) => {
                &&& exists|i: int|
                    0 <= i < candidates.len() && float::value((#[trigger] candidates[i]).1) == worst
                &&& forall|i: int|
                    0 <= i < candidates.len() ==> float::value((#[trigger] candidates[i]).1) <= worst
            },
            None => candidates.len() == 0,
        },
    decreases candidates.len(),
{
    if candidates.len() > 0 {
        let less = candidates.drop_last();
        law_greatest_is_greatest(less);
        let last = candidates.len() - 1;
        if let Some(worst) = indexed::greatest(less) {
            let k = choose|k: int|
                0 <= k < less.len() && float::value((#[trigger] less[k]).1) == worst;
            assert(candidates[k] == less[k]);
        }
        assert(candidates[last] == candidates.last());
        assert forall|i: int| 0 <= i < candidates.len() && i != last implies #[trigger] candidates[i]
            == less[i] by {}
    }
}

/// The batches in which the candidates of a query vector come, and their order, do not matter.
pub proof fn law_candidate_order_does_not_matter(
    left: Seq<(u64, u32)>,
    right: Seq<(u64, u32)>,
    id: u64,
)
    requires
        left.to_multiset() == right.to_multiset(),
    ensures
        indexed::least(left, id) == indexed::least(right, id),
        indexed::greatest(left) == indexed::greatest(right),
        indexed::contribution(left, id) == indexed::contribution(right, id),
{
    broadcast use vstd::seq_lib::group_to_multiset_ensures;

    law_least_is_least(left, id);
    law_least_is_least(right, id);
    law_greatest_is_greatest(left);
    law_greatest_is_greatest(right);
    assert forall|x: (u64, u32)| left.contains(x) <==> right.contains(x) by {
        assert(left.contains(x) <==> left.to_multiset().count(x) > 0);
        assert(right.contains(x) <==> right.to_multiset().count(x) > 0);
    }
    lemma_included(left, right, id);
    lemma_included(right, left, id);
}

/// With more candidates the least distance is no greater and the greatest no smaller.
proof fn lemma_included(left: Seq<(u64, u32)>, right: Seq<(u64, u32)>, id: u64)
    requires
        forall|x: (u64, u32)| left.contains(x) ==> right.contains(x),
    ensures
        indexed::least(left, id) matches Some(best) ==> indexed::least(right, id) is Some
            && indexed::least(right, id).unwrap() <= best,
        indexed::greatest(left) matches Some(worst) ==> indexed::greatest(right) is Some && worst
            <= indexed::greatest(right).unwrap(),
{
    law_least_is_least(left, id);
    law_least_is_least(right, id);
    law_greatest_is_greatest(left);
    law_greatest_is_greatest(right);
    if let Some(best) = indexed::least(left, id) {
        let i = choose|i: int|
            0 <= i < left.len() && (#[trigger] left[i]).0 == id && float::value(left[i].1) == best;
        assert(left.contains(left[i]));
        let j = choose|j: int| 0 <= j < right.len() && right[j] == left[i];
        assert(right[j].0 == id);
    }
    if let Some(worst) = indexed::greatest(left) {
        let i = choose|i: int| 0 <= i < left.len() && float::value((#[trigger] left[i]).1) == worst;
        assert(left.contains(left[i]));
        let j = choose|j: int| 0 <= j < right.len() && right[j] == left[i];
        assert(float::value(right[j].1) == worst);
    }
}

/// All rows of a stream of batches.
pub open spec fn concatenated<T>(batches: Seq<Seq<T>>) -> Seq<T>
    decreases batches.len(),
{
    if batches.len() == 0 {
        Seq::empty()
    } else {
        concatenated(batches.drop_last()) + batches.last()
    }
}

/// Splitting a batch in two leaves the candidates of the stream as they are.
pub proof fn law_batch_boundaries_do_not_matter(
    before: Seq<Seq<(u64, u32)>>,
    first: Seq<(u64, u32)>,
    second: Seq<(u64, u32)>,
    after: Seq<Seq<(u64, u32)>>,
)
    ensures
        concatenated(before + seq![first, second] + after) == concatenated(
            before + seq![first + second] + after,
        ),
    decreases after.len(),
{
    let split = before + seq![first, second] + after;
    let whole = before + seq![first + second] + after;
    if after.len() == 0 {
        assert(split.drop_last() =~= before.push(first));
        assert(before.push(first).drop_last() =~= before);
        assert(whole.drop_last() =~= before);
        assert(concatenated(before.push(first)) == concatenated(before) + first);
        assert(concatenated(split) == concatenated(before.push(first)) + second);
        assert(concatenated(whole) == concatenated(before) + (first + second));
        assert(concatenated(before) + first + second =~= concatenated(before) + (first + second));
    } else {
        law_batch_boundaries_do_not_matter(before, first, second, after.drop_last());
        assert(split.drop_last() =~= before + seq![first, second] + after.drop_last());
        assert(whole.drop_last() =~= before + seq![first + second] + after.drop_last());
    }
}

/// The distances of an index search do not depend on the order of each query vector's candidates.
pub proof fn law_total_ignores_candidate_order(
    left: Seq<Seq<(u64, u32)>>,
    right: Seq<Seq<(u64, u32)>>,
    id: u64,
)
    requires
        left.len() == right.len(),
        forall|q: int|
            0 <= q < left.len() ==> (#[trigger] left[q]).to_multiset() == right[q].to_multiset(),
    ensures
        indexed::total(left, id) == indexed::total(right, id),
        indexed::is_found(left, id) == indexed::is_found(right, id),
{
    assert forall|q: int| 0 <= q < left.len() implies indexed::contribution(
        #[trigger] left[q],
        id,
    ) == indexed::contribution(right[q], id) && indexed::least(left[q], id) == indexed::least(
        right[q],
        id,
    ) by {
        law_candidate_order_does_not_matter(left[q], right[q], id);
    }
    assert(left.map_values(|candidates: Seq<(u64, u32)>| indexed::contribution(candidates, id))
        =~= right.map_values(|candidates: Seq<(u64, u32)>| indexed::contribution(candidates, id)));
    if indexed::is_found(left, id) {
        let q = choose|q: int|
            0 <= q < left.len() && indexed::least(#[trigger] left[q], id) is Some;
        assert(indexed::least(right[q], id) is Some);
    }
    if indexed::is_found(right, id) {
        let q = choose|q: int|
            0 <= q < right.len() && indexed::least(#[trigger] right[q], id) is Some;
        assert(indexed::least(left[q], id) is Some);
    }
}

/// A row that a query vector found is no farther from it than one that it missed.
pub proof fn law_found_is_no_farther_than_missed(candidates: Seq<(u64, u32)>, id: u64)
    ensures
        indexed::contribution(candidates, id) <= indexed::missing_distance(candidates),
{
    law_least_is_least(candidates, id);
    law_greatest_is_greatest(candidates);
}

/// Where the index found a row at its nearest distance for every query vector, the index search gives
/// the row the distance that exact scoring gives it.
pub proof fn law_indexed_and_exact_distances_agree(
    queries: Seq<Seq<(u64, u32)>>,
    id: u64,
    table: Seq<Seq<u32>>,
    score: u32,
)
    requires
        queries.len() == table.len(),
        score::row_score(table) == Ok::<Option<u32>, ScoreError>(Some(score)),
        forall|q: int|
            0 <= q < queries.len() ==> indexed::least(#[trigger] queries[q], id) == Some(
                float::value(score::nearest(table[q]).unwrap()),
            ),
    ensures
        float::nearest_single(indexed::total(queries, id)) == score,
{
    let found = queries.map_values(
        |candidates: Seq<(u64, u32)>| indexed::contribution(candidates, id),
    );
    assert forall|q: int| 0 <= q < found.len() implies #[trigger] found[q] == score::minima(
        table,
    )[q] by {
        assert(indexed::least(queries[q], id) is Some);
    }
    assert(found =~= score::minima(table));
}

/// No row is farther than one that every query vector missed.
pub proof fn law_missed_rows_are_farthest(queries: Seq<Seq<(u64, u32)>>, id: u64)
    ensures
        indexed::total(queries, id) <= indexed::total_missed(queries),
{
    let each = queries.map_values(
        |candidates: Seq<(u64, u32)>| indexed::contribution(candidates, id),
    );
    let missed = queries.map_values(
        |candidates: Seq<(u64, u32)>| indexed::missing_distance(candidates),
    );
    assert forall|q: int| 0 <= q < each.len() implies #[trigger] each[q] <= missed[q] by {
        law_found_is_no_farther_than_missed(queries[q], id);
    }
    law_sum_is_monotone(each, missed);
}

/// Rewriting a rewritten plan changes nothing.
pub proof fn law_rewrite_is_idempotent(before: Plan, after: Plan)
    requires
        plan::is_rewritten(before, after),
        !before.has_batch_query(),
    ensures
        !after.has_batch_query(),
        plan::is_rewritten(after, after),
    decreases before,
{
    assert forall|i: int| 0 <= i < after.children@.len() implies !(
    #[trigger] after.children@[i]).has_batch_query() && plan::is_rewritten(
        after.children@[i],
        after.children@[i],
    ) by {
        assert(plan::is_rewritten(before.children@[i], after.children@[i]));
        assert(!before.children@[i].has_batch_query());
        law_rewrite_is_idempotent(before.children@[i], after.children@[i]);
    }
}

/// After rewriting, no distance is left to a node that the library replaces.
pub proof fn law_rewrite_reaches_every_node(before: Plan, after: Plan)
    requires
        plan::is_rewritten(before, after),
    ensures
        after.is_scored(),
    decreases before,
{
    assert forall|i: int| 0 <= i < after.children@.len() implies (
    #[trigger] after.children@[i]).is_scored() by {
        assert(plan::is_rewritten(before.children@[i], after.children@[i]));
        law_rewrite_reaches_every_node(before.children@[i], after.children@[i]);
    }
}

/// A row without a row id, without a list or with an empty list is left out of the result.
pub proof fn law_rows_without_vectors_are_left_out(
    batch: Batch,
    query: ElementArray,
    path: Seq<char>,
    metric: Metric,
    names: Seq<Seq<char>>,
    outcome: Result<Scored, Failure>,
    vectors: Column,
    i: int,
)
    requires
        batch.num_rows > 0,
        exact::is_exact_outcome(batch, query, path, metric, names, outcome),
        outcome is Ok,
        column::vector_column_of(batch, path) == Ok::<Column, Failure>(vectors),
        0 <= i < batch.num_rows,
        exact::null_row_id(batch, i) || vectors.nulls@[i] || (vectors.data matches ColumnData::List(
            rows,
        ) && rows@[i] matches Row::FixedSizeLists(lists) && lists.count == 0),
    ensures
        outcome matches Ok(Scored::Rows { sources, distances, mask }) && distances[i] is None
            && !mask[i],
{
    let scores = choose|scores: Result<Seq<Option<u32>>, Failure>|
        #[trigger] exact::are_scores(batch, vectors, query, metric, scores) && outcome == (
        match scores {
            Ok(distances) => exact::assembled(batch, names, distances),
            Err(failure) => Err(failure),
        });
    let distances = scores->Ok_0;
    assert(exact::is_outcome(batch, vectors, query, metric, i, Ok(distances[i])));
}

/// A row's outcome depends on its row id and its vectors alone, not on the batch around it.
pub proof fn law_rows_are_scored_alone(
    batch: Batch,
    vectors: Column,
    i: int,
    other: Batch,
    other_vectors: Column,
    j: int,
    query: ElementArray,
    metric: Metric,
    outcome: Result<Option<u32>, Failure>,
)
    requires
        exact::null_row_id(batch, i) == exact::null_row_id(other, j),
        vectors.nulls@[i] == other_vectors.nulls@[j],
        vectors.data is List,
        other_vectors.data is List,
        vectors.data->List_0@[i] == other_vectors.data->List_0@[j],
    ensures
        exact::is_outcome(batch, vectors, query, metric, i, outcome) == exact::is_outcome(
            other,
            other_vectors,
            query,
            metric,
            j,
            outcome,
        ),
{
}

/// Every row that is kept has a finite distance.
pub proof fn law_kept_rows_have_finite_distances(
    batch: Batch,
    query: ElementArray,
    path: Seq<char>,
    metric: Metric,
    names: Seq<Seq<char>>,
    outcome: Result<Scored, Failure>,
    i: int,
)
    requires
        exact::is_exact_outcome(batch, query, path, metric, names, outcome),
        outcome matches Ok(Scored::Rows { sources, distances, mask }) && 0 <= i < mask.len()
            && mask[i],
    ensures
        outcome matches Ok(Scored::Rows { sources, distances, mask }) && distances.len()
            == batch.num_rows && (distances[i] matches Some(distance) && float::is_finite(distance)),
{
    let vectors = column::vector_column_of(batch, path)->Ok_0;
    let scores = choose|scores: Result<Seq<Option<u32>>, Failure>|
        #[trigger] exact::are_scores(batch, vectors, query, metric, scores) && outcome == (
        match scores {
            Ok(distances) => exact::assembled(batch, names, distances),
            Err(failure) => Err(failure),
        });
    let distances = scores->Ok_0;
    assert(exact::is_outcome(batch, vectors, query, metric, i, Ok(distances[i])));
    match vectors.data->List_0@[i] {
        Row::FixedSizeLists(lists) => {
            let table = choose|table: Seq<Seq<u32>>|
                #[trigger] score::is_row_table(metric, query, lists, table)
                    && Ok::<Option<u32>, ScoreError>(distances[i]) == score::row_score(table);
            assert(score::row_score(table) == Ok::<Option<u32>, ScoreError>(distances[i]));
        },
        Row::Other => {},
    }
}

/// A null or non-finite stored element fails the search.
pub proof fn law_incomplete_vectors_fail(
    batch: Batch,
    query: ElementArray,
    path: Seq<char>,
    metric: Metric,
    names: Seq<Seq<char>>,
    outcome: Result<Scored, Failure>,
    vectors: Column,
    i: int,
)
    requires
        exact::is_exact_outcome(batch, query, path, metric, names, outcome),
        column::vector_column_of(batch, path) == Ok::<Column, Failure>(vectors),
        0 <= i < batch.num_rows,
        !exact::null_row_id(batch, i),
        !vectors.nulls@[i],
        vectors.data matches ColumnData::List(rows) && rows@[i] matches Row::FixedSizeLists(lists)
            && lists.count > 0 && !lists.complete(),
    ensures
        outcome is Err,
{
    if outcome is Ok {
        let scores = choose|scores: Result<Seq<Option<u32>>, Failure>|
            #[trigger] exact::are_scores(batch, vectors, query, metric, scores) && outcome == (
            match scores {
                Ok(distances) => exact::assembled(batch, names, distances),
                Err(failure) => Err(failure),
            });
        let distances = scores->Ok_0;
        assert(exact::is_outcome(batch, vectors, query, metric, i, Ok(distances[i])));
    }
}

/// Whether a node that does `operator` can turn the rows `input` into `output`. A row stands for the
/// place of its distance in ascending order, nulls last.
pub open spec fn turns(operator: Operator, input: Seq<int>, output: Seq<int>) -> bool {
    match operator {
        Operator::StrictBatchSize => output == input,
        Operator::CoalescePartitions => output.to_multiset() == input.to_multiset(),
        Operator::SortByDistance { column: _ } => {
            &&& output.to_multiset() == input.to_multiset()
            &&& forall|i: int, j: int| 0 <= i <= j < output.len() ==> output[i] <= output[j]
        },
        Operator::Window { offset, limit } => output == window(input, offset, limit),
        _ => false,
    }
}

/// The rows after the first `offset`, at most `limit` of them.
pub open spec fn window(rows: Seq<int>, offset: usize, limit: Option<usize>) -> Seq<int> {
    let start: int = if offset < rows.len() {
        offset as int
    } else {
        rows.len() as int
    };
    let end: int = match limit {
        Some(limit) if start + limit < rows.len() => start + limit,
        _ => rows.len() as int,
    };
    rows.subrange(start, end)
}

/// Whether the plan can turn the rows of the node `depth` inputs below its root into `output`.
pub open spec fn gives(plan: Plan, depth: nat, rows: Seq<int>, output: Seq<int>) -> bool
    decreases depth,
{
    if depth == 0 {
        output == rows
    } else {
        exists|input: Seq<int>|
            gives(plan.children@[0], (depth - 1) as nat, rows, input) && #[trigger] turns(
                plan.operator,
                input,
                output,
            )
    }
}

/// How many regrouping nodes stand at the top of the plan.
pub open spec fn strict_depth(plan: Plan) -> nat
    decreases plan,
{
    if plan.is_strict() && plan.children@.len() > 0 {
        1 + strict_depth(plan.children@[0])
    } else {
        0
    }
}

/// The rows that the root turns into `output`.
proof fn lemma_last_turn(plan: Plan, depth: nat, rows: Seq<int>, output: Seq<int>) -> (input: Seq<
    int,
>)
    requires
        gives(plan, depth + 1, rows, output),
    ensures
        gives(plan.children@[0], depth, rows, input),
        turns(plan.operator, input, output),
{
    choose|input: Seq<int>|
        gives(plan.children@[0], depth, rows, input) && #[trigger] turns(
            plan.operator,
            input,
            output,
        )
}

/// In whatever order the rows come, the result is the window of them in the order of distances.
pub proof fn law_window_is_in_distance_order(
    before: Plan,
    offset: usize,
    limit: Option<usize>,
    after: Plan,
    rows: Seq<int>,
    output: Seq<int>,
)
    requires
        plan::is_windowed(before, offset, limit, after),
        gives(after, strict_depth(before) + 3, rows, output),
    ensures
        exists|sorted: Seq<int>|
            {
                &&& sorted.to_multiset() == rows.to_multiset()
                &&& forall|i: int, j: int| 0 <= i <= j < sorted.len() ==> sorted[i] <= sorted[j]
                &&& output == #[trigger] window(sorted, offset, limit)
            },
    decreases before,
{
    let depth = strict_depth(before) + 2;
    let input = lemma_last_turn(after, depth, rows, output);
    if before.is_strict() && before.children@.len() > 0 {
        law_window_is_in_distance_order(
            before.children@[0],
            offset,
            limit,
            after.children@[0],
            rows,
            input,
        );
    } else {
        let sort = after.children@[0];
        let merge = sort.children@[0];
        let merged = lemma_last_turn(sort, 1, rows, input);
        let whole = lemma_last_turn(merge, 0, rows, merged);
        assert(output == window(input, offset, limit));
    }
}

/// The window leaves a regrouping node at the top of the plan where it is.
pub proof fn law_window_stays_below_regrouping(
    before: Plan,
    offset: usize,
    limit: Option<usize>,
    after: Plan,
)
    requires
        before.wf(),
        plan::is_windowed(before, offset, limit, after),
    ensures
        after.is_strict() == before.is_strict(),
        before.is_strict() ==> after.source == before.source,
        strict_depth(after) == strict_depth(before),
    decreases before,
{
    if before.is_strict() {
        law_window_stays_below_regrouping(
            before.children@[0],
            offset,
            limit,
            after.children@[0],
        );
    }
}

/// Whether every batch but the last has `size` rows, and the last at least one and at most `size`.
pub open spec fn are_of_size(batches: Seq<Seq<int>>, size: nat) -> bool {
    forall|i: int|
        0 <= i < batches.len() ==> if i + 1 < batches.len() {
            (#[trigger] batches[i]).len() == size
        } else {
            1 <= batches[i].len() <= size
        }
}

/// Whether the root of the plan can turn the batches `input` into `output`: its rows as [`turns`]
/// says, in batches of any size unless it regroups them. `sizes` gives the batch size of each
/// regrouping node, by the caller's number for it.
pub open spec fn turns_batches(
    plan: Plan,
    sizes: spec_fn(Option<usize>) -> nat,
    input: Seq<Seq<int>>,
    output: Seq<Seq<int>>,
) -> bool {
    &&& turns(plan.operator, concatenated(input), concatenated(output))
    &&& plan.operator is StrictBatchSize ==> are_of_size(output, sizes(plan.source))
}

/// Whether the plan can turn the batches of the node `depth` inputs below its root into `output`.
pub open spec fn gives_batches(
    plan: Plan,
    depth: nat,
    sizes: spec_fn(Option<usize>) -> nat,
    batches: Seq<Seq<int>>,
    output: Seq<Seq<int>>,
) -> bool
    decreases depth,
{
    if depth == 0 {
        output == batches
    } else {
        exists|input: Seq<Seq<int>>|
            gives_batches(plan.children@[0], (depth - 1) as nat, sizes, batches, input)
                && #[trigger] turns_batches(plan, sizes, input, output)
    }
}

/// What a plan does to batches it does to their rows.
proof fn lemma_batches_hold_rows(
    plan: Plan,
    depth: nat,
    sizes: spec_fn(Option<usize>) -> nat,
    batches: Seq<Seq<int>>,
    output: Seq<Seq<int>>,
)
    requires
        gives_batches(plan, depth, sizes, batches, output),
    ensures
        gives(plan, depth, concatenated(batches), concatenated(output)),
        depth > 0 && plan.operator is StrictBatchSize ==> are_of_size(output, sizes(plan.source)),
    decreases depth,
{
    if depth > 0 {
        let input = choose|input: Seq<Seq<int>>|
            gives_batches(plan.children@[0], (depth - 1) as nat, sizes, batches, input)
                && #[trigger] turns_batches(plan, sizes, input, output);
        lemma_batches_hold_rows(plan.children@[0], (depth - 1) as nat, sizes, batches, input);
        assert(turns(plan.operator, concatenated(input), concatenated(output)));
    }
}

/// Where the root of a plan regroups its rows, every batch of the windowed plan but the last has the
/// root's batch size, whatever the window is, and the batches hold the window of the rows in the
/// order of distances.
pub proof fn law_window_keeps_batch_sizes(
    before: Plan,
    offset: usize,
    limit: Option<usize>,
    after: Plan,
    sizes: spec_fn(Option<usize>) -> nat,
    batches: Seq<Seq<int>>,
    output: Seq<Seq<int>>,
)
    requires
        before.wf(),
        before.is_strict(),
        plan::is_windowed(before, offset, limit, after),
        gives_batches(after, strict_depth(before) + 3, sizes, batches, output),
    ensures
        are_of_size(output, sizes(before.source)),
        exists|sorted: Seq<int>|
            {
                &&& sorted.to_multiset() == concatenated(batches).to_multiset()
                &&& forall|i: int, j: int| 0 <= i <= j < sorted.len() ==> sorted[i] <= sorted[j]
                &&& concatenated(output) == #[trigger] window(sorted, offset, limit)
            },
{
    lemma_batches_hold_rows(after, strict_depth(before) + 3, sizes, batches, output);
    law_window_is_in_distance_order(
        before,
        offset,
        limit,
        after,
        concatenated(batches),
        concatenated(output),
    );
}

/// Whether `batch` holds the rows from `start` to before `end`.
pub open spec fn is_run(rows: Seq<int>, start: int, end: int, batch: Seq<int>) -> bool {
    &&& 0 <= start <= end <= rows.len()
    &&& batch == rows.subrange(start, end)
}

/// Batches of one size are the runs of that many rows, one after the other: their rows and the size
/// fix them.
pub proof fn law_batches_of_one_size_are_runs(batches: Seq<Seq<int>>, size: nat)
    requires
        are_of_size(batches, size),
    ensures
        batches.len() > 0 ==> (batches.len() - 1) * size < concatenated(batches).len()
            <= batches.len() * size,
        batches.len() == 0 ==> concatenated(batches).len() == 0,
        forall|i: int|
            0 <= i < batches.len() ==> is_run(
                concatenated(batches),
                i * size,
                if i + 1 < batches.len() {
                    i * size + size
                } else {
                    concatenated(batches).len() as int
                },
                #[trigger] batches[i],
            ),
    decreases batches.len(),
{
    if batches.len() > 0 {
        let less = batches.drop_last();
        let last = batches.last();
        let k = less.len() as int;
        assert(batches[k] == last);
        assert forall|i: int| 0 <= i < less.len() implies (#[trigger] less[i]).len() == size by {
            assert(less[i] == batches[i]);
        }
        assert(less.len() > 0 ==> size > 0);
        law_batches_of_one_size_are_runs(less, size);
        let (all, rest) = (concatenated(batches), concatenated(less));
        assert(all == rest + last);
        if k > 0 {
            assert(is_run(rest, (k - 1) * size, rest.len() as int, less[k - 1]));
            assert((k - 1) * size + size == k * size) by (nonlinear_arith);
        }
        assert(rest.len() == k * size);
        assert((k + 1) * size == k * size + size) by (nonlinear_arith);
        assert forall|i: int| 0 <= i < batches.len() implies is_run(
            all,
            i * size,
            if i + 1 < batches.len() {
                i * size + size
            } else {
                all.len() as int
            },
            #[trigger] batches[i],
        ) by {
            if i < k {
                assert(less[i] == batches[i]);
                let end = if i + 1 < k {
                    i * size + size
                } else {
                    rest.len() as int
                };
                assert(i * size + size <= k * size && 0 <= i * size) by (nonlinear_arith)
                    requires
                        0 <= i < k,
                ;
                assert(i + 1 == k ==> i * size + size == k * size) by (nonlinear_arith);
                assert(is_run(rest, i * size, end, less[i]));
                assert(all.subrange(i * size, end) =~= rest.subrange(i * size, end));
            } else {
                assert(0 <= i * size) by (nonlinear_arith)
                    requires
                        0 <= i,
                ;
                assert(last =~= all.subrange(i * size, all.len() as int));
            }
        }
    }
}

} // verus!
