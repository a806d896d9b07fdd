//! What holds of the score of a row, in terms of the query's and the row's elements.

use crate::accumulator;
use crate::element;
use crate::element::Element;
use crate::error::ScoreError;
use crate::float;
use crate::laws;
use crate::model;
use crate::model::{ElementArray, Elements, Metric, SubVectors};
use crate::score;
use vstd::prelude::*;

verus! {

/// Whether a binary16 encoding is below the infinity of its sign.
pub open spec fn is_number16(bits: u16) -> bool {
    bits < 0x7c00 || 0x8000 <= bits < 0xfc00
}

/// Whether a binary32 encoding is below the infinity of its sign.
pub open spec fn is_number32(bits: u32) -> bool {
    bits < 0x7f80_0000 || 0x8000_0000 <= bits < 0xff80_0000
}

/// Whether a binary64 encoding is below the infinity of its sign.
pub open spec fn is_number64(bits: u64) -> bool {
    bits < 0x7ff0_0000_0000_0000 || 0x8000_0000_0000_0000 <= bits < 0xfff0_0000_0000_0000
}

/// Whether a binary32 encoding is above the infinity of its sign.
pub open spec fn is_undefined32(bits: u32) -> bool {
    0x7f80_0000 < bits < 0x8000_0000 || bits > 0xff80_0000
}

/// Whether the elements are floating-point numbers without an infinity or a NaN.
pub open spec fn are_numbers(elements: Elements) -> bool {
    match elements {
        Elements::Float16(bits) => forall|i: int|
            0 <= i < bits@.len() ==> is_number16(#[trigger] bits@[i]),
        Elements::Float32(bits) => forall|i: int|
            0 <= i < bits@.len() ==> is_number32(#[trigger] bits@[i]),
        Elements::Float64(bits) => forall|i: int|
            0 <= i < bits@.len() ==> is_number64(#[trigger] bits@[i]),
        Elements::Other => false,
    }
}

/// An element array is finite where no element is an infinity or a NaN.
pub proof fn law_finite_elements(elements: Elements)
    ensures
        elements.finite() <==> are_numbers(elements),
{
    match elements {
        Elements::Float16(bits) => {
            assert forall|i: int| 0 <= i < bits@.len() implies (#[trigger] bits@[i]).finite()
                == is_number16(bits@[i]) by {}
            if are_numbers(elements) {
                assert(model::every_finite(bits@));
            }
        },
        Elements::Float32(bits) => {
            assert forall|i: int| 0 <= i < bits@.len() implies (#[trigger] bits@[i]).finite()
                == is_number32(bits@[i]) by {}
            if are_numbers(elements) {
                assert(model::every_finite(bits@));
            }
        },
        Elements::Float64(bits) => {
            assert forall|i: int| 0 <= i < bits@.len() implies (#[trigger] bits@[i]).finite()
                == is_number64(bits@[i]) by {}
            if are_numbers(elements) {
                assert(model::every_finite(bits@));
            }
        },
        Elements::Other => {},
    }
}

/// The width of an element in bits; zero where it is no floating-point number.
pub open spec fn width(elements: Elements) -> nat {
    match elements {
        Elements::Float16(_) => 16,
        Elements::Float32(_) => 32,
        Elements::Float64(_) => 64,
        Elements::Other => 0,
    }
}

/// A row fails before any distance is measured exactly where the query has no floating-point
/// elements, where the row's have another width, or where a vector or an element of the row is null
/// or no number.
pub proof fn law_row_errors(query: ElementArray, vectors: SubVectors)
    ensures
        score::row_error(query, vectors) == (if width(query.elements) == 0 {
            Some(ScoreError::UnsupportedElementType)
        } else if width(query.elements) != width(vectors.values.elements) {
            Some(ScoreError::StoredElementType)
        } else if vectors.null_count > 0 || vectors.values.null_count > 0 || !are_numbers(
            vectors.values.elements,
        ) {
            Some(ScoreError::StoredElements)
        } else {
            None
        }),
{
    law_finite_elements(vectors.values.elements);
}

/// A row that fails before any distance is measured has that failure.
pub proof fn law_failing_row_has_its_error(
    metric: Metric,
    query: ElementArray,
    vectors: SubVectors,
    outcome: Result<Option<u32>, ScoreError>,
)
    requires
        score::is_row_outcome(metric, query, vectors, outcome),
    ensures
        score::row_error(query, vectors) matches Some(error) ==> outcome == Err::<
            Option<u32>,
            ScoreError,
        >(error),
{
}

/// Whether `best` is one of `distances`, is defined, and comes after none of the defined ones.
pub open spec fn is_minimum(distances: Seq<u32>, best: u32) -> bool {
    &&& exists|j: int| 0 <= j < distances.len() && #[trigger] distances[j] == best
    &&& !is_undefined32(best)
    &&& forall|j: int|
        0 <= j < distances.len() && !is_undefined32(#[trigger] distances[j])
            ==> float::total_position(best) <= float::total_position(distances[j])
}

/// Whether `best` holds the minimum of each row of `table`.
pub open spec fn are_minima(table: Seq<Seq<u32>>, best: Seq<u32>) -> bool {
    &&& best.len() == table.len()
    &&& forall|i: int| 0 <= i < table.len() ==> is_minimum(#[trigger] table[i], best[i])
}

/// Whether no distance of row `i` is defined.
pub open spec fn is_undefined_row(table: Seq<Seq<u32>>, i: int) -> bool {
    &&& 0 <= i < table.len()
    &&& forall|j: int| 0 <= j < table[i].len() ==> is_undefined32(#[trigger] table[i][j])
}

/// The sum of the numbers, rounded to double precision after each and to single at the end.
pub open spec fn single_sum(numbers: Seq<u32>) -> u32 {
    float::nearest_single(
        accumulator::rounded_sum(Seq::new(numbers.len(), |i: int| float::value(numbers[i]))),
    )
}

/// Whether `outcome` is right for a row whose distances to each query vector are `table`: nothing
/// where a query vector has no defined distance, otherwise the sum of the minima, if it is finite.
pub open spec fn is_late_interaction(
    table: Seq<Seq<u32>>,
    outcome: Result<Option<u32>, ScoreError>,
) -> bool {
    match outcome {
        Ok(None) => exists|i: int| #[trigger] is_undefined_row(table, i),
        Ok(Some(score)) => exists|best: Seq<u32>|
            {
                &&& #[trigger] are_minima(table, best)
                &&& forall|i: int| 0 <= i < best.len() ==> is_number32(#[trigger] best[i])
                &&& is_number32(score)
                &&& score == single_sum(best)
            },
        Err(error) => error == ScoreError::DistanceNotFinite && exists|best: Seq<u32>|
            {
                &&& #[trigger] are_minima(table, best)
                &&& (exists|i: int| 0 <= i < best.len() && !is_number32(#[trigger] best[i]))
                    || !is_number32(single_sum(best))
            },
    }
}

/// The nearest distance is the minimum of the defined ones, and there is none only where no distance
/// is defined.
pub proof fn law_nearest_is_the_minimum(distances: Seq<u32>)
    ensures
        match score::nearest(distances) {
            Some(best) => is_minimum(distances, best),
            None => forall|j: int|
                0 <= j < distances.len() ==> is_undefined32(#[trigger] distances[j]),
        },
{
    laws::law_nearest_is_least(distances);
    assert forall|j: int| 0 <= j < distances.len() implies float::is_nan(#[trigger] distances[j])
        == is_undefined32(distances[j]) by {}
    if let Some(best) = score::nearest(distances) {
        let j = choose|j: int| 0 <= j < distances.len() && distances[j] == best;
        assert(distances[j] == best);
    }
}

/// There is one minimum.
proof fn lemma_one_minimum(distances: Seq<u32>, left: u32, right: u32)
    requires
        is_minimum(distances, left),
        is_minimum(distances, right),
    ensures
        left == right,
{
    let i = choose|i: int| 0 <= i < distances.len() && #[trigger] distances[i] == left;
    let j = choose|j: int| 0 <= j < distances.len() && #[trigger] distances[j] == right;
    assert(float::total_position(distances[i]) <= float::total_position(distances[j]));
    assert(float::total_position(distances[j]) <= float::total_position(distances[i]));
}

/// The score of a table of distances is the sum of the minima of its rows.
pub proof fn law_score_is_the_sum_of_minima(table: Seq<Seq<u32>>)
    ensures
        is_late_interaction(table, score::row_score(table)),
        forall|i: int| #[trigger]
            is_undefined_row(table, i) ==> score::row_score(table) == Ok::<Option<u32>, ScoreError>(
                None,
            ),
{
    let best = Seq::new(table.len(), |i: int| score::nearest(table[i]).unwrap());
    assert forall|i: int| 0 <= i < table.len() && score::nearest(table[i]) is Some implies
        is_minimum(#[trigger] table[i], best[i]) by {
        law_nearest_is_the_minimum(table[i]);
    }
    assert forall|i: int| #[trigger] is_undefined_row(table, i) implies score::nearest(table[i])
        is None by {
        law_nearest_is_the_minimum(table[i]);
    }
    if exists|i: int| 0 <= i < table.len() && score::nearest(#[trigger] table[i]) is None {
        let i = choose|i: int| 0 <= i < table.len() && score::nearest(#[trigger] table[i]) is None;
        law_nearest_is_the_minimum(table[i]);
        assert(is_undefined_row(table, i));
    } else {
        assert(are_minima(table, best));
        assert forall|i: int| 0 <= i < table.len() implies float::is_finite(
            score::nearest(#[trigger] table[i]).unwrap(),
        ) == is_number32(best[i]) by {}
        assert(score::minima(table) =~= Seq::new(best.len(), |i: int| float::value(best[i])));
        if exists|i: int|
            0 <= i < table.len() && !float::is_finite(
                score::nearest(#[trigger] table[i]).unwrap(),
            ) {
            let i = choose|i: int|
                0 <= i < table.len() && !float::is_finite(
                    score::nearest(#[trigger] table[i]).unwrap(),
                );
            assert(!is_number32(best[i]));
        } else {
            assert forall|i: int| 0 <= i < best.len() implies is_number32(#[trigger] best[i]) by {
                assert(float::is_finite(score::nearest(table[i]).unwrap()));
            }
            assert(score::row_score(table) == (if is_number32(single_sum(best)) {
                Ok::<Option<u32>, ScoreError>(Some(single_sum(best)))
            } else {
                Err(ScoreError::DistanceNotFinite)
            }));
        }
    }
}

/// A row has one right outcome for given distances.
pub proof fn law_late_interaction_is_a_function(
    table: Seq<Seq<u32>>,
    left: Result<Option<u32>, ScoreError>,
    right: Result<Option<u32>, ScoreError>,
)
    requires
        is_late_interaction(table, left),
        is_late_interaction(table, right),
    ensures
        left == right,
{
    assert forall|i: int, best: Seq<u32>| #[trigger]
        is_undefined_row(table, i) && #[trigger] are_minima(table, best) implies false by {
        assert(is_minimum(table[i], best[i]));
        let j = choose|j: int| 0 <= j < table[i].len() && #[trigger] table[i][j] == best[i];
        assert(is_undefined32(table[i][j]));
    }
    assert forall|a: Seq<u32>, b: Seq<u32>| #[trigger]
        are_minima(table, a) && #[trigger] are_minima(table, b) implies a == b by {
        assert forall|i: int| 0 <= i < table.len() implies a[i] == b[i] by {
            assert(is_minimum(table[i], a[i]));
            assert(is_minimum(table[i], b[i]));
            lemma_one_minimum(table[i], a[i], b[i]);
        }
        assert(a =~= b);
    }
}

/// The vector that starts at element `i * dimension`.
pub open spec fn vector<T>(elements: Seq<T>, dimension: int, i: int) -> Seq<T> {
    Seq::new(dimension as nat, |k: int| elements[i * dimension + k])
}

/// Whether `table` holds a distance for each pair of a whole query vector and a whole stored vector,
/// and nothing else.
pub open spec fn are_all_pairs<T>(
    query: Seq<T>,
    stored: Seq<T>,
    dimension: int,
    is_distance: spec_fn(Seq<T>, Seq<T>, u32) -> bool,
    table: Seq<Seq<u32>>,
) -> bool {
    &&& table.len() * dimension <= query.len() < table.len() * dimension + dimension
    &&& forall|i: int|
        0 <= i < table.len() ==> {
            let count = (#[trigger] table[i]).len();
            count * dimension <= stored.len() < count * dimension + dimension
        }
    &&& forall|i: int, j: int|
        0 <= i < table.len() && 0 <= j < table[i].len() ==> is_distance(
            vector(query, dimension, i),
            vector(stored, dimension, j),
            #[trigger] table[i][j],
        )
}

/// Whether `table` holds, by the row's element type, a distance for each pair of a query vector and a
/// stored vector.
pub open spec fn is_measured(
    metric: Metric,
    query: Elements,
    stored: Elements,
    dimension: int,
    table: Seq<Seq<u32>>,
) -> bool {
    match (query, stored) {
        (Elements::Float16(q), Elements::Float16(v)) => are_all_pairs(
            q@,
            v@,
            dimension,
            |a: Seq<u16>, b: Seq<u16>, d: u32| element::is_half_distance(metric, a, b, d),
            table,
        ),
        (Elements::Float32(q), Elements::Float32(v)) => are_all_pairs(
            q@,
            v@,
            dimension,
            |a: Seq<u32>, b: Seq<u32>, d: u32| element::is_single_distance(metric, a, b, d),
            table,
        ),
        (Elements::Float64(q), Elements::Float64(v)) => are_all_pairs(
            q@,
            v@,
            dimension,
            |a: Seq<u64>, b: Seq<u64>, d: u32| element::is_double_distance(metric, a, b, d),
            table,
        ),
        _ => false,
    }
}

/// A distance table of the contract holds all pairs.
proof fn lemma_all_pairs<T: Element>(
    metric: Metric,
    query: Seq<T>,
    stored: Seq<T>,
    dimension: nat,
    table: Seq<Seq<u32>>,
    is_distance: spec_fn(Seq<T>, Seq<T>, u32) -> bool,
)
    requires
        dimension > 0,
        score::is_distance_table(metric, query, stored, dimension, table),
        forall|a: Seq<T>, b: Seq<T>, d: u32| #[trigger]
            T::is_distance(metric, a, b, d) ==> is_distance(a, b, d),
    ensures
        are_all_pairs(query, stored, dimension as int, is_distance, table),
{
    laws::lemma_whole_vectors(query.len(), dimension);
    laws::lemma_whole_vectors(stored.len(), dimension);
    assert forall|i: int, j: int| 0 <= i < table.len() && 0 <= j < table[i].len() implies is_distance(
        vector(query, dimension as int, i),
        vector(stored, dimension as int, j),
        #[trigger] table[i][j],
    ) by {
        laws::lemma_chunk_inside(query.len(), dimension, i);
        laws::lemma_chunk_inside(stored.len(), dimension, j);
        let row = table[i];
        assert(score::is_distance_row(
            metric,
            score::chunk(query, dimension, i),
            stored,
            dimension,
            row,
        ));
        assert(score::is_distance_of(
            metric,
            score::chunk(query, dimension, i),
            score::chunk(stored, dimension, j),
            row[j],
        ));
        assert(vector(query, dimension as int, i) =~= score::chunk(query, dimension, i));
        assert(vector(stored, dimension as int, j) =~= score::chunk(stored, dimension, j));
    }
    assert forall|i: int| 0 <= i < table.len() implies {
        let count = (#[trigger] table[i]).len();
        count * dimension <= stored.len() < count * dimension + dimension
    } by {
        assert(score::is_distance_row(
            metric,
            score::chunk(query, dimension, i),
            stored,
            dimension,
            table[i],
        ));
    }
}

/// The outcome for a row that can be scored follows from the distances of every query vector to every
/// stored vector: for each query vector the nearest of all stored vectors, summed.
pub proof fn law_every_pair_of_vectors_counts(
    metric: Metric,
    query: ElementArray,
    vectors: SubVectors,
    outcome: Result<Option<u32>, ScoreError>,
)
    requires
        score::is_row_outcome(metric, query, vectors, outcome),
        score::row_error(query, vectors) is None,
        vectors.dimension > 0,
    ensures
        exists|table: Seq<Seq<u32>>|
            #[trigger] is_measured(
                metric,
                query.elements,
                vectors.values.elements,
                vectors.dimension as int,
                table,
            ) && is_late_interaction(table, outcome),
{
    let dimension = vectors.dimension as nat;
    let table = choose|table: Seq<Seq<u32>>|
        #[trigger] score::is_row_table(metric, query, vectors, table) && outcome
            == score::row_score(table);
    law_score_is_the_sum_of_minima(table);
    match (query.elements, vectors.values.elements) {
        (Elements::Float16(q), Elements::Float16(v)) => {
            let is_distance = |a: Seq<u16>, b: Seq<u16>, d: u32|
                element::is_half_distance(metric, a, b, d);
            lemma_all_pairs::<u16>(metric, q@, v@, dimension, table, is_distance);
        },
        (Elements::Float32(q), Elements::Float32(v)) => {
            let is_distance = |a: Seq<u32>, b: Seq<u32>, d: u32|
                element::is_single_distance(metric, a, b, d);
            lemma_all_pairs::<u32>(metric, q@, v@, dimension, table, is_distance);
        },
        (Elements::Float64(q), Elements::Float64(v)) => {
            let is_distance = |a: Seq<u64>, b: Seq<u64>, d: u32|
                element::is_double_distance(metric, a, b, d);
            lemma_all_pairs::<u64>(metric, q@, v@, dimension, table, is_distance);
        },
        _ => {},
    }
    assert(is_measured(
        metric,
        query.elements,
        vectors.values.elements,
        vectors.dimension as int,
        table,
    ));
}

/// A table of vectors stands for the table of their elements.
pub proof fn law_table_keeps_its_distances(table: Seq<Vec<u32>>, i: int)
    ensures
        score::distances_of(table).len() == table.len(),
        0 <= i < table.len() ==> score::distances_of(table)[i] == table[i]@,
{
}

} // verus!
