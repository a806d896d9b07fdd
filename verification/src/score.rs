//! The score of one row: for each query vector the nearest stored vector, then the sum.

use crate::accumulator;
use crate::accumulator::Accumulator;
use crate::element::Element;
use crate::error::ScoreError;
use crate::float;
use crate::model::{ElementArray, Elements, Metric, SubVectors};
use vstd::arithmetic::div_mod::lemma_fundamental_div_mod;
use vstd::arithmetic::mul::{lemma_mul_inequality, lemma_mul_is_commutative};
use vstd::prelude::*;
use vstd::slice::slice_subrange;

verus! {

/// The first of `distances`, in the IEEE 754 total order, that is not a NaN.
pub open spec fn nearest(distances: Seq<u32>) -> Option<u32>
    decreases distances.len(),
{
    if distances.len() == 0 {
        None
    } else {
        let last = distances.last();
        match nearest(distances.drop_last()) {
            Some(best) if float::is_nan(last) || float::total_position(best)
                <= float::total_position(last) => Some(best),
            None if float::is_nan(last) => None,
            _ => Some(last),
        }
    }
}

/// The values of the nearest distances of the rows of `table`, where each has a finite one.
pub open spec fn minima(table: Seq<Seq<u32>>) -> Seq<int> {
    table.map_values(|distances: Seq<u32>| float::value(nearest(distances).unwrap()))
}

/// The outcome for a row whose distances, one sequence for each query vector, are `table`.
///
/// A query vector without any defined distance masks the row. A sum that leaves the binary32 range,
/// or that has an infinite term, is an error.
pub open spec fn row_score(table: Seq<Seq<u32>>) -> Result<Option<u32>, ScoreError> {
    if exists|i: int| 0 <= i < table.len() && nearest(#[trigger] table[i]) is None {
        Ok(None)
    } else if exists|i: int|
        0 <= i < table.len() && !float::is_finite(nearest(#[trigger] table[i]).unwrap()) {
        Err(ScoreError::DistanceNotFinite)
    } else {
        let score = float::nearest_single(accumulator::rounded_sum(minima(table)));
        if float::is_finite(score) {
            Ok(Some(score))
        } else {
            Err(ScoreError::DistanceNotFinite)
        }
    }
}

/// The first of `distances`, in the IEEE 754 total order, that is not a NaN.
pub fn nearest_distance(distances: &Vec<u32>) -> (best: Option<u32>)
    ensures
        best == nearest(distances@),
{
    let mut best: Option<u32> = None;
    for i in 0..distances.len()
        invariant
            best == nearest(distances@.take(i as int)),
    {
        let distance: u32 = distances[i];
        proof {
            assert(distances@.take(i + 1).drop_last() =~= distances@.take(i as int));
        }
        if !float::single_is_nan(distance) {
            best = match best {
                Some(known) => if float::precedes(distance, known) {
                    Some(distance)
                } else {
                    Some(known)
                },
                None => Some(distance),
            };
        }
    }
    proof {
        assert(distances@.take(distances.len() as int) =~= distances@);
    }
    best
}

/// The distances of a table, as mathematical sequences.
pub open spec fn distances_of(table: Seq<Vec<u32>>) -> Seq<Seq<u32>> {
    table.map_values(|distances: Vec<u32>| distances@)
}

/// Sums, over the query vectors, the distance to the nearest stored vector.
pub fn score_row(table: &Vec<Vec<u32>>) -> (score: Result<Option<u32>, ScoreError>)
    ensures
        score == row_score(distances_of(table@)),
{
    let ghost rows = distances_of(table@);
    let mut sum: Accumulator = Accumulator::zero();
    let mut finite: bool = true;
    for i in 0..table.len()
        invariant
            rows == distances_of(table@),
            forall|j: int| 0 <= j < i ==> nearest(#[trigger] rows[j]) is Some,
            finite <==> forall|j: int|
                0 <= j < i ==> float::is_finite(nearest(#[trigger] rows[j]).unwrap()),
            finite ==> sum@ == accumulator::rounded_sum(minima(rows.take(i as int))),
    {
        proof {
            assert(rows[i as int] == table@[i as int]@);
            assert(minima(rows.take(i + 1)).drop_last() =~= minima(rows.take(i as int)));
        }
        match nearest_distance(&table[i]) {
            Some(best) => {
                if finite && float::single_is_finite(best) {
                    sum = sum.add(best);
                    proof {
                        assert(minima(rows.take(i + 1)).last() == float::value(best));
                    }
                } else {
                    finite = false;
                }
            },
            None => {
                return Ok(None);
            },
        }
    }
    proof {
        assert(rows.take(rows.len() as int) =~= rows);
    }
    if !finite {
        return Err(ScoreError::DistanceNotFinite);
    }
    let score: u32 = sum.to_single();
    if float::single_is_finite(score) {
        Ok(Some(score))
    } else {
        Err(ScoreError::DistanceNotFinite)
    }
}

/// The `i`-th run of `dimension` elements.
pub open spec fn chunk<T>(elements: Seq<T>, dimension: nat, i: int) -> Seq<T> {
    elements.subrange(i * dimension, i * dimension + dimension)
}

/// Whether `distance` is a distance that the distance function can give for the two vectors; it is
/// a NaN where that is undefined.
pub open spec fn is_distance_of<T: Element>(
    metric: Metric,
    query: Seq<T>,
    vector: Seq<T>,
    distance: u32,
) -> bool {
    &&& T::is_distance(metric, query, vector, distance)
    &&& T::is_undefined(metric, query, vector) ==> float::is_nan(distance)
}

/// Whether `distances` are the distances of `query` to the whole vectors in `stored`, in order.
pub open spec fn is_distance_row<T: Element>(
    metric: Metric,
    query: Seq<T>,
    stored: Seq<T>,
    dimension: nat,
    distances: Seq<u32>,
) -> bool {
    &&& distances.len() == stored.len() / dimension
    &&& forall|j: int|
        0 <= j < distances.len() ==> is_distance_of(
            metric,
            query,
            chunk(stored, dimension, j),
            #[trigger] distances[j],
        )
}

/// Whether `table` holds, for each whole vector in `query`, its distances to those in `stored`.
/// Elements after the last whole vector play no part.
pub open spec fn is_distance_table<T: Element>(
    metric: Metric,
    query: Seq<T>,
    stored: Seq<T>,
    dimension: nat,
    table: Seq<Seq<u32>>,
) -> bool {
    &&& table.len() == query.len() / dimension
    &&& forall|i: int|
        0 <= i < table.len() ==> is_distance_row(
            metric,
            chunk(query, dimension, i),
            stored,
            dimension,
            #[trigger] table[i],
        )
}

/// Whether `table` holds the distances of the query's vectors to those of the row.
pub open spec fn is_row_table(
    metric: Metric,
    query: ElementArray,
    vectors: SubVectors,
    table: Seq<Seq<u32>>,
) -> bool {
    let dimension = vectors.dimension as nat;
    match (query.elements, vectors.values.elements) {
        (Elements::Float16(q), Elements::Float16(v)) => is_distance_table(
            metric,
            q@,
            v@,
            dimension,
            table,
        ),
        (Elements::Float32(q), Elements::Float32(v)) => is_distance_table(
            metric,
            q@,
            v@,
            dimension,
            table,
        ),
        (Elements::Float64(q), Elements::Float64(v)) => is_distance_table(
            metric,
            q@,
            v@,
            dimension,
            table,
        ),
        _ => false,
    }
}

/// Why the row cannot be scored against the query, whatever the distances are.
pub open spec fn row_error(query: ElementArray, vectors: SubVectors) -> Option<ScoreError> {
    if query.elements is Other {
        Some(ScoreError::UnsupportedElementType)
    } else if !query.elements.same_type(vectors.values.elements) {
        Some(ScoreError::StoredElementType)
    } else if !vectors.complete() {
        Some(ScoreError::StoredElements)
    } else {
        None
    }
}

/// Whether `outcome` is an outcome for the row: its error, or the score for some distances that the
/// distance function can give.
pub open spec fn is_row_outcome(
    metric: Metric,
    query: ElementArray,
    vectors: SubVectors,
    outcome: Result<Option<u32>, ScoreError>,
) -> bool {
    match row_error(query, vectors) {
        Some(error) => outcome == Err::<Option<u32>, ScoreError>(error),
        None => exists|table: Seq<Seq<u32>>|
            #[trigger] is_row_table(metric, query, vectors, table) && outcome == row_score(table),
    }
}

/// The distances of the query vector `query` to the whole vectors in `stored`, in order.
fn distance_row<T: Element>(
    metric: Metric,
    query: &[T],
    stored: &Vec<T>,
    dimension: usize,
) -> (distances: Vec<u32>)
    requires
        dimension > 0,
        metric !is Hamming,
        query@.len() == dimension,
    ensures
        is_distance_row(metric, query@, stored@, dimension as nat, distances@),
{
    let mut distances: Vec<u32> = Vec::new();
    let mut start: usize = 0;
    proof {
        lemma_chunk_room(stored@.len(), dimension as nat, 0);
    }
    while stored.len() - start >= dimension
        invariant
            dimension > 0,
            metric !is Hamming,
            query@.len() == dimension,
            start <= stored@.len(),
            start == distances@.len() * dimension,
            distances@.len() <= stored@.len() / dimension as nat,
            forall|j: int|
                0 <= j < distances@.len() ==> is_distance_of(
                    metric,
                    query@,
                    chunk(stored@, dimension as nat, j),
                    #[trigger] distances@[j],
                ),
        decreases stored@.len() - start,
    {
        let vector: &[T] = slice_subrange(stored.as_slice(), start, start + dimension);
        proof {
            let j = distances@.len() as int;
            lemma_chunk_room(stored@.len(), dimension as nat, j as nat);
            assert(vector@ =~= chunk(stored@, dimension as nat, j));
            assert((j + 1) * dimension == j * dimension + dimension) by (nonlinear_arith);
        }
        distances.push(T::distance(metric, query, vector));
        start = start + dimension;
    }
    proof {
        lemma_chunk_room(stored@.len(), dimension as nat, distances@.len());
    }
    distances
}

/// The distances of the whole vectors in `query` to those in `stored`.
fn distance_table<T: Element>(
    metric: Metric,
    query: &Vec<T>,
    stored: &Vec<T>,
    dimension: usize,
) -> (table: Vec<Vec<u32>>)
    requires
        dimension > 0,
        metric !is Hamming,
    ensures
        is_distance_table(metric, query@, stored@, dimension as nat, distances_of(table@)),
{
    let mut table: Vec<Vec<u32>> = Vec::new();
    let mut start: usize = 0;
    proof {
        lemma_chunk_room(query@.len(), dimension as nat, 0);
    }
    while query.len() - start >= dimension
        invariant
            dimension > 0,
            metric !is Hamming,
            start <= query@.len(),
            start == table@.len() * dimension,
            table@.len() <= query@.len() / dimension as nat,
            forall|i: int|
                0 <= i < table@.len() ==> is_distance_row(
                    metric,
                    chunk(query@, dimension as nat, i),
                    stored@,
                    dimension as nat,
                    (#[trigger] table@[i])@,
                ),
        decreases query@.len() - start,
    {
        let vector: &[T] = slice_subrange(query.as_slice(), start, start + dimension);
        proof {
            let i = table@.len() as int;
            lemma_chunk_room(query@.len(), dimension as nat, i as nat);
            assert(vector@ =~= chunk(query@, dimension as nat, i));
            assert((i + 1) * dimension == i * dimension + dimension) by (nonlinear_arith);
        }
        table.push(distance_row(metric, vector, stored, dimension));
        start = start + dimension;
    }
    proof {
        lemma_chunk_room(query@.len(), dimension as nat, table@.len());
    }
    table
}

/// A further whole vector fits exactly while fewer than `len / dimension` are passed.
proof fn lemma_chunk_room(len: nat, dimension: nat, passed: nat)
    requires
        dimension > 0,
        passed * dimension <= len,
    ensures
        len - passed * dimension >= dimension <==> passed < len / dimension,
        passed <= len / dimension,
{
    let whole = len / dimension;
    lemma_fundamental_div_mod(len as int, dimension as int);
    lemma_mul_is_commutative(dimension as int, whole as int);
    assert(passed <= whole) by (nonlinear_arith)
        requires
            passed * dimension <= len,
            len < whole * dimension + dimension,
            dimension > 0,
    ;
    if passed < whole {
        lemma_mul_inequality(passed as int + 1, whole as int, dimension as int);
        assert((passed + 1) * dimension == passed * dimension + dimension) by (nonlinear_arith);
    }
}

/// Why the row cannot be scored against the query, whatever the distances are.
pub fn row_failure(query: &ElementArray, vectors: &SubVectors) -> (error: Option<ScoreError>)
    ensures
        error == row_error(*query, *vectors),
{
    let same_type: bool = match (&query.elements, &vectors.values.elements) {
        (Elements::Other, _) => {
            return Some(ScoreError::UnsupportedElementType);
        },
        (Elements::Float16(_), Elements::Float16(_)) => true,
        (Elements::Float32(_), Elements::Float32(_)) => true,
        (Elements::Float64(_), Elements::Float64(_)) => true,
        _ => false,
    };
    if !same_type {
        return Some(ScoreError::StoredElementType);
    }
    if vectors.null_count != 0 || vectors.values.null_count != 0
        || !vectors.values.elements.is_finite() {
        return Some(ScoreError::StoredElements);
    }
    None
}

/// Scores the vectors of one row against the query.
///
/// Stored vectors must be of the query's element type, complete and finite.
pub fn row_distance(query: &ElementArray, vectors: &SubVectors, metric: Metric) -> (outcome: Result<
    Option<u32>,
    ScoreError,
>)
    requires
        row_error(*query, *vectors) is None ==> vectors.dimension > 0 && metric !is Hamming,
    ensures
        is_row_outcome(metric, *query, *vectors, outcome),
{
    if let Some(error) = row_failure(query, vectors) {
        return Err(error);
    }
    let table: Vec<Vec<u32>> = match (&query.elements, &vectors.values.elements) {
        (Elements::Float16(q), Elements::Float16(v)) => distance_table(
            metric,
            q,
            v,
            vectors.dimension,
        ),
        (Elements::Float32(q), Elements::Float32(v)) => distance_table(
            metric,
            q,
            v,
            vectors.dimension,
        ),
        (Elements::Float64(q), Elements::Float64(v)) => distance_table(
            metric,
            q,
            v,
            vectors.dimension,
        ),
        _ => Vec::new(),
    };
    proof {
        assert(is_row_table(metric, *query, *vectors, distances_of(table@)));
    }
    score_row(&table)
}

} // verus!
