//! Exact scoring does not depend on how rows are split into batches.

use crate::column;
use crate::column::{Batch, Column, ColumnData};
use crate::error::Failure;
use crate::exact;
use crate::exact::Scored;
use crate::laws;
use crate::model::{ElementArray, Metric};
use crate::path;
use vstd::prelude::*;

verus! {

/// Whether `whole` holds the rows of `first` and then those of `second`.
pub open spec fn is_joined_column(whole: Column, first: Column, second: Column) -> bool
    decreases whole,
{
    &&& first.name@ == whole.name@
    &&& second.name@ == whole.name@
    &&& whole.nulls@ == first.nulls@ + second.nulls@
    &&& match whole.data {
        ColumnData::List(rows) => {
            &&& first.data is List
            &&& second.data is List
            &&& rows@ == first.data->List_0@ + second.data->List_0@
        },
        ColumnData::Struct(fields) => {
            &&& first.data is Struct
            &&& second.data is Struct
            &&& first.data->Struct_0@.len() == fields@.len()
            &&& second.data->Struct_0@.len() == fields@.len()
            &&& forall|i: int|
                0 <= i < fields@.len() ==> is_joined_column(
                    #[trigger] fields@[i],
                    first.data->Struct_0@[i],
                    second.data->Struct_0@[i],
                )
        },
        ColumnData::Other => first.data is Other && second.data is Other,
    }
}

/// Whether `whole` holds the rows of `first` and then those of `second`, under the same columns.
pub open spec fn is_joined(whole: Batch, first: Batch, second: Batch) -> bool {
    &&& whole.num_rows == first.num_rows + second.num_rows
    &&& first.columns@.len() == whole.columns@.len()
    &&& second.columns@.len() == whole.columns@.len()
    &&& forall|i: int|
        0 <= i < whole.columns@.len() ==> is_joined_column(
            #[trigger] whole.columns@[i],
            first.columns@[i],
            second.columns@[i],
        )
}

/// The distances of the first rows and then those of the second, or the first failure.
pub open spec fn joined_scores(
    first: Result<Seq<Option<u32>>, Failure>,
    second: Result<Seq<Option<u32>>, Failure>,
) -> Result<Seq<Option<u32>>, Failure> {
    match first {
        Err(failure) => Err(failure),
        Ok(left) => match second {
            Err(failure) => Err(failure),
            Ok(right) => Ok(left + right),
        },
    }
}

/// The rows of the first scored batch and then those of the second.
pub open spec fn joined(first: Scored, second: Scored) -> Scored {
    match (first, second) {
        (Scored::Empty, _) => second,
        (_, Scored::Empty) => first,
        (
            Scored::Rows { sources, distances: left, mask: left_mask },
            Scored::Rows { sources: _, distances: right, mask: right_mask },
        ) => Scored::Rows { sources, distances: left + right, mask: left_mask + right_mask },
    }
}

/// Columns with the same names have the same positions.
proof fn lemma_same_position(left: Seq<Column>, right: Seq<Column>, name: Seq<char>)
    requires
        left.len() == right.len(),
        forall|i: int| 0 <= i < left.len() ==> (#[trigger] left[i]).name@ == right[i].name@,
    ensures
        column::position(left, name) == column::position(right, name),
    decreases left.len(),
{
    if left.len() > 0 {
        let (a, b) = (left.drop_last(), right.drop_last());
        assert forall|i: int| 0 <= i < a.len() implies (#[trigger] a[i]).name@ == b[i].name@ by {
            assert(left[i].name@ == right[i].name@);
        }
        lemma_same_position(a, b, name);
        assert(left[left.len() - 1].name@ == right[left.len() - 1].name@);
    }
}

/// The columns of a joined batch have the same positions as those of its parts.
proof fn lemma_joined_position(whole: Batch, first: Batch, second: Batch, name: Seq<char>)
    requires
        is_joined(whole, first, second),
    ensures
        column::position(first.columns@, name) == column::position(whole.columns@, name),
        column::position(second.columns@, name) == column::position(whole.columns@, name),
        column::position(whole.columns@, name) matches Some(i) ==> 0 <= i
            < whole.columns@.len() && is_joined_column(
            whole.columns@[i],
            first.columns@[i],
            second.columns@[i],
        ),
{
    assert forall|i: int| 0 <= i < whole.columns@.len() implies (
    #[trigger] whole.columns@[i]).name@ == first.columns@[i].name@ && whole.columns@[i].name@
        == second.columns@[i].name@ by {
        assert(is_joined_column(whole.columns@[i], first.columns@[i], second.columns@[i]));
    }
    lemma_same_position(whole.columns@, first.columns@, name);
    lemma_same_position(whole.columns@, second.columns@, name);
    column::lemma_position_in_range(whole.columns@, name);
}

/// Whether two lookups in the parts found what the lookup in the whole is joined from.
spec fn is_joined_lookup<E>(
    whole: Result<Column, E>,
    first: Result<Column, E>,
    second: Result<Column, E>,
) -> bool {
    match whole {
        Ok(column) => {
            &&& first is Ok
            &&& second is Ok
            &&& is_joined_column(column, first->Ok_0, second->Ok_0)
        },
        Err(failure) => first == Err::<Column, E>(failure) && second == Err::<Column, E>(failure),
    }
}

/// Field names lead to joined columns.
proof fn lemma_joined_descend(
    whole: Column,
    first: Column,
    second: Column,
    names: Seq<Seq<char>>,
    count: nat,
)
    requires
        is_joined_column(whole, first, second),
    ensures
        is_joined_lookup(
            column::descend(whole, names, count),
            column::descend(first, names, count),
            column::descend(second, names, count),
        ),
    decreases count,
{
    if count > 1 {
        lemma_joined_descend(whole, first, second, names, (count - 1) as nat);
        if let Ok(parent) = column::descend(whole, names, (count - 1) as nat) {
            let left = column::descend(first, names, (count - 1) as nat)->Ok_0;
            let right = column::descend(second, names, (count - 1) as nat)->Ok_0;
            if let ColumnData::Struct(fields) = parent.data {
                let name = names[count - 1];
                let (a, b) = (left.data->Struct_0@, right.data->Struct_0@);
                assert forall|i: int| 0 <= i < fields@.len() implies (#[trigger] fields@[i]).name@
                    == a[i].name@ && fields@[i].name@ == b[i].name@ by {
                    assert(is_joined_column(fields@[i], a[i], b[i]));
                }
                lemma_same_position(fields@, a, name);
                lemma_same_position(fields@, b, name);
                column::lemma_position_in_range(fields@, name);
            }
        }
    }
}

/// The vector column of a joined batch is joined from those of its parts.
proof fn lemma_joined_vector_column(whole: Batch, first: Batch, second: Batch, path: Seq<char>)
    requires
        is_joined(whole, first, second),
    ensures
        is_joined_lookup(
            column::vector_column_of(whole, path),
            column::vector_column_of(first, path),
            column::vector_column_of(second, path),
        ),
{
    lemma_joined_position(whole, first, second, path);
    if let Some(names) = path::path_names(path) {
        lemma_joined_position(whole, first, second, names[0]);
        if let Some(i) = column::position(whole.columns@, names[0]) {
            lemma_joined_descend(
                whole.columns@[i],
                first.columns@[i],
                second.columns@[i],
                names,
                names.len(),
            );
        }
    }
}

/// The output columns of a joined batch come from the same places as those of its parts.
proof fn lemma_joined_sources(whole: Batch, first: Batch, second: Batch, names: Seq<Seq<char>>)
    requires
        is_joined(whole, first, second),
    ensures
        exact::sources_of(first, names) == exact::sources_of(whole, names),
        exact::sources_of(second, names) == exact::sources_of(whole, names),
    decreases names.len(),
{
    if names.len() > 0 {
        lemma_joined_sources(whole, first, second, names.drop_last());
        lemma_joined_position(whole, first, second, names.last());
    }
}

/// A row of the whole has the outcomes of the row that it comes from.
proof fn lemma_joined_row(
    whole: Batch,
    whole_vectors: Column,
    first: Batch,
    first_vectors: Column,
    second: Batch,
    second_vectors: Column,
    query: ElementArray,
    metric: Metric,
    i: int,
    outcome: Result<Option<u32>, Failure>,
)
    requires
        first.wf(),
        second.wf(),
        is_joined(whole, first, second),
        first_vectors.wf(first.num_rows as nat),
        second_vectors.wf(second.num_rows as nat),
        whole_vectors.data is List,
        is_joined_column(whole_vectors, first_vectors, second_vectors),
        0 <= i < whole.num_rows,
    ensures
        i < first.num_rows ==> exact::is_outcome(whole, whole_vectors, query, metric, i, outcome)
            == exact::is_outcome(first, first_vectors, query, metric, i, outcome),
        i >= first.num_rows ==> exact::is_outcome(whole, whole_vectors, query, metric, i, outcome)
            == exact::is_outcome(
            second,
            second_vectors,
            query,
            metric,
            i - first.num_rows,
            outcome,
        ),
{
    lemma_joined_position(whole, first, second, "_rowid"@);
    if let Some(k) = column::position(whole.columns@, "_rowid"@) {
        assert(first.columns@[k].wf(first.num_rows as nat));
        assert(second.columns@[k].wf(second.num_rows as nat));
    }
    if i < first.num_rows {
        laws::law_rows_are_scored_alone(
            whole,
            whole_vectors,
            i,
            first,
            first_vectors,
            i,
            query,
            metric,
            outcome,
        );
    } else {
        laws::law_rows_are_scored_alone(
            whole,
            whole_vectors,
            i,
            second,
            second_vectors,
            i - first.num_rows,
            query,
            metric,
            outcome,
        );
    }
}

/// The distances of a batch, or its first failure, are those of its parts, one after the other.
pub proof fn law_scores_of_split_batches(
    whole: Batch,
    whole_vectors: Column,
    first: Batch,
    first_vectors: Column,
    second: Batch,
    second_vectors: Column,
    query: ElementArray,
    metric: Metric,
    first_scores: Result<Seq<Option<u32>>, Failure>,
    second_scores: Result<Seq<Option<u32>>, Failure>,
)
    requires
        first.wf(),
        second.wf(),
        is_joined(whole, first, second),
        first_vectors.wf(first.num_rows as nat),
        second_vectors.wf(second.num_rows as nat),
        whole_vectors.data is List,
        is_joined_column(whole_vectors, first_vectors, second_vectors),
        exact::are_scores(first, first_vectors, query, metric, first_scores),
        exact::are_scores(second, second_vectors, query, metric, second_scores),
    ensures
        exact::are_scores(
            whole,
            whole_vectors,
            query,
            metric,
            joined_scores(first_scores, second_scores),
        ),
{
    let n = first.num_rows as int;
    assert forall|i: int, outcome: Result<Option<u32>, Failure>|
        0 <= i < n implies #[trigger] exact::is_outcome(
        whole,
        whole_vectors,
        query,
        metric,
        i,
        outcome,
    ) == exact::is_outcome(first, first_vectors, query, metric, i, outcome) by {
        lemma_joined_row(
            whole,
            whole_vectors,
            first,
            first_vectors,
            second,
            second_vectors,
            query,
            metric,
            i,
            outcome,
        );
    }
    assert forall|i: int, outcome: Result<Option<u32>, Failure>|
        n <= i < whole.num_rows implies #[trigger] exact::is_outcome(
        whole,
        whole_vectors,
        query,
        metric,
        i,
        outcome,
    ) == exact::is_outcome(second, second_vectors, query, metric, i - n, outcome) by {
        lemma_joined_row(
            whole,
            whole_vectors,
            first,
            first_vectors,
            second,
            second_vectors,
            query,
            metric,
            i,
            outcome,
        );
    }
    match first_scores {
        Err(failure) => {
            let before = choose|before: Seq<Option<u32>>|
                {
                    &&& before.len() < first.num_rows
                    &&& forall|i: int|
                        0 <= i < before.len() ==> exact::is_outcome(
                            first,
                            first_vectors,
                            query,
                            metric,
                            i,
                            Ok(#[trigger] before[i]),
                        )
                    &&& #[trigger] exact::is_outcome(
                        first,
                        first_vectors,
                        query,
                        metric,
                        before.len() as int,
                        Err(failure),
                    )
                };
            assert(exact::is_outcome(
                whole,
                whole_vectors,
                query,
                metric,
                before.len() as int,
                Err(failure),
            ));
        },
        Ok(left) => match second_scores {
            Err(failure) => {
                let rest = choose|before: Seq<Option<u32>>|
                    {
                        &&& before.len() < second.num_rows
                        &&& forall|i: int|
                            0 <= i < before.len() ==> exact::is_outcome(
                                second,
                                second_vectors,
                                query,
                                metric,
                                i,
                                Ok(#[trigger] before[i]),
                            )
                        &&& #[trigger] exact::is_outcome(
                            second,
                            second_vectors,
                            query,
                            metric,
                            before.len() as int,
                            Err(failure),
                        )
                    };
                let before = left + rest;
                assert forall|i: int| 0 <= i < before.len() implies exact::is_outcome(
                    whole,
                    whole_vectors,
                    query,
                    metric,
                    i,
                    Ok(#[trigger] before[i]),
                ) by {
                    if i < n {
                        assert(before[i] == left[i]);
                    } else {
                        assert(before[i] == rest[i - n]);
                    }
                }
                assert(exact::is_outcome(
                    whole,
                    whole_vectors,
                    query,
                    metric,
                    before.len() as int,
                    Err(failure),
                ));
            },
            Ok(right) => {
                let all = left + right;
                assert forall|i: int| 0 <= i < all.len() implies exact::is_outcome(
                    whole,
                    whole_vectors,
                    query,
                    metric,
                    i,
                    Ok(#[trigger] all[i]),
                ) by {
                    if i < n {
                        assert(all[i] == left[i]);
                    } else {
                        assert(all[i] == right[i - n]);
                    }
                }
            },
        },
    }
}

/// Only distances that the parts can have can be those of the whole.
pub proof fn law_scores_can_be_split(
    whole: Batch,
    whole_vectors: Column,
    first: Batch,
    first_vectors: Column,
    second: Batch,
    second_vectors: Column,
    query: ElementArray,
    metric: Metric,
    distances: Seq<Option<u32>>,
)
    requires
        first.wf(),
        second.wf(),
        is_joined(whole, first, second),
        first_vectors.wf(first.num_rows as nat),
        second_vectors.wf(second.num_rows as nat),
        whole_vectors.data is List,
        is_joined_column(whole_vectors, first_vectors, second_vectors),
        exact::are_scores(whole, whole_vectors, query, metric, Ok(distances)),
    ensures
        exact::are_scores(
            first,
            first_vectors,
            query,
            metric,
            Ok(distances.take(first.num_rows as int)),
        ),
        exact::are_scores(
            second,
            second_vectors,
            query,
            metric,
            Ok(distances.skip(first.num_rows as int)),
        ),
{
    let n = first.num_rows as int;
    let (left, right) = (distances.take(n), distances.skip(n));
    assert forall|i: int| 0 <= i < left.len() implies exact::is_outcome(
        first,
        first_vectors,
        query,
        metric,
        i,
        Ok(#[trigger] left[i]),
    ) by {
        assert(left[i] == distances[i]);
        lemma_joined_row(
            whole,
            whole_vectors,
            first,
            first_vectors,
            second,
            second_vectors,
            query,
            metric,
            i,
            Ok(distances[i]),
        );
    }
    assert forall|i: int| 0 <= i < right.len() implies exact::is_outcome(
        second,
        second_vectors,
        query,
        metric,
        i,
        Ok(#[trigger] right[i]),
    ) by {
        assert(right[i] == distances[i + n]);
        lemma_joined_row(
            whole,
            whole_vectors,
            first,
            first_vectors,
            second,
            second_vectors,
            query,
            metric,
            i + n,
            Ok(distances[i + n]),
        );
    }
}

/// Scoring two batches and joining the results is scoring the joined batch.
pub proof fn law_batches_may_be_split(
    whole: Batch,
    first: Batch,
    second: Batch,
    query: ElementArray,
    path: Seq<char>,
    metric: Metric,
    names: Seq<Seq<char>>,
    first_scored: Scored,
    second_scored: Scored,
)
    requires
        first.wf(),
        second.wf(),
        is_joined(whole, first, second),
        exact::is_exact_outcome(first, query, path, metric, names, Ok(first_scored)),
        exact::is_exact_outcome(second, query, path, metric, names, Ok(second_scored)),
    ensures
        exact::is_exact_outcome(
            whole,
            query,
            path,
            metric,
            names,
            Ok(joined(first_scored, second_scored)),
        ),
{
    if whole.num_rows > 0 {
        lemma_joined_vector_column(whole, first, second, path);
        lemma_joined_sources(whole, first, second, names);
        exact::lemma_vector_column_wf(first, path);
        exact::lemma_vector_column_wf(second, path);
        let vectors = column::vector_column_of(whole, path)->Ok_0;
        let left_vectors = column::vector_column_of(first, path)->Ok_0;
        let right_vectors = column::vector_column_of(second, path)->Ok_0;
        let left = lemma_scores(
            first,
            left_vectors,
            query,
            path,
            metric,
            names,
            first_scored,
        );
        let right = lemma_scores(
            second,
            right_vectors,
            query,
            path,
            metric,
            names,
            second_scored,
        );
        law_scores_of_split_batches(
            whole,
            vectors,
            first,
            left_vectors,
            second,
            right_vectors,
            query,
            metric,
            Ok(left),
            Ok(right),
        );
        let has_distance = |distance: Option<u32>| distance is Some;
        assert((left + right).map_values(has_distance) =~= left.map_values(has_distance)
            + right.map_values(has_distance));
        if first.num_rows == 0 {
            assert(left + right =~= right);
        }
        if second.num_rows == 0 {
            assert(left + right =~= left);
        }
        let scores: Result<Seq<Option<u32>>, Failure> = Ok(left + right);
        assert(exact::are_scores(whole, vectors, query, metric, scores));
        assert(exact::assembled(whole, names, left + right) == Ok::<Scored, Failure>(
            joined(first_scored, second_scored),
        ));
    }
}

/// The distances behind a scored batch; none where the batch is empty.
proof fn lemma_scores(
    batch: Batch,
    vectors: Column,
    query: ElementArray,
    path: Seq<char>,
    metric: Metric,
    names: Seq<Seq<char>>,
    scored: Scored,
) -> (distances: Seq<Option<u32>>)
    requires
        exact::is_exact_outcome(batch, query, path, metric, names, Ok(scored)),
        batch.num_rows > 0 ==> column::vector_column_of(batch, path) == Ok::<Column, Failure>(
            vectors,
        ),
    ensures
        exact::are_scores(batch, vectors, query, metric, Ok(distances)),
        batch.num_rows > 0 ==> vectors.data is List && exact::assembled(batch, names, distances)
            == Ok::<Scored, Failure>(scored),
        batch.num_rows == 0 ==> scored is Empty && distances.len() == 0,
{
    if batch.num_rows == 0 {
        Seq::empty()
    } else {
        let scores = choose|scores: Result<Seq<Option<u32>>, Failure>|
            #[trigger] exact::are_scores(batch, vectors, query, metric, scores) && Ok::<
                Scored,
                Failure,
            >(scored) == (match scores {
                Ok(distances) => exact::assembled(batch, names, distances),
                Err(failure) => Err(failure),
            });
        scores->Ok_0
    }
}

} // verus!
