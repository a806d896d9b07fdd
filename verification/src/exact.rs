//! Exact scoring of a batch.

use crate::column;
use crate::column::{Batch, Column, ColumnData, Row};
use crate::error::{Failure, ScoreError};
use crate::model::{ElementArray, Metric};
use crate::path;
use crate::score;
use vstd::prelude::*;

verus! {

/// Where an output column comes from.
#[derive(Debug, Clone, Copy, PartialEq, Eq, Structural)]
pub enum ColumnSource {
    /// The distances.
    Distance,
    /// The batch's column at this position.
    Input(usize),
}

/// A batch with its distances.
#[derive(Debug)]
pub enum ScoredBatch {
    /// No rows.
    Empty,
    /// The rows of the batch, of which the mask keeps those with a distance.
    Rows {
        /// Where each output column comes from.
        sources: Vec<ColumnSource>,
        /// The distance of each row, where it has one.
        distances: Vec<Option<u32>>,
        /// Whether each row is kept.
        mask: Vec<bool>,
    },
}

/// A scored batch as a mathematical value.
pub enum Scored {
    /// See [`ScoredBatch::Empty`].
    Empty,
    /// See [`ScoredBatch::Rows`].
    Rows { sources: Seq<ColumnSource>, distances: Seq<Option<u32>>, mask: Seq<bool> },
}

impl View for ScoredBatch {
    type V = Scored;

    open spec fn view(&self) -> Scored {
        match self {
            ScoredBatch::Empty => Scored::Empty,
            ScoredBatch::Rows { sources, distances, mask } => Scored::Rows {
                sources: sources@,
                distances: distances@,
                mask: mask@,
            },
        }
    }
}

/// What scoring a batch gave, as a mathematical value.
pub open spec fn outcome_of(result: Result<ScoredBatch, ScoreError>) -> Result<Scored, Failure> {
    match result {
        Ok(scored) => Ok(scored@),
        Err(error) => Err(error@),
    }
}

/// Where the output column `name` comes from.
pub open spec fn source_of(batch: Batch, name: Seq<char>) -> Result<ColumnSource, Failure> {
    if name == "_distance"@ {
        Ok(ColumnSource::Distance)
    } else {
        match column::position(batch.columns@, name) {
            Some(i) => Ok(ColumnSource::Input(i as usize)),
            None => Err(Failure::MissingOutputColumn { name }),
        }
    }
}

/// Where the output columns `names` come from, or why the first one without a source has none.
pub open spec fn sources_of(batch: Batch, names: Seq<Seq<char>>) -> Result<
    Seq<ColumnSource>,
    Failure,
>
    decreases names.len(),
{
    if names.len() == 0 {
        Ok(Seq::empty())
    } else {
        match sources_of(batch, names.drop_last()) {
            Ok(sources) => match source_of(batch, names.last()) {
                Ok(source) => Ok(sources.push(source)),
                Err(failure) => Err(failure),
            },
            Err(failure) => Err(failure),
        }
    }
}

/// The output for rows with the distances `distances`.
pub open spec fn assembled(
    batch: Batch,
    names: Seq<Seq<char>>,
    distances: Seq<Option<u32>>,
) -> Result<Scored, Failure> {
    match sources_of(batch, names) {
        Ok(sources) => Ok(
            Scored::Rows {
                sources,
                distances,
                mask: distances.map_values(|distance: Option<u32>| distance is Some),
            },
        ),
        Err(failure) => Err(failure),
    }
}

/// Whether the batch has row ids and that of row `i` is null.
pub open spec fn null_row_id(batch: Batch, i: int) -> bool {
    match column::position(batch.columns@, "_rowid"@) {
        Some(k) => batch.columns@[k].nulls@[i],
        None => false,
    }
}

/// Whether row `i` is scored: it has a row id and a list that is not empty.
pub open spec fn is_scored_row(batch: Batch, column: Column, i: int) -> bool {
    &&& !null_row_id(batch, i)
    &&& !column.nulls@[i]
    &&& column.data->List_0@[i] matches Row::FixedSizeLists(vectors) ==> vectors.count > 0
}

/// Whether row `i` fails whatever the distances are.
pub open spec fn is_failing_row(batch: Batch, column: Column, query: ElementArray, i: int) -> bool {
    &&& is_scored_row(batch, column, i)
    &&& column.data->List_0@[i] matches Row::FixedSizeLists(vectors) ==> score::row_error(
        query,
        vectors,
    ) is Some
}

/// Whether there is a distance function for row `i`, where one is needed.
pub open spec fn is_measurable_row(
    batch: Batch,
    column: Column,
    query: ElementArray,
    metric: Metric,
    i: int,
) -> bool {
    is_scored_row(batch, column, i) ==> match column.data->List_0@[i] {
        Row::FixedSizeLists(vectors) => score::row_error(query, vectors) is None
            ==> vectors.dimension > 0 && metric !is Hamming,
        Row::Other => true,
    }
}

/// Whether there is a distance function for every row of the vector column that is reached.
pub open spec fn is_measurable(
    batch: Batch,
    query: ElementArray,
    path: Seq<char>,
    metric: Metric,
) -> bool {
    match column::vector_column_of(batch, path) {
        Ok(column) => column.data is List ==> forall|i: int|
            0 <= i < batch.num_rows && (forall|j: int|
                0 <= j < i ==> !#[trigger] is_failing_row(batch, column, query, j))
                ==> #[trigger] is_measurable_row(batch, column, query, metric, i),
        Err(_) => true,
    }
}

/// Whether `outcome` is an outcome for row `i` with the vectors in `column`.
///
/// A row without a row id, without a list or with an empty list has no distance.
pub open spec fn is_outcome(
    batch: Batch,
    column: Column,
    query: ElementArray,
    metric: Metric,
    i: int,
    outcome: Result<Option<u32>, Failure>,
) -> bool {
    if null_row_id(batch, i) || column.nulls@[i] {
        outcome == Ok::<Option<u32>, Failure>(None)
    } else {
        match column.data->List_0@[i] {
            Row::Other => outcome == Err::<Option<u32>, Failure>(Failure::NotAFixedSizeList),
            Row::FixedSizeLists(vectors) => if vectors.count == 0 {
                outcome == Ok::<Option<u32>, Failure>(None)
            } else {
                match outcome {
                    Ok(distance) => score::is_row_outcome(metric, query, vectors, Ok(distance)),
                    Err(failure) => exists|error: ScoreError|
                        #[trigger] score::is_row_outcome(metric, query, vectors, Err(error))
                            && error@ == failure,
                }
            },
        }
    }
}

/// Whether `scores` are the distances of the batch's rows, or the failure of the first row that has
/// one.
pub open spec fn are_scores(
    batch: Batch,
    column: Column,
    query: ElementArray,
    metric: Metric,
    scores: Result<Seq<Option<u32>>, Failure>,
) -> bool {
    match scores {
        Ok(distances) => {
            &&& distances.len() == batch.num_rows
            &&& forall|i: int|
                0 <= i < distances.len() ==> is_outcome(
                    batch,
                    column,
                    query,
                    metric,
                    i,
                    Ok(#[trigger] distances[i]),
                )
        },
        Err(failure) => exists|before: Seq<Option<u32>>|
            {
                &&& before.len() < batch.num_rows
                &&& forall|i: int|
                    0 <= i < before.len() ==> is_outcome(
                        batch,
                        column,
                        query,
                        metric,
                        i,
                        Ok(#[trigger] before[i]),
                    )
                &&& #[trigger] is_outcome(
                    batch,
                    column,
                    query,
                    metric,
                    before.len() as int,
                    Err(failure),
                )
            },
    }
}

/// Whether `outcome` is an outcome of scoring the batch against the query.
pub open spec fn is_exact_outcome(
    batch: Batch,
    query: ElementArray,
    path: Seq<char>,
    metric: Metric,
    names: Seq<Seq<char>>,
    outcome: Result<Scored, Failure>,
) -> bool {
    if batch.num_rows == 0 {
        outcome == Ok::<Scored, Failure>(Scored::Empty)
    } else {
        match column::vector_column_of(batch, path) {
            Err(failure) => outcome == Err::<Scored, Failure>(failure),
            Ok(column) => if column.data is List {
                exists|scores: Result<Seq<Option<u32>>, Failure>|
                    #[trigger] are_scores(batch, column, query, metric, scores) && outcome == (
                    match scores {
                        Ok(distances) => assembled(batch, names, distances),
                        Err(failure) => Err(failure),
                    })
            } else {
                outcome == Err::<Scored, Failure>(Failure::NotAList)
            },
        }
    }
}

/// The output for rows with the distances `distances`.
pub fn assemble(batch: &Batch, names: &Vec<String>, distances: Vec<Option<u32>>) -> (result: Result<
    ScoredBatch,
    ScoreError,
>)
    ensures
        outcome_of(result) == assembled(*batch, path::characters(names@), distances@),
        result matches Err(error) ==> error is MissingOutputColumn,
{
    let ghost fields = path::characters(names@);
    let mut sources: Vec<ColumnSource> = Vec::new();
    for k in 0..names.len()
        invariant
            fields == path::characters(names@),
            sources_of(*batch, fields.take(k as int)) == Ok::<Seq<ColumnSource>, Failure>(sources@),
    {
        proof {
            assert(fields.take(k + 1).drop_last() =~= fields.take(k as int));
            lemma_first_failure(*batch, fields, k + 1);
        }
        if names[k] == "_distance".to_owned() {
            sources.push(ColumnSource::Distance);
        } else {
            match column::find_column(&batch.columns, &names[k]) {
                Some(i) => sources.push(ColumnSource::Input(i)),
                None => {
                    return Err(ScoreError::MissingOutputColumn { name: names[k].clone() });
                },
            }
        }
    }
    let mut mask: Vec<bool> = Vec::new();
    for i in 0..distances.len()
        invariant
            mask@ == distances@.take(i as int).map_values(
                |distance: Option<u32>| distance is Some,
            ),
    {
        mask.push(distances[i].is_some());
    }
    proof {
        assert(fields.take(fields.len() as int) =~= fields);
        assert(distances@.take(distances@.len() as int) =~= distances@);
    }
    Ok(ScoredBatch::Rows { sources, distances, mask })
}

/// A failure among the first output columns is the failure of all.
proof fn lemma_first_failure(batch: Batch, names: Seq<Seq<char>>, count: int)
    requires
        0 <= count <= names.len(),
    ensures
        sources_of(batch, names.take(count)) is Err ==> sources_of(batch, names) == sources_of(
            batch,
            names.take(count),
        ),
    decreases names.len() - count,
{
    if count == names.len() {
        assert(names.take(count) =~= names);
    } else {
        assert(names.take(count + 1).drop_last() =~= names.take(count));
        lemma_first_failure(batch, names, count + 1);
    }
}

/// The vector column is well formed where the batch is.
pub proof fn lemma_vector_column_wf(batch: Batch, path: Seq<char>)
    requires
        batch.wf(),
    ensures
        column::vector_column_of(batch, path) matches Ok(column) ==> column.wf(
            batch.num_rows as nat,
        ),
{
    column::lemma_position_in_range(batch.columns@, path);
    if let Some(names) = path::path_names(path) {
        column::lemma_position_in_range(batch.columns@, names[0]);
        if let Some(i) = column::position(batch.columns@, names[0]) {
            lemma_descend_wf(batch.columns@[i], names, names.len(), batch.num_rows as nat);
        }
    }
}

/// Fields of a well-formed column are well formed.
proof fn lemma_descend_wf(root: Column, names: Seq<Seq<char>>, count: nat, num_rows: nat)
    requires
        root.wf(num_rows),
    ensures
        column::descend(root, names, count) matches Ok(column) ==> column.wf(num_rows),
    decreases count,
{
    if count > 1 {
        lemma_descend_wf(root, names, (count - 1) as nat, num_rows);
        if let Ok(parent) = column::descend(root, names, (count - 1) as nat) {
            if let ColumnData::Struct(fields) = parent.data {
                column::lemma_position_in_range(fields@, names[count - 1]);
            }
        }
    }
}

/// What a row gave, as a mathematical value.
pub open spec fn row_outcome_of(result: Result<Option<u32>, ScoreError>) -> Result<
    Option<u32>,
    Failure,
> {
    match result {
        Ok(distance) => Ok(distance),
        Err(error) => Err(error@),
    }
}

/// Scores row `i` with the vectors in `column`, whose rows are `rows`.
fn score_batch_row(
    batch: &Batch,
    column: &Column,
    rows: &Vec<Row>,
    row_ids: Option<usize>,
    query: &ElementArray,
    metric: Metric,
    i: usize,
) -> (outcome: Result<Option<u32>, ScoreError>)
    requires
        batch.wf(),
        column.wf(batch.num_rows as nat),
        column.data is List,
        *rows == column.data->List_0,
        i < batch.num_rows,
        is_measurable_row(*batch, *column, *query, metric, i as int),
        row_ids matches Some(k) ==> k < batch.columns@.len() && column::position(
            batch.columns@,
            "_rowid"@,
        ) == Some(k as int),
        row_ids is None ==> column::position(batch.columns@, "_rowid"@) is None,
    ensures
        is_outcome(*batch, *column, *query, metric, i as int, row_outcome_of(outcome)),
{
    let id_is_null: bool = match row_ids {
        Some(k) => batch.columns[k].nulls[i],
        None => false,
    };
    if id_is_null || column.nulls[i] {
        return Ok(None);
    }
    match &rows[i] {
        Row::Other => Err(ScoreError::NotAFixedSizeList),
        Row::FixedSizeLists(vectors) => {
            if vectors.count == 0 {
                return Ok(None);
            }
            score::row_distance(query, vectors, metric)
        },
    }
}

/// Whether there is a distance function for every row of the vector column that is reached.
pub fn has_distance_function(
    batch: &Batch,
    query: &ElementArray,
    path: &str,
    metric: Metric,
) -> (measurable: bool)
    requires
        batch.wf(),
    ensures
        measurable == is_measurable(*batch, *query, path@, metric),
{
    proof {
        lemma_vector_column_wf(*batch, path@);
    }
    let column: &Column = match column::vector_column(batch, path) {
        Ok(column) => column,
        Err(_) => {
            return true;
        },
    };
    let rows: &Vec<Row> = match &column.data {
        ColumnData::List(rows) => rows,
        _ => {
            return true;
        },
    };
    let row_ids: Option<usize> = column::find_column(&batch.columns, &"_rowid".to_owned());
    for i in 0..batch.num_rows
        invariant
            batch.wf(),
            column.wf(batch.num_rows as nat),
            column.data is List,
            *rows == column.data->List_0,
            row_ids matches Some(k) ==> k < batch.columns@.len() && column::position(
                batch.columns@,
                "_rowid"@,
            ) == Some(k as int),
            row_ids is None ==> column::position(batch.columns@, "_rowid"@) is None,
            column::vector_column_of(*batch, path@) == Ok::<Column, Failure>(*column),
            forall|j: int| 0 <= j < i ==> !#[trigger] is_failing_row(*batch, *column, *query, j),
            forall|j: int|
                0 <= j < i ==> #[trigger] is_measurable_row(*batch, *column, *query, metric, j),
    {
        let id_is_null: bool = match row_ids {
            Some(k) => batch.columns[k].nulls[i],
            None => false,
        };
        if !id_is_null && !column.nulls[i] {
            let failing: bool = match &rows[i] {
                Row::Other => true,
                Row::FixedSizeLists(vectors) => vectors.count > 0 && score::row_failure(
                    query,
                    vectors,
                ).is_some(),
            };
            if failing {
                proof {
                    assert(is_failing_row(*batch, *column, *query, i as int));
                }
                return true;
            }
            if let Row::FixedSizeLists(vectors) = &rows[i] {
                let supported: bool = match metric {
                    Metric::Hamming => false,
                    _ => vectors.dimension > 0,
                };
                if vectors.count > 0 && !supported {
                    proof {
                        assert(!is_measurable_row(*batch, *column, *query, metric, i as int));
                    }
                    return false;
                }
            }
        }
    }
    true
}

/// Scores the rows of a batch against the query, and tells how to build the output columns `names`.
pub fn exact_batch(
    batch: &Batch,
    query: &ElementArray,
    path: &str,
    metric: Metric,
    names: &Vec<String>,
) -> (result: Result<ScoredBatch, ScoreError>)
    requires
        batch.wf(),
        is_measurable(*batch, *query, path@, metric),
    ensures
        is_exact_outcome(
            *batch,
            *query,
            path@,
            metric,
            path::characters(names@),
            outcome_of(result),
        ),
        result matches Err(ScoreError::InvalidColumnPath { column, reason })
            ==> path::is_path_error(path@, reason@),
{
    if batch.num_rows == 0 {
        return Ok(ScoredBatch::Empty);
    }
    proof {
        lemma_vector_column_wf(*batch, path@);
    }
    let column: &Column = match column::vector_column(batch, path) {
        Ok(column) => column,
        Err(error) => {
            return Err(error);
        },
    };
    let rows: &Vec<Row> = match &column.data {
        ColumnData::List(rows) => rows,
        _ => {
            return Err(ScoreError::NotAList);
        },
    };
    let row_ids: Option<usize> = column::find_column(&batch.columns, &"_rowid".to_owned());
    let mut distances: Vec<Option<u32>> = Vec::new();
    for i in 0..batch.num_rows
        invariant
            batch.wf(),
            is_measurable(*batch, *query, path@, metric),
            column.wf(batch.num_rows as nat),
            column.data is List,
            *rows == column.data->List_0,
            row_ids matches Some(k) ==> k < batch.columns@.len() && column::position(
                batch.columns@,
                "_rowid"@,
            ) == Some(k as int),
            row_ids is None ==> column::position(batch.columns@, "_rowid"@) is None,
            distances@.len() == i,
            forall|j: int|
                0 <= j < i ==> is_outcome(
                    *batch,
                    *column,
                    *query,
                    metric,
                    j,
                    Ok(#[trigger] distances@[j]),
                ),
            forall|j: int| 0 <= j < i ==> !#[trigger] is_failing_row(*batch, *column, *query, j),
            batch.num_rows > 0,
            column::vector_column_of(*batch, path@) == Ok::<Column, Failure>(*column),
    {
        proof {
            assert(is_measurable_row(*batch, *column, *query, metric, i as int));
        }
        match score_batch_row(batch, column, rows, row_ids, query, metric, i) {
            Ok(distance) => distances.push(distance),
            Err(error) => {
                proof {
                    let scores: Result<Seq<Option<u32>>, Failure> = Err(error@);
                    assert(is_outcome(
                        *batch,
                        *column,
                        *query,
                        metric,
                        distances@.len() as int,
                        Err(error@),
                    ));
                    assert(are_scores(*batch, *column, *query, metric, scores));
                }
                return Err(error);
            },
        }
    }
    proof {
        let scores: Result<Seq<Option<u32>>, Failure> = Ok(distances@);
        assert(are_scores(*batch, *column, *query, metric, scores));
    }
    assemble(batch, names, distances)
}

} // verus!
