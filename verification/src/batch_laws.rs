//! What holds of scoring a batch, in terms of its columns and rows.

use crate::column;
use crate::column::{Batch, Column, ColumnData, Row};
use crate::error::{Failure, ScoreError};
use crate::exact;
use crate::exact::{ColumnSource, Scored, ScoredBatch};
use crate::model::{ElementArray, Metric, SubVectors};
use crate::path;
use crate::score;
use crate::score_laws;
use vstd::prelude::*;

verus! {

/// Whether column `i` is the first with the given name.
pub open spec fn is_first(columns: Seq<Column>, name: Seq<char>, i: int) -> bool {
    &&& 0 <= i < columns.len()
    &&& columns[i].name@ == name
    &&& forall|j: int| 0 <= j < i ==> (#[trigger] columns[j]).name@ != name
}

/// Whether no column has the given name.
pub open spec fn has_none(columns: Seq<Column>, name: Seq<char>) -> bool {
    forall|j: int| 0 <= j < columns.len() ==> (#[trigger] columns[j]).name@ != name
}

/// A lookup by name finds the first column of that name, and fails only where there is none.
pub proof fn law_lookup_finds_the_first(columns: Seq<Column>, name: Seq<char>)
    ensures
        match column::position(columns, name) {
            Some(i) => is_first(columns, name, i),
            None => has_none(columns, name),
        },
    decreases columns.len(),
{
    if columns.len() > 0 {
        let less = columns.drop_last();
        law_lookup_finds_the_first(less, name);
        assert forall|j: int| 0 <= j < less.len() implies #[trigger] columns[j] == less[j] by {}
        assert(columns[columns.len() - 1] == columns.last());
    }
}

/// Whether `child` is the first field of that name of the struct column `parent`.
pub open spec fn is_field(parent: Column, name: Seq<char>, child: Column) -> bool {
    parent.data matches ColumnData::Struct(fields) && exists|i: int|
        #[trigger] is_first(fields@, name, i) && child == fields@[i]
}

/// Whether the column is no struct or has no field of that name.
pub open spec fn lacks_field(parent: Column, name: Seq<char>) -> bool {
    parent.data matches ColumnData::Struct(fields) ==> has_none(fields@, name)
}

/// Whether `chain` leads from a column of the batch through one field for each further name.
pub open spec fn is_chain(batch: Batch, names: Seq<Seq<char>>, chain: Seq<Column>) -> bool {
    &&& 0 < chain.len() <= names.len()
    &&& exists|i: int| #[trigger] is_first(batch.columns@, names[0], i) && chain[0]
        == batch.columns@[i]
    &&& forall|k: int|
        0 < k < chain.len() ==> is_field(chain[k - 1], names[k], #[trigger] chain[k])
}

/// A column by its names is reached field by field; a failure names the column or the first field
/// that is missing.
pub proof fn law_names_are_followed(batch: Batch, path: Seq<char>, names: Seq<Seq<char>>)
    requires
        names.len() > 0,
    ensures
        match column::resolved(batch, path, names) {
            Ok(found) => exists|chain: Seq<Column>|
                #[trigger] is_chain(batch, names, chain) && chain.len() == names.len() && found
                    == chain.last(),
            Err(Failure::MissingColumn { column }) => column == path && has_none(
                batch.columns@,
                names[0],
            ),
            Err(Failure::MissingField { field, column }) => column == path && exists|
                chain: Seq<Column>,
            |
                #[trigger] is_chain(batch, names, chain) && chain.len() < names.len() && field
                    == names[chain.len() as int] && lacks_field(chain.last(), field),
            Err(_) => false,
        },
{
    law_lookup_finds_the_first(batch.columns@, names[0]);
    if let Some(i) = column::position(batch.columns@, names[0]) {
        let chain = lemma_chain(batch, names, i, names.len());
    }
}

/// The columns that the first `count` names lead through.
proof fn lemma_chain(batch: Batch, names: Seq<Seq<char>>, i: int, count: nat) -> (chain: Seq<Column>)
    requires
        is_first(batch.columns@, names[0], i),
        0 < count <= names.len(),
    ensures
        is_chain(batch, names, chain),
        match column::descend(batch.columns@[i], names, count) {
            Ok(found) => chain.len() == count && found == chain.last(),
            Err(missing) => {
                &&& missing == chain.len()
                &&& chain.len() < count
                &&& lacks_field(chain.last(), names[missing])
            },
        },
    decreases count,
{
    let root = batch.columns@[i];
    if count == 1 {
        let chain = seq![root];
        assert(is_first(batch.columns@, names[0], i) && chain[0] == batch.columns@[i]);
        chain
    } else {
        let less = (count - 1) as nat;
        let chain = lemma_chain(batch, names, i, less);
        match column::descend(root, names, less) {
            Ok(parent) => {
                if let ColumnData::Struct(fields) = parent.data {
                    law_lookup_finds_the_first(fields@, names[less as int]);
                }
                match column::field_of(parent, names[less as int]) {
                    Some(field) => {
                        let longer = chain.push(field);
                        assert forall|k: int| 0 < k < longer.len() implies is_field(
                            longer[k - 1],
                            names[k],
                            #[trigger] longer[k],
                        ) by {
                            if k < chain.len() {
                                assert(is_field(chain[k - 1], names[k], chain[k]));
                            } else {
                                let fields = parent.data->Struct_0;
                                let n = column::position(fields@, names[less as int]).unwrap();
                                assert(is_first(fields@, names[less as int], n));
                            }
                        }
                        assert(longer[0] == chain[0]);
                        longer
                    },
                    None => chain,
                }
            },
            Err(_) => chain,
        }
    }
}

/// The vector column is the first column of that very name; only where there is none does the path
/// lead to it, and only what is no path is rejected as one.
pub proof fn law_vector_column(batch: Batch, path: Seq<char>)
    ensures
        match column::vector_column_of(batch, path) {
            Ok(found) => {
                ||| exists|i: int| #[trigger]
                    is_first(batch.columns@, path, i) && found == batch.columns@[i]
                ||| has_none(batch.columns@, path) && exists|
                    names: Seq<Seq<char>>,
                    chain: Seq<Column>,
                |
                    #[trigger] path::is_path(path, names) && #[trigger] is_chain(
                        batch,
                        names,
                        chain,
                    ) && chain.len() == names.len() && found == chain.last()
            },
            Err(Failure::InvalidColumnPath { column }) => {
                &&& column == path
                &&& has_none(batch.columns@, path)
                &&& forall|names: Seq<Seq<char>>| !#[trigger] path::is_path(path, names)
            },
            Err(Failure::MissingColumn { column }) => {
                &&& column == path
                &&& has_none(batch.columns@, path)
                &&& exists|names: Seq<Seq<char>>|
                    #[trigger] path::is_path(path, names) && has_none(batch.columns@, names[0])
            },
            Err(Failure::MissingField { field, column }) => {
                &&& column == path
                &&& has_none(batch.columns@, path)
                &&& exists|names: Seq<Seq<char>>, chain: Seq<Column>|
                    #[trigger] path::is_path(path, names) && #[trigger] is_chain(
                        batch,
                        names,
                        chain,
                    ) && chain.len() < names.len() && field == names[chain.len() as int]
                        && lacks_field(chain.last(), field)
            },
            Err(_) => false,
        },
{
    law_lookup_finds_the_first(batch.columns@, path);
    if column::position(batch.columns@, path) is None {
        if let Some(names) = path::path_names(path) {
            assert(path::is_path(path, names));
            assert(names.len() > 0);
            law_names_are_followed(batch, path, names);
        }
    }
}

/// Whether output column `name` can come from `source`.
pub open spec fn is_source(batch: Batch, name: Seq<char>, source: ColumnSource) -> bool {
    match source {
        ColumnSource::Distance => name == "_distance"@,
        ColumnSource::Input(i) => name != "_distance"@ && is_first(
            batch.columns@,
            name,
            i as int,
        ),
    }
}

/// The result holds every distance and every output column in its place, and keeps exactly the rows
/// that have a distance; it fails only for the first output column without a source.
pub proof fn law_result_keeps_every_scored_row(
    batch: Batch,
    names: Seq<Seq<char>>,
    distances: Seq<Option<u32>>,
)
    ensures
        match exact::assembled(batch, names, distances) {
            Ok(Scored::Rows { sources, distances: kept, mask }) => {
                &&& kept == distances
                &&& mask.len() == distances.len()
                &&& forall|i: int|
                    0 <= i < distances.len() ==> (#[trigger] mask[i] <==> distances[i] is Some)
                &&& sources.len() == names.len()
                &&& forall|k: int|
                    0 <= k < names.len() ==> is_source(batch, names[k], #[trigger] sources[k])
            },
            Ok(Scored::Empty) => false,
            Err(Failure::MissingOutputColumn { name }) => exists|k: int|
                {
                    &&& 0 <= k < names.len()
                    &&& name == #[trigger] names[k]
                    &&& name != "_distance"@
                    &&& has_none(batch.columns@, name)
                    &&& forall|earlier: int|
                        0 <= earlier < k ==> #[trigger] names[earlier] == "_distance"@ || !has_none(
                            batch.columns@,
                            names[earlier],
                        )
                },
            Err(_) => false,
        },
{
    lemma_sources(batch, names);
    if let Err(failure) = exact::assembled(batch, names, distances) {
        let name = failure->MissingOutputColumn_name;
        let k = choose|k: int|
            {
                &&& 0 <= k < names.len()
                &&& name == #[trigger] names[k]
                &&& name != "_distance"@
                &&& has_none(batch.columns@, name)
                &&& forall|earlier: int|
                    0 <= earlier < k ==> #[trigger] names[earlier] == "_distance"@ || !has_none(
                        batch.columns@,
                        names[earlier],
                    )
            };
        assert(names[k] == name);
    }
}

/// Where the output columns come from.
proof fn lemma_sources(batch: Batch, names: Seq<Seq<char>>)
    ensures
        match exact::sources_of(batch, names) {
            Ok(sources) => {
                &&& sources.len() == names.len()
                &&& forall|k: int|
                    0 <= k < names.len() ==> is_source(batch, names[k], #[trigger] sources[k])
            },
            Err(Failure::MissingOutputColumn { name }) => exists|k: int|
                {
                    &&& 0 <= k < names.len()
                    &&& name == #[trigger] names[k]
                    &&& name != "_distance"@
                    &&& has_none(batch.columns@, name)
                    &&& forall|earlier: int|
                        0 <= earlier < k ==> #[trigger] names[earlier] == "_distance"@ || !has_none(
                            batch.columns@,
                            names[earlier],
                        )
                },
            Err(_) => false,
        },
    decreases names.len(),
{
    if names.len() > 0 {
        let less = names.drop_last();
        lemma_sources(batch, less);
        let last = names.len() - 1;
        assert(names[last] == names.last());
        assert forall|k: int| 0 <= k < less.len() implies #[trigger] names[k] == less[k] by {}
        law_lookup_finds_the_first(batch.columns@, names.last());
        assert(batch.columns.len() == batch.columns@.len());
        match exact::sources_of(batch, less) {
            Ok(sources) => {
                assert forall|earlier: int| 0 <= earlier < last implies #[trigger] names[earlier]
                    == "_distance"@ || !has_none(batch.columns@, names[earlier]) by {
                    assert(is_source(batch, less[earlier], sources[earlier]));
                    if let ColumnSource::Input(i) = sources[earlier] {
                        assert(batch.columns@[i as int].name@ == names[earlier]);
                    }
                }
                if let Ok(all) = exact::sources_of(batch, names) {
                    assert forall|k: int| 0 <= k < names.len() implies is_source(
                        batch,
                        names[k],
                        #[trigger] all[k],
                    ) by {
                        if k < last {
                            assert(all[k] == sources[k]);
                        }
                    }
                }
            },
            Err(failure) => {
                let name = failure->MissingOutputColumn_name;
                let k = choose|k: int|
                    {
                        &&& 0 <= k < less.len()
                        &&& name == #[trigger] less[k]
                        &&& name != "_distance"@
                        &&& has_none(batch.columns@, name)
                        &&& forall|earlier: int|
                            0 <= earlier < k ==> #[trigger] less[earlier] == "_distance"@
                                || !has_none(batch.columns@, less[earlier])
                    };
                assert(names[k] == name);
                assert forall|earlier: int| 0 <= earlier < k implies #[trigger] names[earlier]
                    == "_distance"@ || !has_none(batch.columns@, names[earlier]) by {
                    assert(less[earlier] == names[earlier]);
                }
            },
        }
    }
}

/// Whether the batch has a column of row ids and that of row `i` is null.
pub open spec fn lacks_row_id(batch: Batch, i: int) -> bool {
    exists|k: int| #[trigger] is_first(batch.columns@, "_rowid"@, k) && batch.columns@[k].nulls@[i]
}

/// The vectors of row `i` of a list column, where the row is a list of vectors.
pub open spec fn vectors_of(vectors: Column, i: int) -> Option<SubVectors> {
    match vectors.data {
        ColumnData::List(rows) => match rows@[i] {
            Row::FixedSizeLists(lists) => Some(lists),
            Row::Other => None,
        },
        _ => None,
    }
}

/// A row without a row id, without a list or with an empty list has no distance; a list of anything
/// but vectors fails; every other row has the outcome of its own vectors.
pub proof fn law_row_of_a_batch(
    batch: Batch,
    vectors: Column,
    query: ElementArray,
    metric: Metric,
    i: int,
    outcome: Result<Option<u32>, Failure>,
)
    requires
        vectors.data is List,
        exact::is_outcome(batch, vectors, query, metric, i, outcome),
    ensures
        lacks_row_id(batch, i) || vectors.nulls@[i] ==> outcome == Ok::<Option<u32>, Failure>(None),
        !lacks_row_id(batch, i) && !vectors.nulls@[i] ==> match vectors_of(vectors, i) {
            None => outcome == Err::<Option<u32>, Failure>(Failure::NotAFixedSizeList),
            Some(lists) => if lists.count == 0 {
                outcome == Ok::<Option<u32>, Failure>(None)
            } else {
                exists|own: Result<Option<u32>, ScoreError>|
                    #[trigger] score::is_row_outcome(metric, query, lists, own) && match own {
                        Ok(distance) => outcome == Ok::<Option<u32>, Failure>(distance),
                        Err(error) => outcome == Err::<Option<u32>, Failure>(error@),
                    }
            },
        },
{
    law_lookup_finds_the_first(batch.columns@, "_rowid"@);
    assert(lacks_row_id(batch, i) == exact::null_row_id(batch, i)) by {
        if let Some(k) = column::position(batch.columns@, "_rowid"@) {
            assert forall|other: int| #[trigger]
                is_first(batch.columns@, "_rowid"@, other) implies other == k by {
                if other < k {
                    assert(batch.columns@[other].name@ != "_rowid"@);
                }
                if k < other {
                    assert(batch.columns@[k].name@ != "_rowid"@);
                }
            }
        }
    }
    if !lacks_row_id(batch, i) && !vectors.nulls@[i] {
        if let Some(lists) = vectors_of(vectors, i) {
            if lists.count > 0 {
                match outcome {
                    Ok(distance) => {
                        assert(score::is_row_outcome(metric, query, lists, Ok(distance)));
                    },
                    Err(failure) => {
                        let error = choose|error: ScoreError|
                            #[trigger] score::is_row_outcome(metric, query, lists, Err(error))
                                && error@ == failure;
                        assert(score::is_row_outcome(metric, query, lists, Err(error)));
                    },
                }
            }
        }
    }
}

/// A row that is left out of the result lacks a row id, a list, vectors or, for some query vector, a
/// defined distance; every other row is in the result, whatever its distance is.
pub proof fn law_every_measured_row_is_kept(
    batch: Batch,
    query: ElementArray,
    path: Seq<char>,
    metric: Metric,
    names: Seq<Seq<char>>,
    outcome: Result<Scored, Failure>,
    vectors: Column,
    i: int,
)
    requires
        batch.num_rows > 0,
        exact::is_exact_outcome(batch, query, path, metric, names, outcome),
        outcome is Ok,
        column::vector_column_of(batch, path) == Ok::<Column, Failure>(vectors),
        0 <= i < batch.num_rows,
        !lacks_row_id(batch, i),
        !vectors.nulls@[i],
        vectors_of(vectors, i) matches Some(lists) && lists.count > 0 && lists.dimension > 0,
    ensures
        ({
            let lists = vectors_of(vectors, i).unwrap();
            outcome matches Ok(Scored::Rows { sources, distances, mask }) && if mask[i] {
                distances[i] matches Some(distance) && exists|table: Seq<Seq<u32>>|
                    #[trigger] score_laws::is_measured(
                        metric,
                        query.elements,
                        lists.values.elements,
                        lists.dimension as int,
                        table,
                    ) && score_laws::is_late_interaction(table, Ok(Some(distance)))
            } else {
                exists|table: Seq<Seq<u32>>, k: int|
                    #[trigger] score_laws::is_measured(
                        metric,
                        query.elements,
                        lists.values.elements,
                        lists.dimension as int,
                        table,
                    ) && #[trigger] score_laws::is_undefined_row(table, k)
            }
        }),
{
    law_outcome_of_a_batch(batch, query, path, metric, names, outcome, vectors);
    let distances = outcome->Ok_0->Rows_distances;
    assert(vectors.data is List);
    law_row_of_a_batch(batch, vectors, query, metric, i, Ok(distances[i]));
    let lists = vectors_of(vectors, i).unwrap();
    let own = choose|own: Result<Option<u32>, ScoreError>|
        #[trigger] score::is_row_outcome(metric, query, lists, own) && match own {
            Ok(distance) => Ok::<Option<u32>, Failure>(distances[i]) == Ok::<Option<u32>, Failure>(
                distance,
            ),
            Err(error) => Ok::<Option<u32>, Failure>(distances[i]) == Err::<Option<u32>, Failure>(
                error@,
            ),
        };
    score_laws::law_failing_row_has_its_error(metric, query, lists, own);
    score_laws::law_every_pair_of_vectors_counts(metric, query, lists, own);
    let table = choose|table: Seq<Seq<u32>>|
        #[trigger] score_laws::is_measured(
            metric,
            query.elements,
            lists.values.elements,
            lists.dimension as int,
            table,
        ) && score_laws::is_late_interaction(table, own);
    if distances[i] is None {
        let k = choose|k: int| #[trigger] score_laws::is_undefined_row(table, k);
        assert(score_laws::is_undefined_row(table, k));
    }
}

/// Whether each of the first rows has the given distance, or none.
pub open spec fn are_row_distances(
    batch: Batch,
    vectors: Column,
    query: ElementArray,
    metric: Metric,
    distances: Seq<Option<u32>>,
) -> bool {
    forall|i: int|
        0 <= i < distances.len() ==> exact::is_outcome(
            batch,
            vectors,
            query,
            metric,
            i,
            Ok(#[trigger] distances[i]),
        )
}

/// The result of a batch with rows holds the outcome of each row, in order, and keeps exactly the
/// rows that have a distance; a failure is that of the first failing row or, where no row fails, that
/// of an output column; a vector column of another type than a list fails.
pub proof fn law_outcome_of_a_batch(
    batch: Batch,
    query: ElementArray,
    path: Seq<char>,
    metric: Metric,
    names: Seq<Seq<char>>,
    outcome: Result<Scored, Failure>,
    vectors: Column,
)
    requires
        batch.num_rows > 0,
        exact::is_exact_outcome(batch, query, path, metric, names, outcome),
        column::vector_column_of(batch, path) == Ok::<Column, Failure>(vectors),
    ensures
        vectors.data !is List <==> outcome == Err::<Scored, Failure>(Failure::NotAList),
        vectors.data is List ==> match outcome {
            Ok(Scored::Rows { sources, distances, mask }) => {
                &&& distances.len() == batch.num_rows
                &&& are_row_distances(batch, vectors, query, metric, distances)
                &&& mask.len() == batch.num_rows
                &&& forall|i: int|
                    0 <= i < batch.num_rows ==> (#[trigger] mask[i] <==> distances[i] is Some)
                &&& sources.len() == names.len()
                &&& forall|k: int|
                    0 <= k < names.len() ==> is_source(batch, names[k], #[trigger] sources[k])
            },
            Ok(Scored::Empty) => false,
            Err(failure) => {
                ||| exists|before: Seq<Option<u32>>|
                    {
                        &&& before.len() < batch.num_rows
                        &&& #[trigger] are_row_distances(batch, vectors, query, metric, before)
                        &&& exact::is_outcome(
                            batch,
                            vectors,
                            query,
                            metric,
                            before.len() as int,
                            Err(failure),
                        )
                    }
                ||| exists|distances: Seq<Option<u32>>|
                    {
                        &&& distances.len() == batch.num_rows
                        &&& #[trigger] are_row_distances(batch, vectors, query, metric, distances)
                        &&& failure is MissingOutputColumn
                        &&& exact::assembled(batch, names, distances) == Err::<Scored, Failure>(
                            failure,
                        )
                    }
            },
        },
{
    if vectors.data is List {
        let scores = choose|scores: Result<Seq<Option<u32>>, Failure>|
            #[trigger] exact::are_scores(batch, vectors, query, metric, scores) && outcome == (
            match scores {
                Ok(distances) => exact::assembled(batch, names, distances),
                Err(failure) => Err(failure),
            });
        match scores {
            Ok(distances) => {
                law_result_keeps_every_scored_row(batch, names, distances);
                assert(are_row_distances(batch, vectors, query, metric, distances));
            },
            Err(failure) => {
                let before = choose|before: Seq<Option<u32>>|
                    {
                        &&& before.len() < batch.num_rows
                        &&& forall|i: int|
                            0 <= i < before.len() ==> exact::is_outcome(
                                batch,
                                vectors,
                                query,
                                metric,
                                i,
                                Ok(#[trigger] before[i]),
                            )
                        &&& #[trigger] exact::is_outcome(
                            batch,
                            vectors,
                            query,
                            metric,
                            before.len() as int,
                            Err(failure),
                        )
                    };
                assert(are_row_distances(batch, vectors, query, metric, before));
                law_row_of_a_batch(
                    batch,
                    vectors,
                    query,
                    metric,
                    before.len() as int,
                    Err(failure),
                );
                assert(failure !is NotAList) by {
                    if let Some(lists) = vectors_of(vectors, before.len() as int) {
                        if failure is NotAList {
                            let own = choose|own: Result<Option<u32>, ScoreError>|
                                #[trigger] score::is_row_outcome(metric, query, lists, own)
                                    && match own {
                                    Ok(distance) => Err::<Option<u32>, Failure>(failure) == Ok::<
                                        Option<u32>,
                                        Failure,
                                    >(distance),
                                    Err(error) => Err::<Option<u32>, Failure>(failure) == Err::<
                                        Option<u32>,
                                        Failure,
                                    >(error@),
                                };
                            assert(own is Err);
                        }
                    }
                }
            },
        }
    }
}

/// An empty batch gives an empty result, and a batch whose vector column is not found fails as that
/// lookup does.
pub proof fn law_batches_without_rows_or_vectors(
    batch: Batch,
    query: ElementArray,
    path: Seq<char>,
    metric: Metric,
    names: Seq<Seq<char>>,
    outcome: Result<Scored, Failure>,
)
    requires
        exact::is_exact_outcome(batch, query, path, metric, names, outcome),
    ensures
        batch.num_rows == 0 ==> outcome == Ok::<Scored, Failure>(Scored::Empty),
        batch.num_rows > 0 ==> (column::vector_column_of(batch, path) matches Err(failure)
            ==> outcome == Err::<Scored, Failure>(failure)),
{
}

/// Whether row `i` is measured: it has a row id and a list of vectors that is not empty, of the
/// query's element type, complete and finite.
pub open spec fn is_measured_row(batch: Batch, vectors: Column, query: ElementArray, i: int) -> bool {
    &&& !lacks_row_id(batch, i)
    &&& !vectors.nulls@[i]
    &&& vectors_of(vectors, i) matches Some(lists) && lists.count > 0 && score::row_error(
        query,
        lists,
    ) is None
}

/// Whether row `i` fails before any distance is measured.
pub open spec fn fails_unmeasured(batch: Batch, vectors: Column, query: ElementArray, i: int) -> bool {
    &&& !lacks_row_id(batch, i)
    &&& !vectors.nulls@[i]
    &&& match vectors_of(vectors, i) {
        None => true,
        Some(lists) => lists.count > 0 && score::row_error(query, lists) is Some,
    }
}

/// A batch can be scored exactly where every measured row, up to the first that fails without being
/// measured, has vectors of at least one element and a metric other than Hamming.
pub proof fn law_what_can_be_measured(
    batch: Batch,
    query: ElementArray,
    path: Seq<char>,
    metric: Metric,
)
    ensures
        exact::is_measurable(batch, query, path, metric) <==> match column::vector_column_of(
            batch,
            path,
        ) {
            Ok(vectors) => vectors.data is List ==> forall|i: int|
                {
                    &&& 0 <= i < batch.num_rows
                    &&& #[trigger] is_measured_row(batch, vectors, query, i)
                    &&& forall|j: int| 0 <= j < i ==> !#[trigger] fails_unmeasured(
                        batch,
                        vectors,
                        query,
                        j,
                    )
                } ==> vectors_of(vectors, i).unwrap().dimension > 0 && metric !is Hamming,
            Err(_) => true,
        },
{
    if let Ok(vectors) = column::vector_column_of(batch, path) {
        if vectors.data is List {
            law_lookup_finds_the_first(batch.columns@, "_rowid"@);
            assert forall|i: int| lacks_row_id(batch, i) == #[trigger] exact::null_row_id(batch, i) by {
                if let Some(k) = column::position(batch.columns@, "_rowid"@) {
                    assert forall|other: int| #[trigger]
                        is_first(batch.columns@, "_rowid"@, other) implies other == k by {
                        if other < k {
                            assert(batch.columns@[other].name@ != "_rowid"@);
                        }
                        if k < other {
                            assert(batch.columns@[k].name@ != "_rowid"@);
                        }
                    }
                }
            }
            assert forall|j: int| #[trigger]
                fails_unmeasured(batch, vectors, query, j) == exact::is_failing_row(
                    batch,
                    vectors,
                    query,
                    j,
                ) by {
                assert(lacks_row_id(batch, j) == exact::null_row_id(batch, j));
            }
            assert forall|j: int| #[trigger]
                exact::is_failing_row(batch, vectors, query, j) == fails_unmeasured(
                    batch,
                    vectors,
                    query,
                    j,
                ) by {
                assert(lacks_row_id(batch, j) == exact::null_row_id(batch, j));
            }
            assert forall|i: int| #[trigger]
                exact::is_measurable_row(batch, vectors, query, metric, i) == (is_measured_row(
                    batch,
                    vectors,
                    query,
                    i,
                ) ==> vectors_of(vectors, i).unwrap().dimension > 0 && metric !is Hamming) by {
                assert(lacks_row_id(batch, i) == exact::null_row_id(batch, i));
            }
            if exact::is_measurable(batch, query, path, metric) {
                assert forall|i: int|
                    {
                        &&& 0 <= i < batch.num_rows
                        &&& #[trigger] is_measured_row(batch, vectors, query, i)
                        &&& forall|j: int| 0 <= j < i ==> !#[trigger] fails_unmeasured(
                            batch,
                            vectors,
                            query,
                            j,
                        )
                    } implies vectors_of(vectors, i).unwrap().dimension > 0 && metric !is Hamming by {
                    assert forall|j: int| 0 <= j < i implies !#[trigger] exact::is_failing_row(
                        batch,
                        vectors,
                        query,
                        j,
                    ) by {
                        assert(!fails_unmeasured(batch, vectors, query, j));
                    }
                    assert(exact::is_measurable_row(batch, vectors, query, metric, i));
                }
            }
        }
    }
}

/// Whether the column has `num_rows` rows, and so have the fields of a struct, at any depth.
pub open spec fn has_rows(column: Column, num_rows: nat) -> bool
    decreases column,
{
    &&& column.nulls@.len() == num_rows
    &&& column.data matches ColumnData::List(rows) ==> rows@.len() == num_rows
    &&& column.data matches ColumnData::Struct(fields) ==> forall|i: int|
        0 <= i < fields@.len() ==> has_rows(#[trigger] fields@[i], num_rows)
}

/// A batch is well formed exactly where each of its columns has as many rows as the batch; nothing
/// else is asked of it.
pub proof fn law_batches_in_order(batch: Batch)
    ensures
        batch.wf() <==> forall|i: int|
            0 <= i < batch.columns@.len() ==> has_rows(
                #[trigger] batch.columns@[i],
                batch.num_rows as nat,
            ),
{
    assert forall|i: int| 0 <= i < batch.columns@.len() implies (#[trigger] batch.columns@[i]).wf(
        batch.num_rows as nat,
    ) == has_rows(batch.columns@[i], batch.num_rows as nat) by {
        lemma_columns_in_order(batch.columns@[i], batch.num_rows as nat);
    }
}

/// A column is well formed exactly where it has the rows.
proof fn lemma_columns_in_order(column: Column, num_rows: nat)
    ensures
        column.wf(num_rows) == has_rows(column, num_rows),
    decreases column,
{
    if let ColumnData::Struct(fields) = column.data {
        assert forall|i: int| 0 <= i < fields@.len() implies (#[trigger] fields@[i]).wf(num_rows)
            == has_rows(fields@[i], num_rows) by {
            lemma_columns_in_order(fields@[i], num_rows);
        }
    }
}

/// What the functions return stands for what it holds.
pub proof fn law_results_stand_for_themselves(
    scored: Result<ScoredBatch, ScoreError>,
    found: Result<&Column, ScoreError>,
    distance: Result<Option<u32>, ScoreError>,
    names: Seq<String>,
    k: int,
)
    ensures
        match scored {
            Ok(ScoredBatch::Empty) => exact::outcome_of(scored) == Ok::<Scored, Failure>(
                Scored::Empty,
            ),
            Ok(ScoredBatch::Rows { sources, distances, mask }) => exact::outcome_of(scored) == Ok::<
                Scored,
                Failure,
            >(Scored::Rows { sources: sources@, distances: distances@, mask: mask@ }),
            Err(error) => exact::outcome_of(scored) == Err::<Scored, Failure>(error@),
        },
        match found {
            Ok(column) => column::lookup(found) == Ok::<Column, Failure>(*column),
            Err(error) => column::lookup(found) == Err::<Column, Failure>(error@),
        },
        match distance {
            Ok(own) => exact::row_outcome_of(distance) == Ok::<Option<u32>, Failure>(own),
            Err(error) => exact::row_outcome_of(distance) == Err::<Option<u32>, Failure>(error@),
        },
        path::characters(names).len() == names.len(),
        0 <= k < names.len() ==> path::characters(names)[k] == names[k]@,
{
}

} // verus!
