//! The columns of a batch, and the vector column among them.

use crate::error::{Failure, ScoreError};
use crate::model::SubVectors;
use crate::path;
use vstd::prelude::*;

verus! {

/// One row of a list column.
#[derive(Debug)]
pub enum Row {
    /// A list of fixed-size lists.
    FixedSizeLists(SubVectors),
    /// A list of anything else.
    Other,
}

/// The type of a column and, where scoring reads them, its rows or fields.
#[derive(Debug)]
pub enum ColumnData {
    /// A list column; a null row may hold anything.
    List(Vec<Row>),
    /// A struct column.
    Struct(Vec<Column>),
    /// A column of another type.
    Other,
}

/// A column of a batch or a field of a struct column.
#[derive(Debug)]
pub struct Column {
    /// The column's name.
    pub name: String,
    /// Which rows are null.
    pub nulls: Vec<bool>,
    /// The column's type and contents.
    pub data: ColumnData,
}

/// A batch of rows.
#[derive(Debug)]
pub struct Batch {
    /// The number of rows.
    pub num_rows: usize,
    /// The columns.
    pub columns: Vec<Column>,
}

impl Column {
    /// The column and its fields have `num_rows` rows.
    pub open spec fn wf(self, num_rows: nat) -> bool
        decreases self,
    {
        &&& self.nulls@.len() == num_rows
        &&& match self.data {
            ColumnData::List(rows) => rows@.len() == num_rows,
            ColumnData::Struct(fields) => forall|i: int|
                0 <= i < fields@.len() ==> (#[trigger] fields@[i]).wf(num_rows),
            ColumnData::Other => true,
        }
    }
}

impl Batch {
    /// The columns have as many rows as the batch.
    pub open spec fn wf(self) -> bool {
        forall|i: int|
            0 <= i < self.columns@.len() ==> (#[trigger] self.columns@[i]).wf(
                self.num_rows as nat,
            )
    }
}

/// The first of `columns` with the given name.
pub open spec fn position(columns: Seq<Column>, name: Seq<char>) -> Option<int>
    decreases columns.len(),
{
    if columns.len() == 0 {
        None
    } else {
        match position(columns.drop_last(), name) {
            Some(i) => Some(i),
            None => if columns.last().name@ == name {
                Some(columns.len() - 1)
            } else {
                None
            },
        }
    }
}

/// The field of a struct column with the given name.
pub open spec fn field_of(column: Column, name: Seq<char>) -> Option<Column> {
    match column.data {
        ColumnData::Struct(fields) => match position(fields@, name) {
            Some(i) => Some(fields@[i]),
            None => None,
        },
        _ => None,
    }
}

/// The column that the first `count` of `names`, after the first, lead to from `root`, or the index
/// of the first name that is not a field.
pub open spec fn descend(root: Column, names: Seq<Seq<char>>, count: nat) -> Result<Column, int>
    decreases count,
{
    if count <= 1 {
        Ok(root)
    } else {
        match descend(root, names, (count - 1) as nat) {
            Ok(parent) => match field_of(parent, names[count - 1]) {
                Some(field) => Ok(field),
                None => Err(count - 1),
            },
            Err(missing) => Err(missing),
        }
    }
}

/// The column that the field names `names` of the path `path` lead to.
pub open spec fn resolved(batch: Batch, path: Seq<char>, names: Seq<Seq<char>>) -> Result<
    Column,
    Failure,
> {
    match position(batch.columns@, names[0]) {
        None => Err(Failure::MissingColumn { column: path }),
        Some(i) => match descend(batch.columns@[i], names, names.len()) {
            Ok(column) => Ok(column),
            Err(missing) => Err(Failure::MissingField { field: names[missing], column: path }),
        },
    }
}

/// The column that `path` names: the column of that very name, or else the one at that path.
pub open spec fn vector_column_of(batch: Batch, path: Seq<char>) -> Result<Column, Failure> {
    match position(batch.columns@, path) {
        Some(i) => Ok(batch.columns@[i]),
        None => match path::path_names(path) {
            Some(names) => resolved(batch, path, names),
            None => Err(Failure::InvalidColumnPath { column: path }),
        },
    }
}

/// What a lookup gave, as a mathematical value.
pub open spec fn lookup(result: Result<&Column, ScoreError>) -> Result<Column, Failure> {
    match result {
        Ok(column) => Ok(*column),
        Err(error) => Err(error@),
    }
}

/// The first of `columns` with the given name.
pub fn find_column(columns: &Vec<Column>, name: &String) -> (found: Option<usize>)
    ensures
        found matches Some(i) ==> i < columns@.len() && position(columns@, name@) == Some(i as int),
        found is None ==> position(columns@, name@) is None,
{
    for i in 0..columns.len()
        invariant
            position(columns@.take(i as int), name@) is None,
    {
        proof {
            assert(columns@.take(i + 1).drop_last() =~= columns@.take(i as int));
        }
        if columns[i].name == *name {
            proof {
                lemma_position_stays(columns@, name@, i + 1);
            }
            return Some(i);
        }
    }
    proof {
        assert(columns@.take(columns@.len() as int) =~= columns@);
    }
    None
}

/// A first position is kept when columns follow.
proof fn lemma_position_stays(columns: Seq<Column>, name: Seq<char>, count: int)
    requires
        0 <= count <= columns.len(),
        position(columns.take(count), name) is Some,
    ensures
        position(columns, name) == position(columns.take(count), name),
        0 <= position(columns, name).unwrap() < count,
    decreases columns.len() - count,
{
    if count == columns.len() {
        assert(columns.take(count) =~= columns);
        lemma_position_in_range(columns, name);
    } else {
        assert(columns.take(count + 1).drop_last() =~= columns.take(count));
        lemma_position_in_range(columns.take(count), name);
        lemma_position_stays(columns, name, count + 1);
    }
}

/// A first position is a position of a column with that name.
pub proof fn lemma_position_in_range(columns: Seq<Column>, name: Seq<char>)
    ensures
        position(columns, name) matches Some(i) ==> 0 <= i < columns.len() && columns[i].name@
            == name,
    decreases columns.len(),
{
    if columns.len() > 0 {
        lemma_position_in_range(columns.drop_last(), name);
    }
}

/// Follows the field names `names` of the path `path`.
pub fn resolve<'a>(batch: &'a Batch, path: &str, names: &Vec<String>) -> (found: Result<
    &'a Column,
    ScoreError,
>)
    requires
        names@.len() > 0,
    ensures
        lookup(found) == resolved(*batch, path@, path::characters(names@)),
{
    let ghost parts = path::characters(names@);
    let root: usize = match find_column(&batch.columns, &names[0]) {
        Some(i) => i,
        None => {
            return Err(ScoreError::MissingColumn { column: path.to_owned() });
        },
    };
    let mut column: &Column = &batch.columns[root];
    let ghost start = *column;
    for k in 1..names.len()
        invariant
            names@.len() > 0,
            parts == path::characters(names@),
            position(batch.columns@, parts[0]) == Some(root as int),
            0 <= root < batch.columns@.len(),
            start == batch.columns@[root as int],
            descend(start, parts, k as nat) == Ok::<Column, int>(*column),
    {
        let mut next: Option<&Column> = None;
        if let ColumnData::Struct(fields) = &column.data {
            if let Some(i) = find_column(fields, &names[k]) {
                next = Some(&fields[i]);
            }
        }
        match next {
            Some(field) => {
                column = field;
            },
            None => {
                proof {
                    lemma_descend_stops(start, parts, (k + 1) as nat, parts.len());
                }
                return Err(
                    ScoreError::MissingField { field: names[k].clone(), column: path.to_owned() },
                );
            },
        }
    }
    Ok(column)
}

/// The first name that is not a field stays so when names follow.
proof fn lemma_descend_stops(root: Column, names: Seq<Seq<char>>, from: nat, to: nat)
    requires
        from <= to,
        descend(root, names, from) is Err,
    ensures
        descend(root, names, to) == descend(root, names, from),
    decreases to,
{
    if from < to {
        lemma_descend_stops(root, names, from, (to - 1) as nat);
    }
}

/// The column that `path` names: the column of that very name, or else the one at that path.
pub fn vector_column<'a>(batch: &'a Batch, path: &str) -> (found: Result<&'a Column, ScoreError>)
    ensures
        lookup(found) == vector_column_of(*batch, path@),
        found matches Err(ScoreError::InvalidColumnPath { column, reason })
            ==> path::is_path_error(path@, reason@),
{
    if let Some(i) = find_column(&batch.columns, &path.to_owned()) {
        return Ok(&batch.columns[i]);
    }
    match path::split_path(path) {
        Ok(names) => resolve(batch, path, &names),
        Err(reason) => Err(ScoreError::InvalidColumnPath { column: path.to_owned(), reason }),
    }
}

} // verus!
