//! Why a query, a batch or a plan is rejected.

use vstd::prelude::*;
use vstd::string::StringExecFns;

verus! {

/// A rejected query, batch or plan.
#[derive(Debug, PartialEq, Eq)]
pub enum ScoreError {
    /// The plan scores several logical queries at once.
    BatchQueries,
    /// The query's elements are not all finite and non-null floating-point numbers.
    InvalidQuery,
    /// The query's element type has no distance function.
    UnsupportedElementType,
    /// The stored vectors have another element type than the query.
    StoredElementType,
    /// A stored sub-vector or element is null, or an element is not finite.
    StoredElements,
    /// The row's distance is not finite.
    DistanceNotFinite,
    /// The vector column's path cannot be parsed.
    InvalidColumnPath {
        /// The path.
        column: String,
        /// What the parser found wrong.
        reason: String,
    },
    /// No column of the batch is the root of the vector column's path.
    MissingColumn {
        /// The path.
        column: String,
    },
    /// A part of the vector column's path is not a field of a struct.
    MissingField {
        /// The part.
        field: String,
        /// The path.
        column: String,
    },
    /// The vector column is not a list.
    NotAList,
    /// A row of the vector column is not a fixed-size list.
    NotAFixedSizeList,
    /// An output column is not a column of the batch.
    MissingOutputColumn {
        /// The output column.
        name: String,
    },
    /// Indexed candidates come without row ids.
    MissingRowIds,
    /// Indexed candidates come without distances.
    MissingDistances,
    /// An indexed candidate has no row id or no finite distance.
    InvalidCandidate,
}

/// What a [`ScoreError`] says, apart from the path parser's own words.
pub enum Failure {
    /// See [`ScoreError::BatchQueries`].
    BatchQueries,
    /// See [`ScoreError::InvalidQuery`].
    InvalidQuery,
    /// See [`ScoreError::UnsupportedElementType`].
    UnsupportedElementType,
    /// See [`ScoreError::StoredElementType`].
    StoredElementType,
    /// See [`ScoreError::StoredElements`].
    StoredElements,
    /// See [`ScoreError::DistanceNotFinite`].
    DistanceNotFinite,
    /// See [`ScoreError::InvalidColumnPath`].
    InvalidColumnPath { column: Seq<char> },
    /// See [`ScoreError::MissingColumn`].
    MissingColumn { column: Seq<char> },
    /// See [`ScoreError::MissingField`].
    MissingField { field: Seq<char>, column: Seq<char> },
    /// See [`ScoreError::NotAList`].
    NotAList,
    /// See [`ScoreError::NotAFixedSizeList`].
    NotAFixedSizeList,
    /// See [`ScoreError::MissingOutputColumn`].
    MissingOutputColumn { name: Seq<char> },
    /// See [`ScoreError::MissingRowIds`].
    MissingRowIds,
    /// See [`ScoreError::MissingDistances`].
    MissingDistances,
    /// See [`ScoreError::InvalidCandidate`].
    InvalidCandidate,
}

impl View for ScoreError {
    type V = Failure;

    open spec fn view(&self) -> Failure {
        match self {
            ScoreError::BatchQueries => Failure::BatchQueries,
            ScoreError::InvalidQuery => Failure::InvalidQuery,
            ScoreError::UnsupportedElementType => Failure::UnsupportedElementType,
            ScoreError::StoredElementType => Failure::StoredElementType,
            ScoreError::StoredElements => Failure::StoredElements,
            ScoreError::DistanceNotFinite => Failure::DistanceNotFinite,
            ScoreError::InvalidColumnPath { column, reason: _ } => Failure::InvalidColumnPath {
                column: column@,
            },
            ScoreError::MissingColumn { column } => Failure::MissingColumn { column: column@ },
            ScoreError::MissingField { field, column } => Failure::MissingField {
                field: field@,
                column: column@,
            },
            ScoreError::NotAList => Failure::NotAList,
            ScoreError::NotAFixedSizeList => Failure::NotAFixedSizeList,
            ScoreError::MissingOutputColumn { name } => Failure::MissingOutputColumn {
                name: name@,
            },
            ScoreError::MissingRowIds => Failure::MissingRowIds,
            ScoreError::MissingDistances => Failure::MissingDistances,
            ScoreError::InvalidCandidate => Failure::InvalidCandidate,
        }
    }
}

impl ScoreError {
    /// The message, character by character.
    pub open spec fn text(self) -> Seq<char> {
        match self {
            ScoreError::BatchQueries =>
                "expected one logical multi-vector query, not batch queries"@,
            ScoreError::InvalidQuery =>
                "multi-vector query must contain only finite, non-null elements"@,
            ScoreError::UnsupportedElementType => "unsupported multi-vector element type"@,
            ScoreError::StoredElementType => "multi-vector stored element type mismatch"@,
            ScoreError::StoredElements =>
                "multi-vector stored subvectors must contain only finite, non-null elements"@,
            ScoreError::DistanceNotFinite => "multi-vector distance is not finite"@,
            ScoreError::InvalidColumnPath { column, reason } => "invalid vector column path '"@
                + column@ + "': "@ + reason@,
            ScoreError::MissingColumn { column } => "missing vector column '"@ + column@ + "'"@,
            ScoreError::MissingField { field, column } => "missing struct field '"@ + field@
                + "' in vector column '"@ + column@ + "'"@,
            ScoreError::NotAList => "multi-vector scoring requires a List column"@,
            ScoreError::NotAFixedSizeList => "multi-vector row must be a FixedSizeList"@,
            ScoreError::MissingOutputColumn { name } => "missing score output column "@ + name@,
            ScoreError::MissingRowIds => "indexed multi-vector scorer requires row IDs"@,
            ScoreError::MissingDistances => "indexed multi-vector scorer requires distances"@,
            ScoreError::InvalidCandidate =>
                "indexed multi-vector candidate has invalid row ID or distance"@,
        }
    }

    /// The message for the caller of the search.
    pub fn message(&self) -> (message: String)
        ensures
            message@ == self.text(),
    {
        match self {
            ScoreError::BatchQueries =>
                "expected one logical multi-vector query, not batch queries".to_owned(),
            ScoreError::InvalidQuery =>
                "multi-vector query must contain only finite, non-null elements".to_owned(),
            ScoreError::UnsupportedElementType =>
                "unsupported multi-vector element type".to_owned(),
            ScoreError::StoredElementType =>
                "multi-vector stored element type mismatch".to_owned(),
            ScoreError::StoredElements =>
                "multi-vector stored subvectors must contain only finite, non-null elements".to_owned(),
            ScoreError::DistanceNotFinite => "multi-vector distance is not finite".to_owned(),
            ScoreError::InvalidColumnPath { column, reason } => {
                let mut message: String = "invalid vector column path '".to_owned();
                message.append(column.as_str());
                message.append("': ");
                message.append(reason.as_str());
                message
            },
            ScoreError::MissingColumn { column } => {
                let mut message: String = "missing vector column '".to_owned();
                message.append(column.as_str());
                message.append("'");
                message
            },
            ScoreError::MissingField { field, column } => {
                let mut message: String = "missing struct field '".to_owned();
                message.append(field.as_str());
                message.append("' in vector column '");
                message.append(column.as_str());
                message.append("'");
                message
            },
            ScoreError::NotAList => "multi-vector scoring requires a List column".to_owned(),
            ScoreError::NotAFixedSizeList => "multi-vector row must be a FixedSizeList".to_owned(),
            ScoreError::MissingOutputColumn { name } => {
                let mut message: String = "missing score output column ".to_owned();
                message.append(name.as_str());
                message
            },
            ScoreError::MissingRowIds =>
                "indexed multi-vector scorer requires row IDs".to_owned(),
            ScoreError::MissingDistances =>
                "indexed multi-vector scorer requires distances".to_owned(),
            ScoreError::InvalidCandidate =>
                "indexed multi-vector candidate has invalid row ID or distance".to_owned(),
        }
    }
}

} // verus!
