use multivector::column::{find_column, resolve, vector_column, Batch, Column, ColumnData, Row};
use multivector::error::ScoreError;
use multivector::exact::{
    assemble, exact_batch, has_distance_function, ColumnSource, ScoredBatch,
};
use multivector::model::{ElementArray, Elements, Metric, SubVectors};
use multivector::path::split_path;
use multivector::score::{row_distance, row_failure};

fn singles(values: &[f32]) -> ElementArray {
    ElementArray {
        elements: Elements::Float32(values.iter().map(|value| value.to_bits()).collect()),
        null_count: 0,
    }
}

fn doubles(values: &[f64]) -> ElementArray {
    ElementArray {
        elements: Elements::Float64(values.iter().map(|value| value.to_bits()).collect()),
        null_count: 0,
    }
}

fn other() -> ElementArray {
    ElementArray { elements: Elements::Other, null_count: 0 }
}

fn vectors(dimension: usize, count: usize, values: ElementArray) -> SubVectors {
    SubVectors { dimension, count, null_count: 0, values }
}

fn column(name: &str, nulls: Vec<bool>, data: ColumnData) -> Column {
    Column { name: name.to_string(), nulls, data }
}

fn strings(names: &[&str]) -> Vec<String> {
    names.iter().map(|name| name.to_string()).collect()
}

fn single_row(row: Row) -> Batch {
    Batch {
        num_rows: 1,
        columns: vec![column("v", vec![false], ColumnData::List(vec![row]))],
    }
}

fn failure(batch: &Batch, query: &ElementArray, path: &str, names: &[&str]) -> ScoreError {
    exact_batch(batch, query, path, Metric::L2, &strings(names)).unwrap_err()
}

#[test]
fn distances_come_from_the_metric() {
    let query = singles(&[1.0, 2.0]);
    let stored = vectors(2, 2, singles(&[4.0, 6.0, -1.0, 2.0]));
    let distance = |metric| row_distance(&query, &stored, metric).unwrap().unwrap();
    assert_eq!(f32::from_bits(distance(Metric::L2)), 4.0);
    assert_eq!(f32::from_bits(distance(Metric::Dot)), -15.0);
    let cosine = f32::from_bits(distance(Metric::Cosine));
    assert!((cosine - (1.0 - 16.0 / 260.0f32.sqrt())).abs() < 1e-6);
    let query = doubles(&[1.0, 2.0]);
    let stored = vectors(2, 1, doubles(&[4.0, 6.0]));
    let distance = row_distance(&query, &stored, Metric::L2).unwrap().unwrap();
    assert_eq!(f32::from_bits(distance), 25.0);
    let half = |bits| ElementArray { elements: Elements::Float16(bits), null_count: 0 };
    let stored = vectors(2, 1, half(vec![0x4400, 0x4600]));
    let distance = row_distance(&half(vec![0x3c00, 0x4000]), &stored, Metric::L2);
    assert_eq!(distance, Ok(Some(25.0f32.to_bits())));
}

#[test]
fn elements_after_the_last_whole_vector_play_no_part() {
    let query = singles(&[0.0, 0.0, 9.0]);
    let stored = vectors(2, 1, singles(&[3.0, 4.0, 0.0]));
    assert_eq!(row_distance(&query, &stored, Metric::L2), Ok(Some(25.0f32.to_bits())));
    let short = singles(&[9.0]);
    assert_eq!(row_distance(&short, &stored, Metric::L2), Ok(Some(0)));
}

#[test]
fn zero_vectors_mask_a_row_under_the_cosine_distance() {
    let zeros = vectors(2, 2, singles(&[0.0, -0.0, 0.0, 0.0]));
    assert_eq!(row_distance(&singles(&[1.0, 0.0]), &zeros, Metric::Cosine), Ok(None));
    let stored = vectors(2, 1, singles(&[1.0, 0.0]));
    let query = singles(&[1.0, 0.0, 0.0, 0.0]);
    assert_eq!(row_distance(&query, &stored, Metric::Cosine), Ok(None));
    let stored = vectors(2, 1, doubles(&[0.0, 0.0]));
    assert_eq!(row_distance(&doubles(&[1.0, 2.0]), &stored, Metric::Cosine), Ok(None));
    let zero = vectors(2, 1, singles(&[0.0, 0.0]));
    assert_eq!(row_distance(&singles(&[0.0, 0.0]), &zero, Metric::L2), Ok(Some(0)));
    let some_zero = vectors(2, 2, singles(&[0.0, 0.0, 2.0, 0.0]));
    assert_eq!(row_distance(&singles(&[1.0, 0.0]), &some_zero, Metric::Cosine), Ok(Some(0)));
}

#[test]
fn rows_that_cannot_be_scored() {
    let query = singles(&[1.0, 0.0]);
    let stored = vectors(2, 1, singles(&[1.0, 0.0]));
    assert_eq!(
        row_distance(&other(), &stored, Metric::L2),
        Err(ScoreError::UnsupportedElementType)
    );
    assert_eq!(
        row_distance(&doubles(&[1.0, 0.0]), &stored, Metric::L2),
        Err(ScoreError::StoredElementType)
    );
    assert_eq!(
        row_distance(&query, &vectors(2, 1, other()), Metric::L2),
        Err(ScoreError::StoredElementType)
    );
    let mut with_null = vectors(2, 1, singles(&[1.0, 0.0]));
    with_null.null_count = 1;
    assert_eq!(row_distance(&query, &with_null, Metric::L2), Err(ScoreError::StoredElements));
    let mut with_null = vectors(2, 1, singles(&[1.0, 0.0]));
    with_null.values.null_count = 1;
    assert_eq!(row_distance(&query, &with_null, Metric::L2), Err(ScoreError::StoredElements));
    let far = vectors(2, 1, singles(&[f32::MAX, f32::MAX]));
    assert_eq!(row_distance(&query, &far, Metric::L2), Err(ScoreError::DistanceNotFinite));
}

#[test]
fn failing_rows_fail_the_batch() {
    let query = singles(&[1.0, 0.0]);
    let names = ["v", "_distance"];
    assert_eq!(
        failure(&single_row(Row::Other), &query, "v", &names),
        ScoreError::NotAFixedSizeList
    );
    let stored = || Row::FixedSizeLists(vectors(2, 1, singles(&[1.0, f32::NAN])));
    assert_eq!(failure(&single_row(stored()), &query, "v", &names), ScoreError::StoredElements);
    assert_eq!(
        failure(&single_row(stored()), &other(), "v", &names),
        ScoreError::UnsupportedElementType
    );
    let batch = Batch {
        num_rows: 1,
        columns: vec![column("v", vec![false], ColumnData::Other)],
    };
    assert_eq!(failure(&batch, &query, "v", &names), ScoreError::NotAList);
}

#[test]
fn rows_without_id_or_list_or_vectors_are_left_out() {
    let stored = || Row::FixedSizeLists(vectors(1, 1, singles(&[3.0])));
    let empty = || Row::FixedSizeLists(vectors(1, 0, singles(&[])));
    let batch = Batch {
        num_rows: 4,
        columns: vec![
            column("_rowid", vec![true, false, false, false], ColumnData::Other),
            column(
                "v",
                vec![false, true, false, false],
                ColumnData::List(vec![stored(), Row::Other, empty(), stored()]),
            ),
        ],
    };
    let names = strings(&["_distance", "v", "_rowid"]);
    let scored = exact_batch(&batch, &singles(&[1.0]), "v", Metric::L2, &names).unwrap();
    match scored {
        ScoredBatch::Rows { sources, distances, mask } => {
            assert_eq!(
                sources,
                vec![
                    ColumnSource::Distance,
                    ColumnSource::Input(1),
                    ColumnSource::Input(0)
                ]
            );
            assert_eq!(distances, vec![None, None, None, Some(4.0f32.to_bits())]);
            assert_eq!(mask, vec![false, false, false, true]);
        }
        ScoredBatch::Empty => panic!("no rows"),
    }
}

#[test]
fn rows_are_scored_alone() {
    let stored = |value| Row::FixedSizeLists(vectors(1, 1, singles(&[value])));
    let both = Batch {
        num_rows: 2,
        columns: vec![column(
            "v",
            vec![false, false],
            ColumnData::List(vec![stored(2.0), stored(5.0)]),
        )],
    };
    let names = strings(&["_distance"]);
    let query = singles(&[1.0]);
    let distances = |batch: &Batch| {
        match exact_batch(batch, &query, "v", Metric::L2, &names).unwrap() {
            ScoredBatch::Rows { distances, .. } => distances,
            ScoredBatch::Empty => vec![],
        }
    };
    let mut parts = distances(&single_row(stored(2.0)));
    parts.extend(distances(&single_row(stored(5.0))));
    assert_eq!(distances(&both), parts);
    assert_eq!(parts, vec![Some(1.0f32.to_bits()), Some(16.0f32.to_bits())]);
}

#[test]
fn splitting_a_batch_changes_no_result() {
    let values = [Some(2.0f32), None, Some(5.0), Some(-1.0)];
    let part = |values: &[Option<f32>]| Batch {
        num_rows: values.len(),
        columns: vec![column(
            "v",
            values.iter().map(|value| value.is_none()).collect(),
            ColumnData::List(
                values
                    .iter()
                    .map(|value| {
                        let stored = singles(&[value.unwrap_or(0.0)]);
                        Row::FixedSizeLists(vectors(1, 1, stored))
                    })
                    .collect(),
            ),
        )],
    };
    let names = strings(&["v", "_distance"]);
    let query = singles(&[1.0]);
    let result = |values: &[Option<f32>]| {
        match exact_batch(&part(values), &query, "v", Metric::L2, &names).unwrap() {
            ScoredBatch::Rows { distances, mask, .. } => (distances, mask),
            ScoredBatch::Empty => (vec![], vec![]),
        }
    };
    let whole = result(&values);
    assert_eq!(whole.1, vec![true, false, true, true]);
    for at in 0..=values.len() {
        let (mut distances, mut mask) = result(&values[..at]);
        let rest = result(&values[at..]);
        distances.extend(rest.0);
        mask.extend(rest.1);
        assert_eq!((distances, mask), whole);
    }
}

#[test]
fn malformed_paths_are_explained() {
    let batch = single_row(Row::Other);
    for (path, words) in [
        ("a..b", "empty field name"),
        ("`a", "unclosed quote"),
        ("a`b`", "unexpected quote in the middle of field name"),
    ] {
        let reason = split_path(path).unwrap_err();
        assert!(reason.contains(words), "{reason}");
        assert_eq!(
            failure(&batch, &singles(&[1.0]), path, &["v"]),
            ScoreError::InvalidColumnPath { column: path.to_string(), reason }
        );
    }
}

#[test]
fn empty_batches_are_not_looked_into() {
    let batch = Batch { num_rows: 0, columns: vec![] };
    let scored = exact_batch(&batch, &other(), "..", Metric::Hamming, &strings(&["x"]));
    assert!(matches!(scored, Ok(ScoredBatch::Empty)));
}

#[test]
fn a_batch_without_scored_rows_needs_no_distance_function() {
    let empty = Row::FixedSizeLists(vectors(0, 0, singles(&[])));
    let batch = single_row(empty);
    let names = strings(&["_distance"]);
    let scored = exact_batch(&batch, &singles(&[1.0]), "v", Metric::Hamming, &names).unwrap();
    assert!(matches!(scored, ScoredBatch::Rows { mask, .. } if mask == vec![false]));
}

#[test]
fn rows_without_a_distance_function_are_told_apart() {
    let query = singles(&[1.0]);
    let stored = |dimension, values: &[f32]| {
        single_row(Row::FixedSizeLists(vectors(dimension, 1, singles(values))))
    };
    let answer = |batch: &Batch, path: &str, metric| has_distance_function(batch, &query, path, metric);
    assert!(answer(&stored(1, &[1.0]), "v", Metric::L2));
    assert!(!answer(&stored(1, &[1.0]), "v", Metric::Hamming));
    assert!(!answer(&stored(0, &[]), "v", Metric::L2));
    assert!(answer(&stored(1, &[f32::NAN]), "v", Metric::Hamming));
    assert!(answer(&single_row(Row::Other), "v", Metric::Hamming));
    assert!(answer(&stored(1, &[1.0]), "w", Metric::Hamming));
    let good = vectors(1, 1, singles(&[1.0]));
    assert_eq!(row_failure(&query, &good), None);
    assert_eq!(row_failure(&other(), &good), Some(ScoreError::UnsupportedElementType));
}

#[test]
fn output_columns_are_found_by_name() {
    let batch = single_row(Row::Other);
    assert_eq!(
        assemble(&batch, &strings(&["_distance", "missing", "gone"]), vec![None]).unwrap_err(),
        ScoreError::MissingOutputColumn { name: "missing".to_string() }
    );
    let scored = assemble(&batch, &strings(&["v"]), vec![Some(7)]).unwrap();
    assert!(matches!(
        scored,
        ScoredBatch::Rows { sources, mask, .. }
            if sources == vec![ColumnSource::Input(0)] && mask == vec![true]
    ));
}

#[test]
fn columns_are_found_by_name_before_path() {
    let deep = column("a.b", vec![], ColumnData::Other);
    let nested = column(
        "a",
        vec![],
        ColumnData::Struct(vec![column("b", vec![], ColumnData::Other)]),
    );
    let batch = Batch { num_rows: 0, columns: vec![nested, deep] };
    assert_eq!(vector_column(&batch, "a.b").unwrap().name, "a.b");
    assert_eq!(vector_column(&batch, "a.`b`").unwrap().name, "b");
    assert_eq!(vector_column(&batch, "`a.b`").unwrap().name, "a.b");
    assert_eq!(find_column(&batch.columns, &"a.b".to_string()), Some(1));
    assert_eq!(find_column(&batch.columns, &"b".to_string()), None);
    assert_eq!(resolve(&batch, "p", &strings(&["a", "b"])).unwrap().name, "b");
}

#[test]
fn missing_columns_are_named() {
    let batch = Batch {
        num_rows: 0,
        columns: vec![column(
            "a",
            vec![],
            ColumnData::Struct(vec![column("b", vec![], ColumnData::Other)]),
        )],
    };
    let error = |path: &str| vector_column(&batch, path).unwrap_err();
    assert_eq!(error("x.b"), ScoreError::MissingColumn { column: "x.b".to_string() });
    assert_eq!(
        error("a.c.d"),
        ScoreError::MissingField { field: "c".to_string(), column: "a.c.d".to_string() }
    );
    assert_eq!(
        error("a.b.c"),
        ScoreError::MissingField { field: "c".to_string(), column: "a.b.c".to_string() }
    );
    assert!(matches!(
        error("a."),
        ScoreError::InvalidColumnPath { column, reason }
            if column == "a." && reason.contains("trailing dot")
    ));
}

#[test]
fn paths_are_split_at_dots_outside_quotes() {
    let split = |path: &str| split_path(path).unwrap();
    assert_eq!(split("name"), strings(&["name"]));
    assert_eq!(split("parent.child"), strings(&["parent", "child"]));
    assert_eq!(split("parent.`child.with.dot`"), strings(&["parent", "child.with.dot"]));
    assert_eq!(split("`field``with``quotes`"), strings(&["field`with`quotes"]));
    assert_eq!(split("````.b"), strings(&["`", "b"]));
    for path in ["", ".", "a..b", "a.", ".a", "`a", "a`b`", "`a`b", "``", "```", "a.``", "``.a"] {
        assert!(split_path(path).is_err(), "{path}");
    }
}

#[test]
fn messages_say_what_is_wrong() {
    let text = |error: ScoreError| error.message();
    let name = || "n".to_string();
    assert_eq!(
        text(ScoreError::BatchQueries),
        "expected one logical multi-vector query, not batch queries"
    );
    assert_eq!(
        text(ScoreError::InvalidQuery),
        "multi-vector query must contain only finite, non-null elements"
    );
    assert_eq!(
        text(ScoreError::UnsupportedElementType),
        "unsupported multi-vector element type"
    );
    assert_eq!(
        text(ScoreError::StoredElementType),
        "multi-vector stored element type mismatch"
    );
    assert_eq!(
        text(ScoreError::StoredElements),
        "multi-vector stored subvectors must contain only finite, non-null elements"
    );
    assert_eq!(text(ScoreError::DistanceNotFinite), "multi-vector distance is not finite");
    assert_eq!(
        text(ScoreError::InvalidColumnPath { column: name(), reason: "r".to_string() }),
        "invalid vector column path 'n': r"
    );
    assert_eq!(text(ScoreError::MissingColumn { column: name() }), "missing vector column 'n'");
    assert_eq!(
        text(ScoreError::MissingField { field: "f".to_string(), column: name() }),
        "missing struct field 'f' in vector column 'n'"
    );
    assert_eq!(text(ScoreError::NotAList), "multi-vector scoring requires a List column");
    assert_eq!(
        text(ScoreError::NotAFixedSizeList),
        "multi-vector row must be a FixedSizeList"
    );
    assert_eq!(
        text(ScoreError::MissingOutputColumn { name: name() }),
        "missing score output column n"
    );
    assert_eq!(
        text(ScoreError::MissingRowIds),
        "indexed multi-vector scorer requires row IDs"
    );
    assert_eq!(
        text(ScoreError::MissingDistances),
        "indexed multi-vector scorer requires distances"
    );
    assert_eq!(
        text(ScoreError::InvalidCandidate),
        "indexed multi-vector candidate has invalid row ID or distance"
    );
}
