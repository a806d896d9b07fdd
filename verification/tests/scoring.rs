use multivector::column::{Batch, Column, ColumnData, Row};
use multivector::error::ScoreError;
use multivector::exact::{exact_batch, ColumnSource, ScoredBatch};
use multivector::indexed::{indexed_batch, CandidateBatch, QueryCandidates};
use multivector::limits::is_within_limits;
use multivector::model::{validate_query, ElementArray, Elements, Metric, SubVectors};
use multivector::plan::{apply_result_window, Operator, Plan};
use multivector::score::row_distance;

#[derive(Clone, Copy)]
enum Width {
    Half,
    Single,
    Double,
}

fn half_bits(value: f32) -> u16 {
    if value == 0.0 {
        return 0;
    }
    let bits = value.to_bits();
    let sign = ((bits >> 16) & 0x8000) as u16;
    let exponent = ((bits >> 23) & 0xff) as i32 - 127 + 15;
    assert!(0 < exponent && exponent < 31 && bits & 0x1fff == 0);
    sign | ((exponent as u16) << 10) | ((bits >> 13) & 0x3ff) as u16
}

fn array(values: &[Option<f32>], width: Width) -> ElementArray {
    let plain = values.iter().map(|value| value.unwrap_or(0.0));
    let elements = match width {
        Width::Half => Elements::Float16(plain.map(half_bits).collect()),
        Width::Single => Elements::Float32(plain.map(f32::to_bits).collect()),
        Width::Double => Elements::Float64(plain.map(|v| (v as f64).to_bits()).collect()),
    };
    ElementArray {
        elements,
        null_count: values.iter().filter(|value| value.is_none()).count(),
    }
}

fn some(values: &[f32]) -> Vec<Option<f32>> {
    values.iter().map(|value| Some(*value)).collect()
}

fn singles(values: &[f32]) -> ElementArray {
    array(&some(values), Width::Single)
}

fn sub_vectors(values: &[Option<f32>], dimension: usize, width: Width) -> SubVectors {
    SubVectors {
        dimension,
        count: values.len() / dimension,
        null_count: 0,
        values: array(values, width),
    }
}

fn vector_column(name: &str, rows: &[Option<Vec<Option<f32>>>], dimension: usize, width: Width) -> Column {
    Column {
        name: name.to_string(),
        nulls: rows.iter().map(|row| row.is_none()).collect(),
        data: ColumnData::List(
            rows.iter()
                .map(|row| {
                    let values = row.clone().unwrap_or_default();
                    Row::FixedSizeLists(sub_vectors(&values, dimension, width))
                })
                .collect(),
        ),
    }
}

fn plain_column(name: &str, num_rows: usize) -> Column {
    Column {
        name: name.to_string(),
        nulls: vec![false; num_rows],
        data: ColumnData::Other,
    }
}

fn batch_of(rows: &[Option<Vec<Option<f32>>>], dimension: usize, width: Width) -> Batch {
    Batch {
        num_rows: rows.len(),
        columns: vec![
            plain_column("id", rows.len()),
            vector_column("vectors", rows, dimension, width),
        ],
    }
}

fn output_names() -> Vec<String> {
    vec!["id".to_string(), "_distance".to_string()]
}

/// The ids of the rows that are kept, which count from `first`, and their distances.
fn scores(
    batch: &Batch,
    first: i32,
    query: &ElementArray,
    path: &str,
    metric: Metric,
) -> Result<Vec<(i32, f32)>, ScoreError> {
    match exact_batch(batch, query, path, metric, &output_names())? {
        ScoredBatch::Empty => Ok(vec![]),
        ScoredBatch::Rows { sources, distances, mask } => {
            assert_eq!(sources, vec![ColumnSource::Input(0), ColumnSource::Distance]);
            assert_eq!(distances.len(), batch.num_rows);
            let kept = (0..mask.len()).filter(|i| mask[*i]);
            Ok(kept
                .map(|i| (first + i as i32, f32::from_bits(distances[i].unwrap())))
                .collect())
        }
    }
}

fn in_order(mut rows: Vec<(i32, f32)>) -> Vec<(i32, f32)> {
    rows.sort_by(|left, right| left.1.total_cmp(&right.1));
    rows
}

fn fixture(width: Width) -> Batch {
    let rows = [
        Some(some(&[1., 0., 0., 1.])),
        Some(some(&[2., 0.])),
        Some(some(&[3., 0., 0., 3.])),
        Some(vec![]),
        None,
    ];
    batch_of(&rows, 2, width)
}

fn lists(rows: &[Vec<Option<f32>>]) -> Vec<Option<Vec<Option<f32>>>> {
    rows.iter().map(|row| Some(row.clone())).collect()
}

/// The candidates of each query vector, with row ids from one on, in batches of `batch_size`.
fn search_index(
    rows: &[Vec<Option<f32>>],
    query: &[f32],
    dimension: usize,
    metric: Metric,
    batch_size: usize,
) -> Vec<QueryCandidates> {
    query
        .chunks(dimension)
        .map(|vector| {
            let mut found = vec![];
            for (i, row) in rows.iter().enumerate() {
                let stored = sub_vectors(row, dimension, Width::Single);
                if let Some(distance) = row_distance(&singles(vector), &stored, metric).unwrap() {
                    found.push((Some(i as u64 + 1), Some(distance)));
                }
            }
            let mut candidates = QueryCandidates::new();
            for part in found.chunks(batch_size) {
                let batch = CandidateBatch {
                    row_ids: Some(part.iter().map(|candidate| candidate.0).collect()),
                    distances: Some(part.iter().map(|candidate| candidate.1).collect()),
                };
                candidates.absorb(&batch).unwrap();
            }
            candidates
        })
        .collect()
}

/// Exact distances of the rows that an index search found.
fn refined(
    rows: &[Vec<Option<f32>>],
    query: &[f32],
    dimension: usize,
    metric: Metric,
    batch: &Batch,
    path: &str,
) -> Vec<(i32, f32)> {
    let found = indexed_batch(&search_index(rows, query, dimension, metric, 1024));
    let all = scores(batch, 1, &singles(query), path, metric).unwrap();
    all.into_iter()
        .filter(|row| found.iter().any(|candidate| candidate.row_id == row.0 as u64))
        .collect()
}

fn leaf() -> Plan {
    Plan {
        operator: Operator::Other { name: "Leaf".to_string() },
        scoring: None,
        distance: Some(0),
        source: Some(0),
        children: vec![],
    }
}

fn strict(input: Plan) -> Plan {
    Plan {
        operator: Operator::StrictBatchSize,
        scoring: None,
        distance: Some(0),
        source: Some(1),
        children: vec![input],
    }
}

/// Runs a plan over the batches of its leaf.
fn run<T: Clone>(plan: &Plan, size: usize, batches: &[Vec<(T, f32)>]) -> Vec<Vec<(T, f32)>> {
    let input = plan.children.iter().map(|child| run(child, size, batches)).next();
    match &plan.operator {
        Operator::StrictBatchSize => {
            let rows = input.unwrap().concat();
            rows.chunks(size).map(|part| part.to_vec()).collect()
        }
        Operator::CoalescePartitions => input.unwrap(),
        Operator::SortByDistance { column } => {
            assert_eq!(*column, 0);
            let mut rows = input.unwrap().concat();
            rows.sort_by(|left, right| left.1.total_cmp(&right.1));
            vec![rows]
        }
        Operator::Window { offset, limit } => {
            let rows = input.unwrap().concat().into_iter().skip(*offset);
            vec![rows.take(limit.unwrap_or(usize::MAX)).collect()]
        }
        _ => batches.to_vec(),
    }
}

#[test]
fn result_window_preserves_strict_batching_and_distance_order() {
    for size in [2, 3] {
        for (offset, limit) in [
            (1, Some(4)),
            (1, Some(3)),
            (5, Some(4)),
            (6, Some(4)),
            (1, None),
        ] {
            let batches: Vec<Vec<((), f32)>> = [[5., 0.], [4., 1.], [3., 2.]]
                .into_iter()
                .map(|values| values.iter().map(|value| ((), *value)).collect())
                .collect();
            let plan = apply_result_window(strict(leaf()), offset, limit).unwrap();
            let batches = run(&plan, size, &batches);
            let actual: Vec<f32> = batches.concat().iter().map(|row| row.1).collect();
            let expected: Vec<f32> = (0..6)
                .skip(offset)
                .take(limit.unwrap_or(6))
                .map(|i| i as f32)
                .collect();
            assert_eq!(actual, expected);
            assert_eq!(
                batches.iter().map(|batch| batch.len()).collect::<Vec<_>>(),
                expected.chunks(size).map(<[f32]>::len).collect::<Vec<_>>()
            );
        }
    }
}

#[test]
fn multivector_search_scores_logical_rows_and_excludes_empty_and_null_rows() {
    let batch = fixture(Width::Single);
    let q = [1.0f32, 0., 0., 1.];
    for count in [1, 2] {
        let query = singles(&q[..2 * count]);
        let rows = in_order(scores(&batch, 1, &query, "vectors", Metric::L2).unwrap());
        let expected = if count == 2 {
            vec![(1, 0.), (2, 6.), (3, 8.)]
        } else {
            vec![(1, 0.), (2, 1.), (3, 4.)]
        };
        assert_eq!(rows, expected);
    }
}

#[test]
fn fragment_scoped_indexed_search_orders_candidates_before_offset() {
    let query = singles(&[1.0f32, 0., 0., 1.]);
    let mut batches = vec![];
    for _fragment in [0u64, 1] {
        let rows = scores(&fixture(Width::Single), 1, &query, "vectors", Metric::Cosine).unwrap();
        for row in rows.into_iter().filter(|row| row.0 >= 2) {
            batches.push(vec![row]);
        }
    }
    let plan = apply_result_window(leaf(), 1, Some(2)).unwrap();
    assert_eq!(run(&plan, 1, &batches).concat(), vec![(3, 0.), (2, 1.)]);
}

#[test]
fn exact_top_one_preserves_small_distances_before_truncation() {
    let rows = lists(&[vec![Some(0.00015)], vec![Some(0.0001)]]);
    for count in [1, 2] {
        for batch_size in [1, 1024] {
            let query = singles(&[0.0f32, 0.0][..count]);
            let mut all = vec![];
            let mut first = 1;
            for part in rows.chunks(batch_size) {
                let batch = batch_of(part, 1, Width::Single);
                all.extend(scores(&batch, first, &query, "vectors", Metric::L2).unwrap());
                first += part.len() as i32;
            }
            let rows = in_order(all)[..1].to_vec();
            assert_eq!(rows.len(), 1);
            assert_eq!(rows[0].0, 2);
            assert!((rows[0].1 - count as f32 * 1e-8).abs() < 1e-14, "{rows:?}");
        }
    }
}

#[test]
fn indexed_top_one_is_independent_of_child_batch_boundaries() {
    let rows = vec![
        vec![Some(1.), Some(0.)],
        vec![Some(0.), Some(1.)],
        vec![Some(1.), Some(1.)],
        vec![Some(2.), Some(1.)],
        vec![Some(1.), Some(2.)],
    ];
    for batch_size in [1, 2, 1024] {
        let queries = search_index(&rows, &[1.0f32, 0., 0., 1.], 2, Metric::Cosine, batch_size);
        let result = in_order(
            indexed_batch(&queries)
                .iter()
                .map(|row| (row.row_id as i32, f32::from_bits(row.distance)))
                .collect(),
        );
        assert_eq!(result[0].0, 3, "batch_size={batch_size}");
        assert!((result[0].1 - (2.0 - 2.0f32.sqrt())).abs() < 1e-6);
    }
}

#[test]
fn actual_null_and_nonfinite_stored_elements_fail_search() {
    for value in [
        None,
        Some(f32::NAN),
        Some(f32::INFINITY),
        Some(f32::NEG_INFINITY),
    ] {
        let batch = batch_of(&lists(&[vec![value, Some(0.)]]), 2, Width::Single);
        let result = scores(&batch, 1, &singles(&[0.0f32, 0.]), "vectors", Metric::L2);
        assert!(
            matches!(result, Err(ScoreError::StoredElements)),
            "value={value:?}: {result:?}"
        );
    }
}

#[test]
fn rejects_excessive_multivector_plan_width_and_candidate_work() {
    for (count, k) in [(129, 1), (128, 782), (1, 100001)] {
        assert!(!is_within_limits(count, k));
    }
}

#[test]
fn work_within_the_limits_is_accepted() {
    assert!(is_within_limits(128, 781));
    assert!(is_within_limits(1, 100000));
    assert!(is_within_limits(0, usize::MAX));
    assert!(!is_within_limits(2, usize::MAX));
    assert!(!is_within_limits(usize::MAX, 0));
}

#[test]
fn queries_with_null_or_non_finite_values_are_rejected() {
    for value in [f32::NAN, f32::INFINITY, f32::NEG_INFINITY] {
        assert_eq!(validate_query(&singles(&[value, 0.0f32])), Err(ScoreError::InvalidQuery));
    }
    assert_eq!(validate_query(&singles(&[1.0f32; 256])), Ok(()));
    assert_eq!(
        validate_query(&array(&[None, Some(1.)], Width::Single)),
        Err(ScoreError::InvalidQuery)
    );
    assert_eq!(validate_query(&array(&some(&[1., -2.]), Width::Half)), Ok(()));
    assert_eq!(validate_query(&array(&some(&[1., -2.]), Width::Double)), Ok(()));
    let infinite_half = ElementArray {
        elements: Elements::Float16(vec![0x3c00, 0xfc00]),
        null_count: 0,
    };
    assert_eq!(validate_query(&infinite_half), Err(ScoreError::InvalidQuery));
    let infinite_double = ElementArray {
        elements: Elements::Float64(vec![f64::NAN.to_bits()]),
        null_count: 0,
    };
    assert_eq!(validate_query(&infinite_double), Err(ScoreError::InvalidQuery));
    let other = ElementArray { elements: Elements::Other, null_count: 0 };
    assert_eq!(validate_query(&other), Err(ScoreError::InvalidQuery));
}

#[test]
fn float16_and_float64_queries_support_all_distance_metrics() {
    for width in [Width::Half, Width::Double] {
        let batch = fixture(width);
        let query = array(&some(&[1.0f32, 0., 0., 1.]), width);
        for (metric, expected) in [
            (Metric::L2, [0., 6., 8.]),
            (Metric::Cosine, [0., 1., 0.]),
            (Metric::Dot, [0., 0., -4.]),
        ] {
            let rows = scores(&batch, 1, &query, "vectors", metric).unwrap();
            assert_eq!(
                rows,
                vec![(1, expected[0]), (2, expected[1]), (3, expected[2])]
            );
        }
    }
}

#[test]
fn cosine_zero_norm_rows_do_not_abort_exact_or_refined_search() {
    let rows = vec![
        vec![Some(0.), Some(0.)],
        vec![Some(1.), Some(0.)],
        vec![Some(0.), Some(0.), Some(0.), Some(1.)],
    ];
    let batch = batch_of(&lists(&rows), 2, Width::Single);
    for indexed in [false, true] {
        for query in [[1.0f32, 0., 0., 1.], [0., 0., 0., 1.]] {
            for count in [1, 2] {
                let vectors = &query[..2 * count];
                let actual = if indexed {
                    refined(&rows, vectors, 2, Metric::Cosine, &batch, "vectors")
                } else {
                    scores(&batch, 1, &singles(vectors), "vectors", Metric::Cosine).unwrap()
                };
                let expected = if query[0] == 0. {
                    vec![]
                } else if count == 1 {
                    vec![(2, 0.), (3, 1.)]
                } else {
                    vec![(2, 1.), (3, 1.)]
                };
                assert_eq!(
                    actual, expected,
                    "indexed={indexed}, query={query:?}, count={count}"
                );
            }
        }
    }
}

#[test]
fn nested_and_quoted_columns_support_exact_and_refined_search() {
    for (path, names) in [
        ("payload.vectors", vec!["payload", "vectors"]),
        ("payload.`vectors.with.dot`", vec!["payload", "vectors.with.dot"]),
        (
            "payload.inner.`vectors.with.dot`",
            vec!["payload", "inner", "vectors.with.dot"],
        ),
    ] {
        let rows = vec![
            vec![Some(1.), Some(0.), Some(0.), Some(1.)],
            vec![Some(2.), Some(0.)],
            vec![Some(1.), Some(1.)],
        ];
        let leaf_name = names[names.len() - 1];
        let mut column = vector_column(leaf_name, &lists(&rows), 2, Width::Single);
        for name in names[..names.len() - 1].iter().rev() {
            column = Column {
                name: name.to_string(),
                nulls: vec![false; 3],
                data: ColumnData::Struct(vec![column, plain_column("label", 3)]),
            };
        }
        let batch = Batch {
            num_rows: 3,
            columns: vec![plain_column("id", 3), column],
        };
        let query = [1.0f32, 0., 0., 1.];
        for indexed in [false, true] {
            let actual = in_order(if indexed {
                refined(&rows, &query, 2, Metric::Cosine, &batch, path)
            } else {
                scores(&batch, 1, &singles(&query), path, Metric::Cosine).unwrap()
            });
            assert_eq!(actual.len(), 3);
            assert_eq!(
                actual.iter().map(|row| row.0).collect::<Vec<_>>(),
                vec![1, 3, 2]
            );
            assert_eq!(actual[0].1, 0.);
            assert!((actual[1].1 - (2. - 2.0f32.sqrt())).abs() < 1e-6);
            assert_eq!(actual[2].1, 1.);
        }
    }
}

#[test]
fn strict_batches_apply_after_multivector_offset_and_limit() {
    let rows: Vec<Vec<Option<f32>>> = (1..=6).map(|i| vec![Some(i as f32), Some(0.)]).collect();
    let batch = batch_of(&lists(&rows), 2, Width::Single);
    for batch_size in [Some(2), None] {
        for (offset, limit) in [(1, 4), (1, 3), (5, 4), (6, 4), (0, 6)] {
            let scored = scores(&batch, 1, &singles(&[1.0f32, 0.]), "vectors", Metric::L2).unwrap();
            let plan = apply_result_window(strict(leaf()), offset, Some(limit)).unwrap();
            let size = batch_size.unwrap_or(8192);
            let batches = run(&plan, size, &[scored]);
            let sizes: Vec<usize> = batches.iter().map(|batch| batch.len()).collect();
            let ids: Vec<i32> = batches.concat().iter().map(|row| row.0).collect();
            let expected_ids: Vec<i32> = (1..=6).skip(offset).take(limit).collect();
            let expected_sizes: Vec<usize> =
                expected_ids.chunks(size).map(<[i32]>::len).collect();
            assert_eq!(ids, expected_ids);
            assert_eq!(
                sizes, expected_sizes,
                "batch_size={batch_size:?} offset={offset} limit={limit}"
            );
        }
    }
}
