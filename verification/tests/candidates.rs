use multivector::error::ScoreError;
use multivector::indexed::{indexed_batch, CandidateBatch, QueryCandidates, ScoredRow};
use multivector::score::score_row;

fn batch(candidates: &[(u64, f32)]) -> CandidateBatch {
    CandidateBatch {
        row_ids: Some(candidates.iter().map(|candidate| Some(candidate.0)).collect()),
        distances: Some(candidates.iter().map(|candidate| Some(candidate.1.to_bits())).collect()),
    }
}

fn query(batches: &[&[(u64, f32)]]) -> QueryCandidates {
    let mut candidates = QueryCandidates::new();
    for part in batches {
        candidates.absorb(&batch(part)).unwrap();
    }
    candidates
}

fn combined(queries: Vec<QueryCandidates>) -> Vec<(u64, f32)> {
    let rows: Vec<ScoredRow> = indexed_batch(&queries);
    let mut rows: Vec<(u64, f32)> =
        rows.iter().map(|row| (row.row_id, f32::from_bits(row.distance))).collect();
    rows.sort_by_key(|row| row.0);
    rows
}

#[test]
fn missed_rows_count_with_the_greatest_distance_found() {
    let rows = combined(vec![
        query(&[&[(1, 0.25), (2, 0.5)]]),
        query(&[&[(2, 0.125), (3, 2.0)]]),
        query(&[]),
    ]);
    assert_eq!(rows, vec![(1, 0.25 + 2.0 + 1.0), (2, 0.5 + 0.125 + 1.0), (3, 0.5 + 2.0 + 1.0)]);
}

#[test]
fn the_least_distance_of_a_row_counts() {
    let rows = combined(vec![query(&[&[(7, 3.0), (7, 1.0), (8, 5.0)], &[(7, 2.0)]])]);
    assert_eq!(rows, vec![(7, 1.0), (8, 5.0)]);
    let rows = combined(vec![query(&[&[(7, -3.0), (7, -1.0)]]), query(&[&[(8, 0.5)]])]);
    assert_eq!(rows, vec![(7, -2.5), (8, -0.5)]);
}

#[test]
fn batch_boundaries_and_order_do_not_matter() {
    let whole = || query(&[&[(1, 0.5), (2, 0.25), (1, 0.125)]]);
    let split = || query(&[&[(1, 0.5)], &[], &[(2, 0.25), (1, 0.125)]]);
    let turned = || query(&[&[(1, 0.125), (2, 0.25), (1, 0.5)]]);
    let last = || query(&[&[(3, 1.0)]]);
    let expected = combined(vec![whole(), last()]);
    assert_eq!(combined(vec![split(), last()]), expected);
    assert_eq!(combined(vec![turned(), last()]), expected);
    assert_eq!(expected, vec![(1, 1.125), (2, 1.25), (3, 1.5)]);
}

#[test]
fn found_rows_are_no_farther_than_missed_ones() {
    let rows = combined(vec![query(&[&[(1, 0.5), (2, 4.0)]]), query(&[&[(3, 1.0)]])]);
    let missed = 4.0 + 1.0;
    assert!(rows.iter().all(|row| row.1 <= missed), "{rows:?}");
}

#[test]
fn complete_candidates_give_the_exact_distance() {
    let table = [[0.1f32, 0.7], [0.3, 0.2]];
    let queries = table.iter().map(|row| query(&[&[(5, row[0]), (5, row[1]), (6, 9.0)]]));
    let bits: Vec<Vec<u32>> =
        table.iter().map(|row| row.iter().map(|d| d.to_bits()).collect()).collect();
    let exact = score_row(&bits).unwrap().unwrap();
    assert_eq!(combined(queries.collect())[0], (5, f32::from_bits(exact)));
    assert_eq!(f32::from_bits(exact), 0.3);
}

#[test]
fn no_candidates_give_no_rows() {
    assert_eq!(combined(vec![]), vec![]);
    assert_eq!(combined(vec![query(&[]), query(&[&[]])]), vec![]);
}

#[test]
fn sums_beyond_single_precision_are_infinite() {
    let rows = combined(vec![query(&[&[(1, f32::MAX)]]), query(&[&[(1, f32::MAX)]])]);
    assert_eq!(rows, vec![(1, f32::INFINITY)]);
}

#[test]
fn invalid_batches_are_rejected_and_add_nothing() {
    let mut candidates = query(&[&[(1, 0.5)]]);
    let without_ids = CandidateBatch { row_ids: None, distances: None };
    assert_eq!(candidates.absorb(&without_ids), Err(ScoreError::MissingRowIds));
    let without_distances = CandidateBatch { row_ids: Some(vec![Some(1)]), distances: None };
    assert_eq!(candidates.absorb(&without_distances), Err(ScoreError::MissingDistances));
    let one = 1.0f32.to_bits();
    for (id, distance) in [
        (None, Some(one)),
        (Some(1), None),
        (Some(1), Some(f32::NAN.to_bits())),
        (Some(1), Some(f32::INFINITY.to_bits())),
    ] {
        let invalid = CandidateBatch {
            row_ids: Some(vec![Some(9), id]),
            distances: Some(vec![Some(one), distance]),
        };
        assert_eq!(candidates.absorb(&invalid), Err(ScoreError::InvalidCandidate));
    }
    assert_eq!(combined(vec![candidates]), vec![(1, 0.5)]);
}
