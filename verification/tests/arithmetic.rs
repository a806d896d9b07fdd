use multivector::accumulator::Accumulator;
use multivector::error::ScoreError;
use multivector::float::{
    double_is_finite, half_is_finite, is_less, precedes, single_is_finite, single_is_nan,
};
use multivector::score::{nearest_distance, score_row};

fn sum(terms: &[f32]) -> u32 {
    let mut sum = Accumulator::zero();
    for term in terms {
        sum = sum.add(term.to_bits());
    }
    sum.to_single()
}

fn hardware_sum(terms: &[f32]) -> u32 {
    let mut sum = 0.0f64;
    for term in terms {
        sum += *term as f64;
    }
    (sum as f32).to_bits()
}

fn interesting() -> Vec<f32> {
    let mut numbers = vec![
        0.0,
        -0.0,
        1.0,
        -1.0,
        f32::MIN_POSITIVE,
        f32::MAX,
        -f32::MAX,
        f32::EPSILON,
        f32::from_bits(1),
        f32::from_bits(0x8000_0001),
        f32::from_bits(0x007f_ffff),
        f32::from_bits(0x0080_0001),
        1.0e-8,
        0.1,
        16_777_215.0,
        16_777_217.0,
        3.0e38,
        -3.0e38,
        1.0e30,
        -1.0e30,
    ];
    let mut state = 0x9e37_79b9u32;
    while numbers.len() < 200 {
        state ^= state << 13;
        state ^= state >> 17;
        state ^= state << 5;
        let number = f32::from_bits(state);
        if number.is_finite() {
            numbers.push(number);
        }
    }
    numbers
}

fn bits(numbers: &[f32]) -> Vec<u32> {
    numbers.iter().map(|number| number.to_bits()).collect()
}

fn table(rows: &[&[f32]]) -> Vec<Vec<u32>> {
    rows.iter().map(|row| bits(row)).collect()
}

#[test]
fn sums_equal_double_precision_sums() {
    let numbers = interesting();
    for left in &numbers {
        assert_eq!(sum(&[*left]), hardware_sum(&[*left]), "{left:e}");
        for right in &numbers {
            let terms = [*left, *right];
            assert_eq!(sum(&terms), hardware_sum(&terms), "{left:e} {right:e}");
            let terms = [*left, *right, 1.0e-3, -*left];
            assert_eq!(sum(&terms), hardware_sum(&terms), "{left:e} {right:e}");
        }
    }
    for start in 0..numbers.len() {
        for len in [3, 7, 50] {
            let terms: Vec<f32> = numbers.iter().cycle().skip(start).take(len).copied().collect();
            assert_eq!(sum(&terms), hardware_sum(&terms), "{start} {len}");
        }
    }
}

#[test]
fn sums_round_once_at_the_end() {
    assert_eq!(sum(&[]), 0.0f32.to_bits());
    assert_eq!(sum(&[-0.0]), 0.0f32.to_bits());
    assert_eq!(sum(&[0.25, 0.5]), 0.75f32.to_bits());
    let tiny = f32::EPSILON / 4.0;
    assert_eq!(sum(&[1.0, tiny, tiny, tiny]), (1.0 + f32::EPSILON).to_bits());
    assert_eq!(sum(&[16_777_216.0, 1.0]), 16_777_216.0f32.to_bits());
    assert_eq!(sum(&[16_777_216.0, 1.0, 1.0]), 16_777_218.0f32.to_bits());
    assert_eq!(sum(&[1.0e30, 1.0, -1.0e30]), 0.0f32.to_bits());
    assert_eq!(sum(&[f32::MAX, f32::MAX]), f32::INFINITY.to_bits());
    assert_eq!(sum(&[-f32::MAX, -f32::MAX]), f32::NEG_INFINITY.to_bits());
    assert_eq!(sum(&[f32::MAX, f32::MAX, -f32::MAX]), f32::MAX.to_bits());
}

#[test]
fn encodings_are_classified() {
    let mut numbers = interesting();
    numbers.extend([
        f32::INFINITY,
        f32::NEG_INFINITY,
        f32::NAN,
        f32::from_bits(0xffc0_0001),
        f32::from_bits(0x7f80_0001),
    ]);
    for left in &numbers {
        assert_eq!(single_is_finite(left.to_bits()), left.is_finite());
        assert_eq!(single_is_nan(left.to_bits()), left.is_nan());
        assert_eq!(double_is_finite((*left as f64).to_bits()), left.is_finite());
        for right in &numbers {
            let (a, b) = (left.to_bits(), right.to_bits());
            assert_eq!(precedes(a, b), left.total_cmp(right).is_lt(), "{left:e} {right:e}");
            if left.is_finite() && right.is_finite() {
                assert_eq!(is_less(a, b), left < right, "{left:e} {right:e}");
            }
        }
    }
    assert!(double_is_finite(f64::MAX.to_bits()));
    assert!(half_is_finite(0x7bff) && half_is_finite(0x8000));
    assert!(!half_is_finite(0x7c00) && !half_is_finite(0xfe00));
}

#[test]
fn nearest_distance_ignores_undefined_distances() {
    assert_eq!(nearest_distance(&bits(&[])), None);
    assert_eq!(nearest_distance(&bits(&[f32::NAN, -f32::NAN])), None);
    let defined = bits(&[2.0, 1.0, 3.0]);
    let mixed = bits(&[f32::NAN, 2.0, f32::NAN, 1.0, -f32::NAN, 3.0]);
    assert_eq!(nearest_distance(&defined), Some(1.0f32.to_bits()));
    assert_eq!(nearest_distance(&mixed), nearest_distance(&defined));
    assert_eq!(nearest_distance(&bits(&[0.0, -0.0])), Some((-0.0f32).to_bits()));
    assert_eq!(
        nearest_distance(&bits(&[f32::INFINITY, f32::NEG_INFINITY])),
        Some(f32::NEG_INFINITY.to_bits())
    );
}

#[test]
fn the_order_of_stored_vectors_does_not_matter() {
    let forth = table(&[&[3.0, 0.5, 2.0], &[1.0, 4.0, 0.25]]);
    let back = table(&[&[2.0, 0.5, 3.0], &[0.25, 4.0, 1.0]]);
    assert_eq!(score_row(&forth), Ok(Some(0.75f32.to_bits())));
    assert_eq!(score_row(&back), score_row(&forth));
}

#[test]
fn a_nearer_row_has_no_greater_score() {
    let near = score_row(&table(&[&[1.0e-8], &[0.1]])).unwrap().unwrap();
    let far = score_row(&table(&[&[2.0e-8], &[0.1]])).unwrap().unwrap();
    assert!(f32::from_bits(near) <= f32::from_bits(far));
}

#[test]
fn one_query_vector_keeps_its_distance() {
    for number in interesting() {
        let score = score_row(&table(&[&[number]])).unwrap().unwrap();
        assert_eq!(f32::from_bits(score), number);
    }
}

#[test]
fn rows_without_a_finite_score() {
    assert_eq!(score_row(&table(&[])), Ok(Some(0)));
    assert_eq!(score_row(&table(&[&[1.0], &[]])), Ok(None));
    assert_eq!(score_row(&table(&[&[f32::INFINITY], &[f32::NAN]])), Ok(None));
    assert_eq!(
        score_row(&table(&[&[f32::INFINITY], &[1.0]])),
        Err(ScoreError::DistanceNotFinite)
    );
    assert_eq!(
        score_row(&table(&[&[f32::INFINITY], &[f32::NEG_INFINITY]])),
        Err(ScoreError::DistanceNotFinite)
    );
    assert_eq!(
        score_row(&table(&[&[f32::MAX], &[f32::MAX]])),
        Err(ScoreError::DistanceNotFinite)
    );
    assert_eq!(
        score_row(&table(&[&[f32::MAX], &[f32::MAX], &[-f32::MAX]])),
        Ok(Some(f32::MAX.to_bits()))
    );
}
