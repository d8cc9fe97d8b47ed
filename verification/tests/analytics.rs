use rvmath::Matrix;
use rvmath::MatrixData;
use rvmath::MatrixError;
use rvmath::PercentileRank;
use rvmath::distance;
use rvmath::dot;
use rvmath::mean;

fn w(x: f64) -> u64 {
    x.to_bits()
}

fn words(vals: &[f64]) -> Vec<u64> {
    vals.iter().map(|v| v.to_bits()).collect()
}

fn m(rows: usize, cols: usize, vals: &[f64]) -> Matrix {
    Matrix::new(rows, cols, MatrixData::Vector(words(vals))).unwrap()
}

fn cells(a: &Matrix) -> Vec<f64> {
    a.data.iter().map(|v| f64::from_bits(*v)).collect()
}

fn add_k(x: u64, y: u64) -> u64 {
    (f64::from_bits(x) + f64::from_bits(y)).to_bits()
}

fn sub_k(x: u64, y: u64) -> u64 {
    (f64::from_bits(x) - f64::from_bits(y)).to_bits()
}

fn mul_k(x: u64, y: u64) -> u64 {
    (f64::from_bits(x) * f64::from_bits(y)).to_bits()
}

fn square_k(x: u64) -> u64 {
    let v = f64::from_bits(x);
    (v * v).to_bits()
}

fn sqrt_k(x: u64) -> u64 {
    f64::from_bits(x).sqrt().to_bits()
}

fn avg_k(x: u64, y: u64) -> u64 {
    ((f64::from_bits(x) + f64::from_bits(y)) / 2.0).to_bits()
}

fn div_count_k(x: u64, n: usize) -> u64 {
    (f64::from_bits(x) / n as f64).to_bits()
}

fn rank_k(level: u64, n: usize) -> PercentileRank {
    let p = f64::from_bits(level);
    if p < 0.0 || p > 1.0 {
        return PercentileRank::OutOfRange;
    }
    let pointer = (n as f64 - 1.0) * p;
    if pointer % 1.0 != 0.0 {
        PercentileRank::Between(pointer.ceil() as usize, pointer.floor() as usize)
    } else {
        PercentileRank::Exact(pointer as usize)
    }
}

#[test]
fn sum_adds_every_cell() {
    let a = m(2, 2, &[1.0, 2.0, 3.0, 4.0]);
    assert_eq!(f64::from_bits(a.sum(add_k)), 10.0);
}

#[test]
fn magnitude_of_a_three_four_vector_is_five() {
    let v = m(1, 2, &[3.0, 4.0]);
    let r = v.magnitude(square_k, add_k, sqrt_k).unwrap();
    assert_eq!(f64::from_bits(r), 5.0);
}

#[test]
fn magnitude_of_a_square_matrix_is_a_shape_error() {
    let a = m(2, 2, &[1.0, 2.0, 3.0, 4.0]);
    let e = a.magnitude(square_k, add_k, sqrt_k).unwrap_err();
    assert_eq!(e, MatrixError::ShapeError { rows: 2, cols: 2 });
}

#[test]
fn median_of_an_even_count_averages_the_middle_pair() {
    let a = m(1, 4, &[1.0, 2.0, 3.0, 4.0]);
    assert_eq!(f64::from_bits(a.median(avg_k)), 2.5);
}

#[test]
fn median_of_an_odd_count_takes_the_middle_cell() {
    let a = m(1, 5, &[9.0, 1.0, 7.0, 3.0, 5.0]);
    assert_eq!(f64::from_bits(a.median(avg_k)), 5.0);
}

#[test]
fn percentile_at_an_exact_rank_returns_that_cell() {
    let a = m(1, 5, &[5.0, 1.0, 4.0, 2.0, 3.0]);
    let r = a.percentile(w(0.5), rank_k, avg_k).unwrap();
    assert_eq!(f64::from_bits(r), 3.0);
}

#[test]
fn percentile_between_ranks_averages_the_neighbours() {
    let a = m(1, 4, &[1.0, 2.0, 3.0, 4.0]);
    let r = a.percentile(w(0.5), rank_k, avg_k).unwrap();
    assert_eq!(f64::from_bits(r), 2.5);
}

#[test]
fn percentile_outside_the_unit_range_is_rejected() {
    let a = m(1, 4, &[1.0, 2.0, 3.0, 4.0]);
    let e = a.percentile(w(1.5), rank_k, avg_k).unwrap_err();
    assert_eq!(e, MatrixError::RangeError { level: w(1.5) });
}

#[test]
fn mode_of_one_repeated_value_is_that_value() {
    let a = m(1, 4, &[1.0, 2.0, 2.0, 3.0]);
    let modes = a.mode();
    assert_eq!(modes.len(), 1);
    assert_eq!(f64::from_bits(modes[0]), 2.0);
}

#[test]
fn mode_with_a_tie_lists_every_tied_value_once() {
    let a = m(1, 5, &[1.0, 1.0, 2.0, 2.0, 3.0]);
    let modes: Vec<f64> = a.mode().iter().map(|v| f64::from_bits(*v)).collect();
    assert_eq!(modes.len(), 2);
    assert!(modes.contains(&1.0));
    assert!(modes.contains(&2.0));
}

#[test]
fn dot_multiplies_and_sums_cell_pairs() {
    let a = m(1, 3, &[1.0, 2.0, 3.0]);
    let b = m(1, 3, &[4.0, 5.0, 6.0]);
    let r = dot(a, b, add_k, mul_k).unwrap();
    assert_eq!(f64::from_bits(r), 32.0);
}

#[test]
fn dot_rejects_unequal_shapes() {
    let a = m(1, 3, &[1.0, 2.0, 3.0]);
    let b = m(3, 1, &[4.0, 5.0, 6.0]);
    let e = dot(a, b, add_k, mul_k).unwrap_err();
    assert_eq!(e, MatrixError::DimensionMismatch {
        expected_rows: 1,
        expected_cols: 3,
        found_rows: 3,
        found_cols: 1,
    });
}

#[test]
fn mean_of_nothing_is_an_empty_input_error() {
    let none: Vec<Matrix> = Vec::new();
    let e = mean(&none, add_k, div_count_k).unwrap_err();
    assert_eq!(e, MatrixError::EmptyInput);
}

#[test]
fn mean_of_one_matrix_is_that_matrix() {
    let one = vec![m(2, 2, &[1.0, 2.0, 3.0, 4.0])];
    let r = mean(&one, add_k, div_count_k).unwrap();
    assert_eq!(r.rows, 2);
    assert_eq!(r.cols, 2);
    assert_eq!(cells(&r), vec![1.0, 2.0, 3.0, 4.0]);
}

#[test]
fn mean_averages_cell_by_cell() {
    let arr = vec![
        m(2, 2, &[1.0, 2.0, 3.0, 4.0]),
        m(2, 2, &[3.0, 6.0, 9.0, 12.0]),
    ];
    let r = mean(&arr, add_k, div_count_k).unwrap();
    assert_eq!(cells(&r), vec![2.0, 4.0, 6.0, 8.0]);
}

#[test]
fn mean_reports_the_first_shape_disagreement() {
    let arr = vec![
        m(2, 2, &[1.0, 2.0, 3.0, 4.0]),
        m(2, 2, &[1.0, 2.0, 3.0, 4.0]),
        m(1, 4, &[1.0, 2.0, 3.0, 4.0]),
    ];
    let e = mean(&arr, add_k, div_count_k).unwrap_err();
    assert_eq!(e, MatrixError::DimensionMismatch {
        expected_rows: 2,
        expected_cols: 2,
        found_rows: 1,
        found_cols: 4,
    });
}

#[test]
fn distance_is_the_magnitude_of_the_difference() {
    let a = m(1, 2, &[4.0, 6.0]);
    let b = m(1, 2, &[1.0, 2.0]);
    let r = distance(a, b, sub_k, square_k, add_k, sqrt_k).unwrap();
    assert_eq!(f64::from_bits(r), 5.0);
}

#[test]
fn distance_is_symmetric_and_zero_on_itself() {
    let xs = [1.5, -2.0, 4.25];
    let ys = [0.5, 3.0, -1.75];
    let d1 = distance(m(1, 3, &xs), m(1, 3, &ys), sub_k, square_k, add_k, sqrt_k).unwrap();
    let d2 = distance(m(1, 3, &ys), m(1, 3, &xs), sub_k, square_k, add_k, sqrt_k).unwrap();
    assert_eq!(f64::from_bits(d1), f64::from_bits(d2));
    let d0 = distance(m(1, 3, &xs), m(1, 3, &xs), sub_k, square_k, add_k, sqrt_k).unwrap();
    assert_eq!(f64::from_bits(d0), 0.0);
}

#[test]
fn distance_checks_shapes_then_the_vector_requirement() {
    let a = m(1, 2, &[1.0, 2.0]);
    let b = m(2, 1, &[1.0, 2.0]);
    let e = distance(a, b, sub_k, square_k, add_k, sqrt_k).unwrap_err();
    assert_eq!(e, MatrixError::DimensionMismatch {
        expected_rows: 1,
        expected_cols: 2,
        found_rows: 2,
        found_cols: 1,
    });

    let c = m(2, 2, &[1.0, 2.0, 3.0, 4.0]);
    let d = m(2, 2, &[0.0, 0.0, 0.0, 0.0]);
    let e2 = distance(c, d, sub_k, square_k, add_k, sqrt_k).unwrap_err();
    assert_eq!(e2, MatrixError::ShapeError { rows: 2, cols: 2 });
}

#[test]
fn sum_of_an_empty_matrix_is_zero() {
    let a = m(0, 0, &[]);
    assert_eq!(f64::from_bits(a.sum(add_k)), 0.0);
}

#[test]
fn mode_of_an_empty_matrix_is_empty() {
    let a = m(0, 0, &[]);
    assert!(a.mode().is_empty());
}

#[test]
fn percentile_at_the_ends_takes_the_least_and_greatest_cells() {
    let a = m(1, 5, &[5.0, 1.0, 4.0, 2.0, 3.0]);
    let lo = a.percentile(w(0.0), rank_k, avg_k).unwrap();
    assert_eq!(f64::from_bits(lo), 1.0);
    let hi = a.percentile(w(1.0), rank_k, avg_k).unwrap();
    assert_eq!(f64::from_bits(hi), 5.0);
}

#[test]
fn median_sorts_negative_values_below_positive_ones() {
    let a = m(1, 3, &[2.0, -5.0, 1.0]);
    assert_eq!(f64::from_bits(a.median(avg_k)), 1.0);
}
