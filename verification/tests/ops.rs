use rvmath::Matrix;
use rvmath::MatrixData;
use rvmath::MatrixError;

fn w(x: f64) -> u64 {
    x.to_bits()
}

fn words(vals: &[f64]) -> Vec<u64> {
    vals.iter().map(|v| v.to_bits()).collect()
}

fn m(rows: usize, cols: usize, vals: &[f64]) -> Matrix {
    Matrix::new(rows, cols, MatrixData::Vector(words(vals))).unwrap()
}

fn cells(a: &Matrix) -> Vec<f64> {
    a.data.iter().map(|v| f64::from_bits(*v)).collect()
}

fn add_k(x: u64, y: u64) -> u64 {
    (f64::from_bits(x) + f64::from_bits(y)).to_bits()
}

fn sub_k(x: u64, y: u64) -> u64 {
    (f64::from_bits(x) - f64::from_bits(y)).to_bits()
}

fn mul_k(x: u64, y: u64) -> u64 {
    (f64::from_bits(x) * f64::from_bits(y)).to_bits()
}

fn div_k(x: u64, y: u64) -> u64 {
    (f64::from_bits(x) / f64::from_bits(y)).to_bits()
}

#[test]
fn new_from_sequence_recovers_row_major() {
    let a = m(2, 3, &[1.0, 2.0, 3.0, 4.0, 5.0, 6.0]);
    assert_eq!(a.rows, 2);
    assert_eq!(a.cols, 3);
    for r in 0..2 {
        for c in 0..3 {
            assert_eq!(f64::from_bits(a.get(r, c)), (r * 3 + c) as f64 + 1.0);
        }
    }
}

#[test]
fn new_wrong_length_is_rejected() {
    let e = Matrix::new(2, 2, MatrixData::Vector(words(&[1.0, 2.0, 3.0]))).unwrap_err();
    assert_eq!(e, MatrixError::ElementCountMismatch { expected: 4, found: 3 });
}

#[test]
fn new_scalar_broadcast_fills_every_cell() {
    let a = Matrix::new(2, 3, MatrixData::Scalar(w(7.5))).unwrap();
    assert_eq!(cells(&a), vec![7.5; 6]);
}

#[test]
fn new_matrix_copy_checks_shape() {
    let a = m(2, 2, &[1.0, 2.0, 3.0, 4.0]);
    let b = Matrix::new(2, 2, MatrixData::Matrix(a)).unwrap();
    assert_eq!(cells(&b), vec![1.0, 2.0, 3.0, 4.0]);

    let c = m(2, 2, &[1.0, 2.0, 3.0, 4.0]);
    let e = Matrix::new(1, 4, MatrixData::Matrix(c)).unwrap_err();
    assert_eq!(e, MatrixError::DimensionMismatch {
        expected_rows: 1,
        expected_cols: 4,
        found_rows: 2,
        found_cols: 2,
    });
}

#[test]
fn identity_is_one_on_the_diagonal() {
    let i3 = Matrix::identity(3);
    for r in 0..3 {
        for c in 0..3 {
            let expect = if r == c { 1.0 } else { 0.0 };
            assert_eq!(f64::from_bits(i3.get(r, c)), expect);
        }
    }
}

#[test]
fn transpose_swaps_rows_and_columns() {
    let a = m(2, 3, &[1.0, 2.0, 3.0, 4.0, 5.0, 6.0]);
    let t = a.transpose();
    assert_eq!(t.rows, 3);
    assert_eq!(t.cols, 2);
    assert_eq!(cells(&t), vec![1.0, 4.0, 2.0, 5.0, 3.0, 6.0]);
}

#[test]
fn transpose_twice_gives_the_matrix_back() {
    let vals = [1.5, -2.0, 0.25, 3.0, 9.0, -7.5];
    let a = m(2, 3, &vals);
    let back = a.transpose().transpose();
    assert_eq!(back.rows, 2);
    assert_eq!(back.cols, 3);
    assert_eq!(cells(&back), vals.to_vec());
}

#[test]
fn reshape_keeps_the_flat_sequence() {
    let a = m(2, 2, &[1.0, 2.0, 3.0, 4.0]);
    let b = a.reshape(1, 4).unwrap();
    assert_eq!(b.rows, 1);
    assert_eq!(b.cols, 4);
    assert_eq!(cells(&b), vec![1.0, 2.0, 3.0, 4.0]);
}

#[test]
fn reshape_with_wrong_count_is_rejected() {
    let a = m(2, 2, &[1.0, 2.0, 3.0, 4.0]);
    let e = a.reshape(3, 2).unwrap_err();
    assert_eq!(e, MatrixError::DimensionMismatch {
        expected_rows: 2,
        expected_cols: 2,
        found_rows: 3,
        found_cols: 2,
    });
}

#[test]
fn add_is_element_wise() {
    let a = m(2, 2, &[1.0, 2.0, 3.0, 4.0]);
    let b = m(2, 2, &[1.0, 1.0, 1.0, 1.0]);
    let s = a.add(b, add_k).unwrap();
    assert_eq!(cells(&s), vec![2.0, 3.0, 4.0, 5.0]);
}

#[test]
fn add_rejects_unequal_shapes() {
    let a = m(2, 2, &[1.0, 2.0, 3.0, 4.0]);
    let b = m(1, 4, &[1.0, 1.0, 1.0, 1.0]);
    let e = a.add(b, add_k).unwrap_err();
    assert_eq!(e, MatrixError::DimensionMismatch {
        expected_rows: 2,
        expected_cols: 2,
        found_rows: 1,
        found_cols: 4,
    });
}

#[test]
fn sub_is_element_wise() {
    let a = m(2, 2, &[5.0, 6.0, 7.0, 8.0]);
    let b = m(2, 2, &[1.0, 2.0, 3.0, 4.0]);
    let d = a.sub(b, sub_k).unwrap();
    assert_eq!(cells(&d), vec![4.0, 4.0, 4.0, 4.0]);
}

#[test]
fn add_is_commutative_and_nearly_associative() {
    let xs = [1.25, -3.5, 0.0625, 1000.5];
    let ys = [2.75, 0.1, -0.25, 4.5];
    let zs = [0.3, 7.0, -2.5, 0.125];
    let ab = m(1, 4, &xs).add(m(1, 4, &ys), add_k).unwrap();
    let ba = m(1, 4, &ys).add(m(1, 4, &xs), add_k).unwrap();
    assert_eq!(cells(&ab), cells(&ba));
    let ab_c = ab.add(m(1, 4, &zs), add_k).unwrap();
    let bc = m(1, 4, &ys).add(m(1, 4, &zs), add_k).unwrap();
    let a_bc = m(1, 4, &xs).add(bc, add_k).unwrap();
    for (l, r) in cells(&ab_c).iter().zip(cells(&a_bc).iter()) {
        assert!((l - r).abs() < 1e-9);
    }
}

#[test]
fn scalar_multiply_and_divide_scale_every_cell() {
    let a = m(2, 2, &[1.0, 2.0, 3.0, 4.0]);
    let doubled = a.mul_scalar(w(2.0), mul_k);
    assert_eq!(cells(&doubled), vec![2.0, 4.0, 6.0, 8.0]);
    let halved = doubled.div_scalar(w(2.0), div_k);
    assert_eq!(cells(&halved), vec![1.0, 2.0, 3.0, 4.0]);
}

#[test]
fn map_applies_the_function_to_every_cell() {
    let a = m(2, 2, &[1.0, 2.0, 3.0, 4.0]);
    let sq = a.map(|x: u64| {
        let v = f64::from_bits(x);
        (v * v).to_bits()
    });
    assert_eq!(cells(&sq), vec![1.0, 4.0, 9.0, 16.0]);
}

#[test]
fn matrix_product_matches_the_textbook_result() {
    let a = m(2, 2, &[1.0, 2.0, 3.0, 4.0]);
    let b = m(2, 2, &[5.0, 6.0, 7.0, 8.0]);
    let p = a.mul(b, add_k, mul_k).unwrap();
    assert_eq!(p.rows, 2);
    assert_eq!(p.cols, 2);
    assert_eq!(cells(&p), vec![19.0, 22.0, 43.0, 50.0]);
}

#[test]
fn matrix_product_rejects_incompatible_inner_dimensions() {
    let a = m(2, 3, &[1.0, 2.0, 3.0, 4.0, 5.0, 6.0]);
    let b = m(2, 2, &[1.0, 0.0, 0.0, 1.0]);
    let e = a.mul(b, add_k, mul_k).unwrap_err();
    assert_eq!(e, MatrixError::DimensionMismatch {
        expected_rows: 2,
        expected_cols: 3,
        found_rows: 2,
        found_cols: 2,
    });
}

#[test]
fn multiplying_by_the_identity_changes_nothing() {
    let vals = [3.5, -1.0, 2.25, 8.0, 0.5, 7.0, -4.0, 6.0, 1.0];
    let right = m(3, 3, &vals).mul(Matrix::identity(3), add_k, mul_k).unwrap();
    assert_eq!(cells(&right), vals.to_vec());
    let left = Matrix::identity(3).mul(m(3, 3, &vals), add_k, mul_k).unwrap();
    assert_eq!(cells(&left), vals.to_vec());
}

#[test]
fn identity_of_size_zero_has_no_cells() {
    let i0 = Matrix::identity(0);
    assert_eq!(i0.rows, 0);
    assert_eq!(i0.cols, 0);
    assert!(i0.data.is_empty());
}

#[test]
fn transpose_of_a_row_vector_is_a_column_vector() {
    let v = m(1, 3, &[1.0, 2.0, 3.0]);
    let t = v.transpose();
    assert_eq!(t.rows, 3);
    assert_eq!(t.cols, 1);
    assert_eq!(cells(&t), vec![1.0, 2.0, 3.0]);
}
