use neuralnet::matrix::{Matrix, ShapeError};

fn m(data: Vec<f64>, rows: usize, columns: usize) -> Matrix<f64> {
    Matrix::new(data, rows, columns).ok().unwrap()
}

fn dot(x: Vec<f64>, y: Vec<f64>) -> f64 {
    x.iter().zip(y.iter()).map(|(a, b)| a * b).sum()
}

#[test]
fn new_accepts_exact_length() {
    let a = m(vec![1.0, 2.0, 3.0, 4.0, 5.0, 6.0], 2, 3);
    assert_eq!(a.rows, 2);
    assert_eq!(a.columns, 3);
    assert_eq!(a.data, vec![1.0, 2.0, 3.0, 4.0, 5.0, 6.0]);
}

#[test]
fn new_rejects_three_values_for_two_by_two() {
    let r = Matrix::new(vec![1.0, 2.0, 3.0], 2, 2);
    assert!(matches!(r, Err(ShapeError::WrongLength)));
}

#[test]
fn new_rejects_overflowing_shape() {
    let r = Matrix::new(vec![1u8], usize::MAX, 2);
    assert!(matches!(r, Err(ShapeError::WrongLength)));
}

#[test]
fn zeroes_fills_every_cell() {
    let z = Matrix::zeroes(2, 3, 0.0f64);
    assert_eq!(z.data, vec![0.0; 6]);
    assert_eq!((z.rows, z.columns), (2, 3));
}

#[test]
fn random_has_one_draw_per_cell_in_unit_interval() {
    let r = Matrix::random(3, 4, || rand::random::<f64>());
    assert_eq!(r.data.len(), 12);
    assert!(r.data.iter().all(|v| *v >= 0.0 && *v < 1.0));
}

#[test]
fn transpose_swaps_rows_and_columns() {
    let a = m(vec![1.0, 2.0, 3.0, 4.0, 5.0, 6.0], 2, 3);
    let t = a.transpose();
    assert_eq!((t.rows, t.columns), (3, 2));
    assert_eq!(t.data, vec![1.0, 4.0, 2.0, 5.0, 3.0, 6.0]);
    let tt = t.transpose();
    assert_eq!((tt.rows, tt.columns), (2, 3));
    assert_eq!(tt.data, a.data);
}

#[test]
fn multiply_gives_row_by_column_products() {
    let a = m(vec![1.0, 2.0, 3.0, 4.0, 5.0, 6.0], 2, 3);
    let b = m(vec![7.0, 8.0, 9.0, 10.0, 11.0, 12.0], 3, 2);
    let p = a.multiply(&b, dot).ok().unwrap();
    assert_eq!((p.rows, p.columns), (2, 2));
    assert_eq!(p.data, vec![58.0, 64.0, 139.0, 154.0]);
}

#[test]
fn multiply_rejects_mismatched_inner_dimensions() {
    let a = m(vec![0.0; 6], 2, 3);
    let b = m(vec![0.0; 6], 2, 3);
    let r = a.multiply(&b, dot);
    assert!(matches!(r, Err(ShapeError::Incompatible)));
    assert_eq!((a.rows, a.columns, b.rows, b.columns), (2, 3, 2, 3));
}

#[test]
fn add_commutes() {
    let a = m(vec![1.5, -2.0, 3.25, 0.0], 2, 2);
    let b = m(vec![0.5, 4.0, -1.0, 2.0], 2, 2);
    let ab = a.zip_with(&b, |x, y| x + y).ok().unwrap();
    let ba = b.zip_with(&a, |x, y| x + y).ok().unwrap();
    assert_eq!(ab.data, ba.data);
    assert_eq!(ab.data, vec![2.0, 2.0, 2.25, 2.0]);
}

#[test]
fn subtract_is_negated_reverse() {
    let a = m(vec![1.0, 5.0, -3.0], 3, 1);
    let b = m(vec![4.0, 2.0, 1.0], 3, 1);
    let ab = a.zip_with(&b, |x, y| x - y).ok().unwrap();
    let ba = b.zip_with(&a, |x, y| x - y).ok().unwrap().map(|x: f64| -x);
    assert_eq!(ab.data, ba.data);
    assert_eq!(ab.data, vec![-3.0, 3.0, -4.0]);
}

#[test]
fn zip_with_rejects_other_shape() {
    let a = m(vec![1.0, 2.0], 2, 1);
    let b = m(vec![1.0, 2.0], 1, 2);
    assert!(matches!(a.zip_with(&b, |x, y| x + y), Err(ShapeError::Incompatible)));
}

#[test]
fn hadamard_multiplies_cell_by_cell() {
    let a = m(vec![1.0, 2.0, 3.0, 4.0], 2, 2);
    let b = m(vec![2.0, 0.5, -1.0, 3.0], 2, 2);
    let h = a.hadamard_product(&b, |x, y| x * y).ok().unwrap();
    assert_eq!(h.data, vec![2.0, 1.0, -3.0, 12.0]);
    let c = m(vec![1.0, 2.0, 3.0, 4.0], 4, 1);
    assert!(matches!(a.hadamard_product(&c, |x, y| x * y), Err(ShapeError::Incompatible)));
}

#[test]
fn add_assign_accumulates_and_refuses_mismatch() {
    let mut a = m(vec![1.0, 2.0], 1, 2);
    let b = m(vec![0.5, 0.25], 1, 2);
    assert!(a.add_assign(&b, |x, y| x + y).is_ok());
    assert_eq!(a.data, vec![1.5, 2.25]);
    let c = m(vec![1.0, 1.0], 2, 1);
    assert!(matches!(a.add_assign(&c, |x, y| x + y), Err(ShapeError::Incompatible)));
    assert_eq!(a.data, vec![1.5, 2.25]);
    assert_eq!((a.rows, a.columns), (1, 2));
}

#[test]
fn map_applies_to_each_cell() {
    let a = m(vec![1.0, -2.0, 3.0], 1, 3);
    let d = a.map(|x: f64| x * 2.0);
    assert_eq!(d.data, vec![2.0, -4.0, 6.0]);
    assert_eq!((d.rows, d.columns), (1, 3));
}

#[test]
fn from_vec_is_a_column() {
    let c = Matrix::from_vec(vec![1.0, 2.0, 3.0]);
    assert_eq!((c.rows, c.columns), (3, 1));
    assert_eq!(c.data, vec![1.0, 2.0, 3.0]);
}

#[test]
fn scaled_multiplies_by_constant() {
    let a = m(vec![1.0, 2.0], 2, 1);
    assert_eq!(a.scaled(0.5, |x, y| x * y).data, vec![0.5, 1.0]);
}
