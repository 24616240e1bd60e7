use read_layers::assembler::assemble;
use read_layers::error::IngestError;
use read_layers::matrix::{fits, Matrix};

fn bits(rows: &[&[f64]]) -> Vec<Vec<u64>> {
    rows.iter().map(|row| row.iter().map(|v| v.to_bits()).collect()).collect()
}

fn numbers(m: &Matrix) -> Vec<Vec<f64>> {
    m.to_rows().iter().map(|row| row.iter().map(|v| f64::from_bits(*v)).collect()).collect()
}

#[test]
fn matrix_holds_the_rows_it_was_built_from() {
    let rows = vec![vec![1u64, 2, 3], vec![4, 5, 6]];
    let m = Matrix::from_rows(&rows).unwrap();
    assert_eq!(m.nrows(), 2);
    assert_eq!(m.ncols(), 3);
    assert_eq!(m.to_rows(), rows);
    assert_eq!(m.get(0, 0), Some(1));
    assert_eq!(m.get(1, 2), Some(6));
    assert_eq!(m.get(0, 1), Some(2));
    assert_eq!(m.get(1, 0), Some(4));
    assert_eq!(m.get(2, 0), None);
    assert_eq!(m.get(0, 3), None);
}

#[test]
fn matrix_of_no_rows_has_no_columns() {
    let m = Matrix::from_rows(&vec![]).unwrap();
    assert_eq!(m.nrows(), 0);
    assert_eq!(m.ncols(), 0);
    assert_eq!(m.to_rows(), Vec::<Vec<u64>>::new());
}

#[test]
fn rows_of_different_lengths_are_no_matrix() {
    assert!(Matrix::from_rows(&vec![vec![1, 2], vec![3]]).is_none());
    assert!(Matrix::from_rows(&vec![vec![], vec![3]]).is_none());
}

#[test]
fn cells_are_taken_row_by_row() {
    let m = Matrix::from_cells(2, 3, vec![1, 2, 3, 4, 5, 6]).unwrap();
    assert_eq!(m.to_rows(), vec![vec![1, 2, 3], vec![4, 5, 6]]);
    let wide = Matrix::from_cells(0, 4, vec![]).unwrap();
    assert_eq!(wide.nrows(), 0);
    assert_eq!(wide.ncols(), 4);
}

#[test]
fn cells_that_do_not_fill_the_shape_are_no_matrix() {
    assert!(Matrix::from_cells(2, 3, vec![1, 2, 3, 4, 5]).is_none());
    assert!(Matrix::from_cells(2, 2, vec![1, 2, 3, 4, 5]).is_none());
    assert!(Matrix::from_cells(usize::MAX, 0, vec![]).is_none());
}

#[test]
fn shapes_fit_up_to_the_largest_signed_size() {
    let limit = isize::MAX as usize;
    assert!(fits(0, 0));
    assert!(fits(3, 5));
    assert!(fits(limit, 1));
    assert!(fits(limit, 0));
    assert!(fits(0, limit));
    assert!(!fits(limit, 2));
    assert!(!fits(limit + 1, 1));
    assert!(!fits(usize::MAX, usize::MAX));
}

#[test]
fn assemble_puts_z_between_the_second_and_third_field() {
    let a = Matrix::from_rows(&bits(&[&[1.0, 2.0, 3.0, 4.0], &[5.0, 6.0, 7.0, 8.0]])).unwrap();
    let b = Matrix::from_rows(&bits(&[&[9.0, 10.0, 11.0, 12.0]])).unwrap();
    let out = assemble(&vec![a, b], &vec![0.5f64.to_bits(), 1.5f64.to_bits()], &vec![2, 1]).unwrap();
    assert_eq!(out.nrows(), 3);
    assert_eq!(out.ncols(), 5);
    assert_eq!(
        numbers(&out),
        vec![
            vec![1.0, 2.0, 0.5, 3.0, 4.0],
            vec![5.0, 6.0, 0.5, 7.0, 8.0],
            vec![9.0, 10.0, 1.5, 11.0, 12.0],
        ]
    );
}

#[test]
fn matrices_of_more_than_four_fields_do_not_assemble() {
    let a = Matrix::from_rows(&bits(&[&[1.0, 2.0, 3.0, 4.0, 5.0, 6.0]])).unwrap();
    let r = assemble(&vec![a], &vec![7.0f64.to_bits()], &vec![1]);
    assert_eq!(r.err(), Some(IngestError::ShapeMismatch));
    let b = Matrix::from_rows(&bits(&[&[1.0, 2.0, 3.0, 4.0, 5.0]])).unwrap();
    let c = Matrix::from_rows(&bits(&[&[1.0, 2.0, 3.0, 4.0, 5.0]])).unwrap();
    let r = assemble(&vec![b, c], &vec![1, 2], &vec![1, 1]);
    assert_eq!(r.err(), Some(IngestError::ShapeMismatch));
}

#[test]
fn assemble_of_layers_without_rows_has_five_columns() {
    let a = Matrix::from_cells(0, 4, vec![]).unwrap();
    let b = Matrix::from_cells(0, 4, vec![]).unwrap();
    let out = assemble(&vec![a, b], &vec![1, 2], &vec![0, 0]).unwrap();
    assert_eq!(out.nrows(), 0);
    assert_eq!(out.ncols(), 5);
}

#[test]
fn assemble_takes_the_z_column_from_the_row_counts() {
    let a = Matrix::from_rows(&bits(&[&[1.0, 1.0, 1.0, 1.0], &[2.0, 2.0, 2.0, 2.0]])).unwrap();
    let b = Matrix::from_rows(&bits(&[&[3.0, 3.0, 3.0, 3.0]])).unwrap();
    let out = assemble(&vec![a, b], &vec![10.0f64.to_bits(), 20.0f64.to_bits()], &vec![1, 2]).unwrap();
    let z: Vec<f64> = numbers(&out).iter().map(|row| row[2]).collect();
    assert_eq!(z, vec![10.0, 20.0, 20.0]);
}

#[test]
fn matrices_of_different_widths_do_not_assemble() {
    let a = Matrix::from_rows(&bits(&[&[1.0, 2.0, 3.0, 4.0]])).unwrap();
    let b = Matrix::from_rows(&bits(&[&[1.0, 2.0, 3.0, 4.0, 5.0]])).unwrap();
    let r = assemble(&vec![a, b], &vec![1, 2], &vec![1, 1]);
    assert_eq!(r.err(), Some(IngestError::ShapeMismatch));
}

#[test]
fn a_matrix_without_rows_and_columns_does_not_assemble_with_others() {
    let a = Matrix::from_rows(&bits(&[&[1.0, 2.0, 3.0, 4.0]])).unwrap();
    let b = Matrix::from_rows(&vec![]).unwrap();
    let r = assemble(&vec![a, b], &vec![1, 2], &vec![1, 0]);
    assert_eq!(r.err(), Some(IngestError::ShapeMismatch));
}

#[test]
fn matrices_of_fewer_than_four_fields_do_not_assemble() {
    let a = Matrix::from_rows(&bits(&[&[1.0, 2.0, 3.0]])).unwrap();
    let r = assemble(&vec![a], &vec![1], &vec![1]);
    assert_eq!(r.err(), Some(IngestError::ShapeMismatch));
}

#[test]
fn no_matrix_does_not_assemble() {
    let r = assemble(&vec![], &vec![], &vec![]);
    assert_eq!(r.err(), Some(IngestError::ShapeMismatch));
}

#[test]
fn lists_that_are_not_aligned_do_not_assemble() {
    let a = Matrix::from_rows(&bits(&[&[1.0, 2.0, 3.0, 4.0]])).unwrap();
    assert_eq!(assemble(&vec![a], &vec![1, 2], &vec![1]).err(), Some(IngestError::ShapeMismatch));
    let b = Matrix::from_rows(&bits(&[&[1.0, 2.0, 3.0, 4.0]])).unwrap();
    assert_eq!(assemble(&vec![b], &vec![1], &vec![]).err(), Some(IngestError::ShapeMismatch));
}

#[test]
fn row_counts_that_miss_the_rows_do_not_assemble() {
    let a = Matrix::from_rows(&bits(&[&[1.0, 2.0, 3.0, 4.0]])).unwrap();
    assert_eq!(assemble(&vec![a], &vec![1], &vec![2]).err(), Some(IngestError::ShapeMismatch));
    let b = Matrix::from_rows(&bits(&[&[1.0, 2.0, 3.0, 4.0]])).unwrap();
    let r = assemble(&vec![b], &vec![1], &vec![usize::MAX]);
    assert_eq!(r.err(), Some(IngestError::ShapeMismatch));
}
