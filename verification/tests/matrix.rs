use sheaf_laplacian::matrix::Matrix;

#[test]
fn test_matrix_identity() {
    let m = Matrix::identity(3, 0.0, 1.0);
    assert_eq!(m.get(0, 0), 1.0);
    assert_eq!(m.get(1, 1), 1.0);
    assert_eq!(m.get(0, 1), 0.0);
}

#[test]
fn test_matrix_transpose() {
    let mut m = Matrix::zeros(2, 3, 0.0);
    m.set(0, 0, 1.0); m.set(0, 1, 2.0); m.set(0, 2, 3.0);
    m.set(1, 0, 4.0); m.set(1, 1, 5.0); m.set(1, 2, 6.0);
    let t = m.transpose();
    assert_eq!(t.rows, 3);
    assert_eq!(t.cols, 2);
    assert_eq!(t.get(0, 0), 1.0);
    assert_eq!(t.get(2, 1), 6.0);
}

#[test]
fn zeros_fills_every_cell() {
    let m = Matrix::zeros(3, 4, 0i64);
    assert_eq!(m.rows, 3);
    assert_eq!(m.cols, 4);
    assert_eq!(m.data, vec![0i64; 12]);
}

#[test]
fn zeros_with_no_rows_is_empty() {
    let m = Matrix::zeros(0, 5, 7u8);
    assert_eq!(m.data.len(), 0);
    let t = m.transpose();
    assert_eq!((t.rows, t.cols), (5, 0));
    assert!(t.data.is_empty());
}

#[test]
fn identity_layout() {
    let m = Matrix::identity(3, 0i32, 1i32);
    assert_eq!(m.data, vec![1, 0, 0, 0, 1, 0, 0, 0, 1]);
    let e = Matrix::identity(0, 0i32, 1i32);
    assert!(e.data.is_empty());
}

#[test]
fn get_reads_row_major_position() {
    let m = Matrix { rows: 2, cols: 3, data: vec![10, 11, 12, 20, 21, 22] };
    assert_eq!(m.get(1, 0), 20);
    assert_eq!(m.get(0, 2), 12);
    // position 0 * 3 + 4 is cell (1, 1)
    assert_eq!(m.get(0, 4), 21);
}

#[test]
fn get_after_set() {
    let mut m = Matrix::zeros(2, 2, 0i64);
    m.set(1, 0, 9);
    assert_eq!(m.get(1, 0), 9);
    assert_eq!(m.get(0, 0), 0);
    assert_eq!(m.get(0, 1), 0);
    assert_eq!(m.get(1, 1), 0);
    m.set(1, 0, -3);
    assert_eq!(m.get(1, 0), -3);
    assert_eq!(m.data, vec![0, 0, -3, 0]);
}

#[test]
fn transpose_swaps_cells() {
    let m = Matrix { rows: 2, cols: 3, data: vec![1, 2, 3, 4, 5, 6] };
    let t = m.transpose();
    assert_eq!((t.rows, t.cols), (3, 2));
    assert_eq!(t.data, vec![1, 4, 2, 5, 3, 6]);
}

#[test]
fn transpose_twice_is_identity() {
    let m = Matrix { rows: 3, cols: 2, data: vec![7, -1, 4, 0, 2, 9] };
    let tt = m.transpose().transpose();
    assert_eq!((tt.rows, tt.cols), (3, 2));
    assert_eq!(tt.data, m.data);
}

#[test]
fn transpose_reads_only_the_grid() {
    let m = Matrix { rows: 1, cols: 2, data: vec![8, 9, 100] };
    let t = m.transpose();
    assert_eq!((t.rows, t.cols), (2, 1));
    assert_eq!(t.data, vec![8, 9]);
}
