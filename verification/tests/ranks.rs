use connectome_model::matrix::BoundaryMatrix;
use connectome_model::rank::rank;

fn matrix_of(rows: &[&[u64]], width: usize) -> BoundaryMatrix {
    let mut m = BoundaryMatrix::new();
    for _ in 0..width {
        m.push_column();
    }
    for _ in 0..rows.len() {
        m.push_row();
    }
    for (i, row) in rows.iter().enumerate() {
        for (j, &v) in row.iter().enumerate() {
            assert!(m.set(i, j, v));
        }
    }
    m
}

fn rows_of(m: &BoundaryMatrix) -> Vec<Vec<u64>> {
    let mut rows = Vec::new();
    for i in 0..m.nrows() {
        let mut row = Vec::new();
        for j in 0..m.ncols() {
            row.push(m.get(i, j).unwrap());
        }
        rows.push(row);
    }
    rows
}

#[test]
fn a_new_matrix_is_empty() {
    let m = BoundaryMatrix::new();
    assert_eq!(m.nrows(), 0);
    assert_eq!(m.ncols(), 0);
    assert_eq!(m.get(0, 0), None);
    assert_eq!(rank(&m), 0);
}

#[test]
fn rows_and_columns_grow_with_zeros() {
    let mut m = BoundaryMatrix::new();
    m.push_row();
    m.push_column();
    m.push_column();
    assert_eq!(m.nrows(), 1);
    assert_eq!(m.ncols(), 2);
    assert_eq!(m.get(0, 0), Some(0));
    assert_eq!(m.get(0, 1), Some(0));
    assert!(m.set(0, 1, 1));
    m.push_row();
    assert_eq!(rows_of(&m), vec![vec![0, 1], vec![0, 0]]);
    m.push_column();
    assert_eq!(rows_of(&m), vec![vec![0, 1, 0], vec![0, 0, 0]]);
}

#[test]
fn set_outside_the_matrix_changes_nothing() {
    let mut m = matrix_of(&[&[1, 0], &[0, 1]], 2);
    assert!(!m.set(2, 0, 1));
    assert!(!m.set(0, 2, 1));
    assert_eq!(rows_of(&m), vec![vec![1, 0], vec![0, 1]]);
    assert_eq!(m.get(2, 0), None);
    assert_eq!(m.get(0, 2), None);
}

#[test]
fn rank_of_zero_matrices_is_zero() {
    assert_eq!(rank(&matrix_of(&[&[0, 0, 0], &[0, 0, 0]], 3)), 0);
    assert_eq!(rank(&matrix_of(&[], 3)), 0);
    assert_eq!(rank(&matrix_of(&[&[], &[]], 0)), 0);
}

#[test]
fn rank_of_the_identity() {
    assert_eq!(rank(&matrix_of(&[&[1, 0, 0], &[0, 1, 0], &[0, 0, 1]], 3)), 3);
}

#[test]
fn rank_counts_modulo_two() {
    // the three rows add up to zero modulo 2, though not over the integers
    assert_eq!(rank(&matrix_of(&[&[1, 1, 0], &[0, 1, 1], &[1, 0, 1]], 3)), 2);
}

#[test]
fn rank_of_equal_rows_is_one() {
    assert_eq!(rank(&matrix_of(&[&[1, 1, 1], &[1, 1, 1], &[1, 1, 1]], 3)), 1);
}

#[test]
fn rank_of_wide_and_tall_matrices() {
    assert_eq!(rank(&matrix_of(&[&[1, 1, 0, 1]], 4)), 1);
    assert_eq!(rank(&matrix_of(&[&[1, 0, 1, 1], &[0, 1, 1, 0]], 4)), 2);
    assert_eq!(rank(&matrix_of(&[&[1], &[1], &[0], &[1]], 1)), 1);
    assert_eq!(rank(&matrix_of(&[&[1, 0], &[0, 1], &[1, 1], &[0, 0]], 2)), 2);
}

#[test]
fn rank_is_within_its_bounds() {
    let m = matrix_of(&[&[1, 0, 1, 1, 0], &[0, 1, 1, 0, 1], &[1, 1, 0, 1, 1]], 5);
    let r = rank(&m);
    assert!(r <= m.nrows());
    assert!(r <= m.ncols());
    assert_eq!(r, 2);
}

#[test]
fn rank_leaves_the_matrix_as_it_is() {
    let m = matrix_of(&[&[0, 1, 1], &[1, 1, 0], &[1, 0, 1]], 3);
    let before = rows_of(&m);
    assert_eq!(rank(&m), 2);
    assert_eq!(rows_of(&m), before);
}

#[test]
fn rank_does_not_change_when_rows_or_columns_change_places() {
    let rows: [&[u64]; 4] = [&[1, 0, 1, 0], &[0, 1, 1, 0], &[1, 1, 0, 0], &[0, 0, 0, 1]];
    let expected = rank(&matrix_of(&rows, 4));
    assert_eq!(expected, 3);
    let row_orders: [[usize; 4]; 4] = [[1, 0, 2, 3], [3, 2, 1, 0], [2, 3, 0, 1], [0, 2, 3, 1]];
    for order in row_orders.iter() {
        let moved: Vec<&[u64]> = order.iter().map(|&i| rows[i]).collect();
        assert_eq!(rank(&matrix_of(&moved, 4)), expected);
        let columns: Vec<Vec<u64>> =
            rows.iter().map(|row| order.iter().map(|&j| row[j]).collect()).collect();
        let columns: Vec<&[u64]> = columns.iter().map(|row| row.as_slice()).collect();
        assert_eq!(rank(&matrix_of(&columns, 4)), expected);
    }
}

#[test]
fn rank_of_a_hollow_triangle_boundary() {
    // rows: the vertices 0, 1, 2; columns: the edges 01, 12, 02
    assert_eq!(rank(&matrix_of(&[&[1, 0, 1], &[1, 1, 0], &[0, 1, 1]], 3)), 2);
}
