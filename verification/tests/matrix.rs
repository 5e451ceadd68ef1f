use tda::dense::DenseMatrix;
use tda::matrix::{Matrix, MatrixOps};
use tda::sparse::SparseMatrix;

fn sums(rows: usize, cols: usize, transposed: bool) -> DenseMatrix<usize> {
    let mut dm = DenseMatrix::<usize>::new(rows, cols);
    for i in 0..rows {
        for j in 0..cols {
            if transposed {
                dm.set(j, i, i + j);
            } else {
                dm.set(i, j, i + j);
            }
        }
    }
    dm
}

#[test]
fn test_dense_matrix() {
    let mut dm = DenseMatrix::<bool>::new(10, 10);
    assert_eq!(dm.dim(), (10, 10));

    dm.set(0, 0, false);
    assert_eq!(dm.get(0, 0), Some(&false));
    dm.set(1, 1, true);
    assert_eq!(dm.get(1, 1), Some(&true));
}

#[test]
fn test_col_swap() {
    let mut dm = sums(4, 4, false);

    // 0 1 2 3
    // 1 2 3 4
    // 2 3 4 5
    // 3 4 5 6

    dm.col_swap(0, 1);

    for i in 0..4 {
        // 1 2 3 4
        assert_eq!(dm.get(i, 0).is_some(), true);
        assert_eq!(dm.get(i, 0).unwrap(), &(i + 1));

        // 0 1 2 3
        assert_eq!(dm.get(i, 1).is_some(), true);
        assert_eq!(dm.get(i, 1).unwrap(), &i);

        // 2 3 4 5
        assert_eq!(dm.get(i, 2).is_some(), true);
        assert_eq!(dm.get(i, 2).unwrap(), &(i + 2));

        // 3 4 5 6
        assert_eq!(dm.get(i, 3).is_some(), true);
        assert_eq!(dm.get(i, 3).unwrap(), &(i + 3));
    }
}

#[test]
fn test_col_swap_non_square() {
    let mut dm = sums(3, 4, false);

    // 0 1 2 3
    // 1 2 3 4
    // 2 3 4 5

    for i in 0..4 {
        // 0 1 2 3
        assert_eq!(dm.get(0, i).is_some(), true);
        assert_eq!(dm.get(0, i).unwrap(), &i);

        // 1 2 3 4
        assert_eq!(dm.get(1, i).is_some(), true);
        assert_eq!(dm.get(1, i).unwrap(), &(i + 1));

        // 2 3 4 5
        assert_eq!(dm.get(2, i).is_some(), true);
        assert_eq!(dm.get(2, i).unwrap(), &(i + 2));
    }

    dm.col_swap(0, 2);

    // 2 1 0 3
    // 3 2 1 4
    // 4 3 2 5

    for i in 0..3 {
        // 2 3 4
        assert_eq!(dm.get(i, 0).is_some(), true);
        assert_eq!(dm.get(i, 0).unwrap(), &(i + 2));

        // 1 2 3
        assert_eq!(dm.get(i, 1).is_some(), true);
        assert_eq!(dm.get(i, 1).unwrap(), &(i + 1));

        // 0 1 2
        assert_eq!(dm.get(i, 2).is_some(), true);
        assert_eq!(dm.get(i, 2).unwrap(), &i);

        // 3 4 5
        assert_eq!(dm.get(i, 3).is_some(), true);
        assert_eq!(dm.get(i, 3).unwrap(), &(i + 3));
    }
}

#[test]
fn test_row_swap() {
    let mut dm = sums(4, 4, true);

    // 0 1 2 3
    // 1 2 3 4
    // 2 3 4 5
    // 3 4 5 6

    dm.row_swap(0, 1);

    for i in 0..4 {
        // 1 2 3 4
        assert_eq!(dm.get(0, i).is_some(), true);
        assert_eq!(dm.get(0, i).unwrap(), &(i + 1));

        // 0 1 2 3
        assert_eq!(dm.get(1, i).is_some(), true);
        assert_eq!(dm.get(1, i).unwrap(), &i);

        // 2 3 4 5
        assert_eq!(dm.get(2, i).is_some(), true);
        assert_eq!(dm.get(2, i).unwrap(), &(i + 2));

        // 3 4 5 6
        assert_eq!(dm.get(3, i).is_some(), true);
        assert_eq!(dm.get(3, i).unwrap(), &(i + 3));
    }
}

#[test]
fn test_col_add() {
    let mut dm = sums(4, 4, true);

    // 0 1 2 3
    // 1 2 3 4
    // 2 3 4 5
    // 3 4 5 6

    dm.col_add(0, 1);

    for i in 0..4 {
        // 0 1 2 3
        assert_eq!(dm.get(i, 0).is_some(), true);
        assert_eq!(dm.get(i, 0).unwrap(), &i);

        // 1 3 5 7
        assert_eq!(dm.get(i, 1).is_some(), true);
        assert_eq!(dm.get(i, 1).unwrap(), &(i * 2 + 1));

        // 2 3 4 5
        assert_eq!(dm.get(i, 2).is_some(), true);
        assert_eq!(dm.get(i, 2).unwrap(), &(i + 2));

        // 3 4 5 6
        assert_eq!(dm.get(i, 3).is_some(), true);
        assert_eq!(dm.get(i, 3).unwrap(), &(i + 3));
    }
}

#[test]
fn test_row_add() {
    let mut dm = sums(4, 4, true);

    // 0 1 2 3
    // 1 2 3 4
    // 2 3 4 5
    // 3 4 5 6

    dm.row_add(0, 1);

    for i in 0..4 {
        // 0 1 2 3
        assert_eq!(dm.get(0, i).is_some(), true);
        assert_eq!(dm.get(0, i).unwrap(), &i);

        // 1 3 5 7
        assert_eq!(dm.get(1, i).is_some(), true);
        assert_eq!(dm.get(1, i).unwrap(), &(i * 2 + 1));

        // 2 3 4 5
        assert_eq!(dm.get(2, i).is_some(), true);
        assert_eq!(dm.get(2, i).unwrap(), &(i + 2));

        // 3 4 5 6
        assert_eq!(dm.get(3, i).is_some(), true);
        assert_eq!(dm.get(3, i).unwrap(), &(i + 3));
    }
}

#[test]
fn test_sparse_matrix() {
    let mut dm = SparseMatrix::<bool>::new(10, 10);
    assert_eq!(dm.dim(), (10, 10));

    dm.set(0, 0, true);
    assert_eq!(dm.get(0, 0), Some(&true));
    assert_eq!(dm.get(1, 1), None);
}

#[test]
fn dense_row_major_round_trip() {
    let mut dm = DenseMatrix::<usize>::new(4, 4);
    dm.set(0, 0, 0);
    dm.set(1, 2, 7);
    assert_eq!(dm.get(0, 0), Some(&0));
    assert_eq!(dm.get(1, 2), Some(&7));
    // The neighbours of (1, 2) in the buffer keep what they held.
    dm.set(2, 1, 9);
    assert_eq!(dm.get(1, 2), Some(&7));
    assert_eq!(dm.get(2, 1), Some(&9));
}

#[test]
fn dense_get_outside_is_none() {
    let mut dm = DenseMatrix::<usize>::new(2, 3);
    for r in 0..2 {
        for c in 0..3 {
            dm.set(r, c, r * 3 + c);
        }
    }
    assert_eq!(dm.get(0, 3), None);
    assert_eq!(dm.get(2, 0), None);
    assert_eq!(dm.get(1, 2), Some(&5));
}

#[test]
fn dense_new_holds_the_default_in_every_cell() {
    let dm = DenseMatrix::<usize>::new(3, 2);
    for r in 0..3 {
        for c in 0..2 {
            assert_eq!(dm.get(r, c), Some(&0));
        }
    }
    let flags = DenseMatrix::<bool>::new(1, 1);
    assert_eq!(flags.get(0, 0), Some(&false));
    let empty = DenseMatrix::<bool>::new(0, 5);
    assert_eq!(empty.dim(), (0, 5));
    assert_eq!(empty.get(0, 0), None);
}

#[test]
fn sparse_set_overwrites_and_keeps_the_rest() {
    let mut sm = SparseMatrix::<usize>::new(3, 4);
    sm.set(1, 2, 5);
    sm.set(2, 1, 6);
    sm.set(1, 2, 8);
    assert_eq!(sm.get(1, 2), Some(&8));
    assert_eq!(sm.get(2, 1), Some(&6));
    assert_eq!(sm.get(0, 0), None);
    assert_eq!(sm.get(3, 0), None);
    assert_eq!(sm.get(0, 4), None);
}

#[test]
fn row_add_twice_keeps_parity() {
    let mut dm = sums(4, 4, false);
    dm.row_add(0, 2);
    dm.row_add(0, 2);
    for i in 0..4 {
        for j in 0..4 {
            assert_eq!(dm.get(i, j).unwrap() % 2, (i + j) % 2);
        }
    }
    // Row 2 is itself plus twice row 0.
    for j in 0..4 {
        assert_eq!(dm.get(2, j), Some(&(2 + j + 2 * j)));
    }
}

#[test]
fn operations_work_on_any_cells_that_add() {
    let mut dm = DenseMatrix::<i32>::new(2, 2);
    dm.set(0, 0, -1);
    dm.set(0, 1, 2);
    dm.set(1, 0, 30);
    dm.set(1, 1, -40);
    dm.row_add(0, 1);
    assert_eq!(dm.get(1, 0), Some(&29));
    assert_eq!(dm.get(1, 1), Some(&-38));
    dm.col_add(1, 0);
    assert_eq!(dm.get(0, 0), Some(&1));
    assert_eq!(dm.get(1, 0), Some(&-9));
    dm.row_swap(0, 1);
    dm.col_swap(0, 1);
    assert_eq!(dm.get(0, 0), Some(&-38));
    assert_eq!(dm.get(0, 1), Some(&-9));
    assert_eq!(dm.get(1, 0), Some(&2));
    assert_eq!(dm.get(1, 1), Some(&1));
}

#[test]
fn swap_with_itself_changes_nothing() {
    let mut dm = sums(3, 3, false);
    dm.row_swap(1, 1);
    dm.col_swap(2, 2);
    for i in 0..3 {
        for j in 0..3 {
            assert_eq!(dm.get(i, j), Some(&(i + j)));
        }
    }
}

#[test]
fn row_add_to_itself_doubles() {
    let mut dm = sums(3, 3, false);
    dm.row_add(1, 1);
    for j in 0..3 {
        assert_eq!(dm.get(1, j), Some(&(2 * (1 + j))));
        assert_eq!(dm.get(0, j), Some(&j));
    }
    dm.col_add(2, 2);
    assert_eq!(dm.get(0, 2), Some(&4));
    assert_eq!(dm.get(1, 2), Some(&12));
}
