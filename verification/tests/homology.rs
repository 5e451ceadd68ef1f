use tda::boundary::boundary;
use tda::dense::DenseMatrix;
use tda::homology::{checked_homology, compute_homology};
use tda::matrix::Matrix;
use tda::reduction::reduce_z2;
use tda::simplex::{Simplex, Vertex};
use tda::simplex_trie::SimplexTrie;
use tda::vietoris_rips::inductive;

fn from_rows(rows: &[&str]) -> DenseMatrix<usize> {
    let cols = rows[0].len();
    let mut mat = DenseMatrix::<usize>::new(rows.len(), cols);
    for (i, row) in rows.iter().enumerate() {
        for (j, ch) in row.chars().enumerate() {
            mat.set(i, j, if ch == '1' { 1 } else { 0 });
        }
    }
    mat
}

fn bits(mat: &DenseMatrix<usize>) -> Vec<String> {
    let (rows, cols) = mat.dim();
    let mut out = vec![];
    for i in 0..rows {
        let mut row = String::new();
        for j in 0..cols {
            row.push(if mat.get(i, j).unwrap() % 2 == 1 { '1' } else { '0' });
        }
        out.push(row);
    }
    out
}

fn complete(n: usize) -> DenseMatrix<bool> {
    let mut adj: DenseMatrix<bool> = DenseMatrix::new(n, n);
    for i in 0..n {
        for j in 0..n {
            adj.set(i, j, i != j);
        }
    }
    adj
}

#[test]
fn test_boundary() {
    // The triangle on the vertices 2, 1, 0 with its edges and points.
    let complex = inductive(&complete(3), 3, 0);
    // Points 0, 1, 2; edges (1,0), (2,0), (2,1).
    let d1 = boundary(&complex.0, 1);
    assert_eq!(d1.dim(), (3, 3));
    assert_eq!(bits(&d1), vec!["110", "101", "011"]);
    for i in 0..3 {
        for j in 0..3 {
            assert!(*d1.get(i, j).unwrap() <= 1);
        }
    }
    let d2 = boundary(&complex.0, 2);
    assert_eq!(d2.dim(), (3, 1));
    assert_eq!(bits(&d2), vec!["1", "1", "1"]);
    // Beyond the dimension of the complex the matrix is empty.
    let d3 = boundary(&complex.0, 3);
    assert_eq!(d3.dim(), (1, 0));
    let d9 = boundary(&complex.0, 9);
    assert_eq!(d9.dim(), (0, 0));
}

#[test]
fn test_reduce_case_1() {
    let mut mat = DenseMatrix::<usize>::new(4, 6);

    // https://courses.cs.duke.edu//fall06/cps296.1/Lectures/sec-IV-3.pdf
    // 1 1 1 0 0 0
    // 1 0 0 1 1 0
    // 0 1 0 1 0 1
    // 0 0 1 0 1 1
    mat.set(0, 0, 1);
    mat.set(0, 1, 1);
    mat.set(0, 2, 1);

    mat.set(1, 0, 1);
    mat.set(1, 3, 1);
    mat.set(1, 4, 1);

    mat.set(2, 1, 1);
    mat.set(2, 3, 1);
    mat.set(2, 5, 1);

    mat.set(3, 2, 1);
    mat.set(3, 4, 1);
    mat.set(3, 5, 1);

    reduce_z2(&mut mat, 0);

    // 1 0 0 0 0 0
    // 0 1 0 0 0 0
    // 0 0 1 0 0 0
    // 0 0 0 0 0 0

    assert_eq!(*mat.get(0, 0).unwrap() % 2, 1);
    for i in 1..6 {
        assert_eq!(*mat.get(0, i).unwrap() % 2, 0);
    }

    assert_eq!(*mat.get(0, 1).unwrap() % 2, 0);
    assert_eq!(*mat.get(1, 1).unwrap() % 2, 1);
    for i in 2..6 {
        assert_eq!(*mat.get(1, i).unwrap() % 2, 0);
    }

    for i in 0..2 {
        assert_eq!(*mat.get(2, i).unwrap() % 2, 0);
    }
    assert_eq!(*mat.get(2, 2).unwrap() % 2, 1);
    for i in 3..6 {
        assert_eq!(*mat.get(2, i).unwrap() % 2, 0);
    }

    for i in 0..6 {
        assert_eq!(*mat.get(3, i).unwrap() % 2, 0);
    }
}

#[test]
fn test_reduce_case_2() {
    let mut mat = DenseMatrix::<usize>::new(6, 4);

    // https://courses.cs.duke.edu//fall06/cps296.1/Lectures/sec-IV-3.pdf
    // 1 1 0 0
    // 1 0 1 0
    // 0 1 1 0
    // 1 0 0 1
    // 0 1 0 1
    // 0 0 1 1

    mat.set(0, 0, 1);
    mat.set(0, 1, 1);

    mat.set(1, 0, 1);
    mat.set(1, 2, 1);

    mat.set(2, 1, 1);
    mat.set(2, 2, 1);

    mat.set(3, 0, 1);
    mat.set(3, 3, 1);

    mat.set(4, 1, 1);
    mat.set(4, 3, 1);

    mat.set(5, 2, 1);
    mat.set(5, 3, 1);

    reduce_z2(&mut mat, 0);

    // 1 0 0 0
    // 0 1 0 0
    // 0 0 1 0
    // 0 0 0 0
    // 0 0 0 0
    // 0 0 0 0

    assert_eq!(*mat.get(0, 0).unwrap() % 2, 1);
    assert_eq!(*mat.get(1, 1).unwrap() % 2, 1);
    assert_eq!(*mat.get(2, 2).unwrap() % 2, 1);

    for i in 3..6 {
        for j in 0..4 {
            assert_eq!(*mat.get(i, j).unwrap() % 2, 0);
        }
    }
}

#[test]
fn duke_example_reduces_to_rank_three() {
    let mut mat = from_rows(&["111000", "100110", "010101", "001011"]);
    reduce_z2(&mut mat, 0);
    assert_eq!(bits(&mat), vec!["100000", "010000", "001000", "000000"]);
    // With another first row the four rows are independent.
    let mut full = from_rows(&["110000", "100110", "010101", "001011"]);
    reduce_z2(&mut full, 0);
    assert_eq!(bits(&full), vec!["100000", "010000", "001000", "000100"]);
}

#[test]
fn six_by_four_example_reduces_to_rank_three() {
    let mut mat = from_rows(&["1100", "1010", "0110", "1001", "0101", "0011"]);
    reduce_z2(&mut mat, 0);
    assert_eq!(
        bits(&mat),
        vec!["1000", "0100", "0010", "0000", "0000", "0000"]
    );
}

#[test]
fn reducing_twice_changes_nothing_more() {
    let mut mat = from_rows(&["0110", "1011", "1101", "0000", "1111"]);
    reduce_z2(&mut mat, 0);
    let once = bits(&mat);
    reduce_z2(&mut mat, 0);
    assert_eq!(bits(&mat), once);
    assert_eq!(once, vec!["1000", "0100", "0010", "0000", "0000"]);
}

#[test]
fn reduction_reads_values_mod_two() {
    let mut mat = DenseMatrix::<usize>::new(2, 2);
    mat.set(0, 0, 4);
    mat.set(0, 1, 7);
    mat.set(1, 0, usize::MAX);
    mat.set(1, 1, 2);
    // Mod 2: 01 / 10.
    reduce_z2(&mut mat, 0);
    assert_eq!(bits(&mat), vec!["10", "01"]);
}

#[test]
fn reduction_keeps_the_sums_in_the_cells() {
    let mut mat = from_rows(&["11", "11"]);
    reduce_z2(&mut mat, 0);
    // Row 0 goes to row 1, then column 0 to column 1.
    assert_eq!(mat.get(0, 0), Some(&1));
    assert_eq!(mat.get(0, 1), Some(&2));
    assert_eq!(mat.get(1, 0), Some(&2));
    assert_eq!(mat.get(1, 1), Some(&4));
    // The first one of the block is at (1, 0): it is brought to (0, 0).
    let mut mat = from_rows(&["00", "11"]);
    reduce_z2(&mut mat, 0);
    assert_eq!(mat.get(0, 0), Some(&1));
    assert_eq!(mat.get(0, 1), Some(&2));
    assert_eq!(mat.get(1, 0), Some(&0));
    assert_eq!(mat.get(1, 1), Some(&0));
}

#[test]
fn reduction_adds_with_wraparound() {
    // All cells are odd and as large as can be: each sum wraps around.
    let mut mat = DenseMatrix::<usize>::new(3, 3);
    for i in 0..3 {
        for j in 0..3 {
            mat.set(i, j, usize::MAX);
        }
    }
    reduce_z2(&mut mat, 0);
    assert_eq!(bits(&mat), vec!["100", "000", "000"]);
    assert_eq!(mat.get(0, 0), Some(&usize::MAX));
    assert_eq!(mat.get(1, 1), Some(&usize::MAX.wrapping_mul(4)));
}

#[test]
fn reduction_of_a_block_leaves_the_corner_alone() {
    let mut mat = from_rows(&["1111", "1011", "1101"]);
    reduce_z2(&mut mat, 1);
    // Row 0 and column 0 are outside the block at (1, 1).
    assert_eq!(mat.get(0, 0), Some(&1));
    let b = bits(&mat);
    assert_eq!(&b[1][1..], "100");
    assert_eq!(&b[2][1..], "010");
}

#[test]
fn reduction_of_zero_and_empty_matrices() {
    let mut zero = from_rows(&["000", "000"]);
    reduce_z2(&mut zero, 0);
    assert_eq!(bits(&zero), vec!["000", "000"]);
    let mut none = DenseMatrix::<usize>::new(0, 3);
    reduce_z2(&mut none, 0);
    assert_eq!(none.dim(), (0, 3));
    let mut far = from_rows(&["11", "11"]);
    reduce_z2(&mut far, 5);
    assert_eq!(bits(&far), vec!["11", "11"]);
}

#[test]
fn betti_numbers_of_a_full_simplex_vanish() {
    // The simplex on n vertices with all its faces.
    for n in 2..6 {
        let complex = inductive(&complete(n), n, 0);
        assert_eq!(complex.0.count_dim(n - 1), 1);
        for p in 1..n {
            assert_eq!(compute_homology(&complex.0, p), 0);
        }
    }
}

#[test]
fn betti_numbers_of_hollow_shapes() {
    // The boundary of a triangle: a circle.
    let circle = inductive(&complete(3), 2, 0);
    assert_eq!(compute_homology(&circle.0, 1), 1);
    // The boundary of a tetrahedron: a sphere.
    let sphere = inductive(&complete(4), 3, 0);
    assert_eq!(compute_homology(&sphere.0, 1), 0);
    assert_eq!(compute_homology(&sphere.0, 2), 1);
    // Points only.
    let points = SimplexTrie::new_skel(4);
    assert_eq!(compute_homology(&points, 1), 0);
    assert_eq!(compute_homology(&points, 3), 0);
}

#[test]
fn betti_number_of_a_square() {
    // Four edges around a square, entered by hand: one loop.
    let v = |i: usize| Vertex::new(i, 0);
    let mut st = SimplexTrie::new_skel(4);
    st.add_simplex(&Simplex::new(vec![v(1), v(0)]));
    st.add_simplex(&Simplex::new(vec![v(2), v(1)]));
    st.add_simplex(&Simplex::new(vec![v(3), v(2)]));
    st.add_simplex(&Simplex::new(vec![v(3), v(0)]));
    assert_eq!(compute_homology(&st, 1), 1);
}

#[test]
fn checked_homology_agrees_where_the_number_exists() {
    let circle = inductive(&complete(3), 2, 0);
    assert_eq!(checked_homology(&circle.0, 1), Some(1));
    let full = inductive(&complete(4), 4, 0);
    for p in 1..5 {
        assert_eq!(checked_homology(&full.0, p), Some(0));
    }
}

#[test]
fn checked_homology_refuses_what_is_no_complex() {
    // A triangle with one of its edges and one of its points only: the one
    // edge is a boundary that encloses nothing.
    let v = |i: usize| Vertex::new(i, 0);
    let mut st = SimplexTrie::new();
    st.add_simplex(&Simplex::new(vec![v(2), v(1), v(0)]));
    assert_eq!(checked_homology(&st, 1), None);
    assert_eq!(checked_homology(&st, 2), Some(0));
}

#[test]
fn complete_graph_reduces_to_one_component() {
    // The matrix of the vertices and the edges of a complete graph has a
    // rank of one less than the number of vertices.
    for n in 1..8 {
        let complex = inductive(&complete(n), 2, 0);
        let mut mat = boundary(&complex.0, 1);
        assert_eq!(mat.dim(), (n, n * (n - 1) / 2));
        reduce_z2(&mut mat, 0);
        let (rows, cols) = mat.dim();
        let mut ones = 0;
        for i in 0..rows.min(cols) {
            if mat.get(i, i).unwrap() % 2 == 1 {
                ones += 1;
            }
        }
        assert_eq!(ones, n - 1);
    }
}
