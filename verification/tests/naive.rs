use tda::dense::DenseMatrix;
use tda::matrix::Matrix;
use tda::naive::{inductive, lower_nbrs, Simplex};

fn adjacency(n: usize, f: fn(usize, usize) -> bool) -> DenseMatrix<bool> {
    let mut adj: DenseMatrix<bool> = DenseMatrix::new(n, n);
    for i in 0..n {
        for j in 0..n {
            adj.set(i, j, f(i, j));
        }
    }
    adj
}

fn ids(list: &[Simplex]) -> Vec<Vec<usize>> {
    list.iter().map(|s| s.vertices.clone()).collect()
}

#[test]
fn naive_lower_nbrs_on_alternating_adjacency() {
    let adj = adjacency(10, |i, j| (i + j) % 2 == 1);
    assert_eq!(lower_nbrs(&adj, 9), vec![0, 2, 4, 6, 8]);
    assert_eq!(lower_nbrs(&adj, 0), vec![]);
    assert_eq!(lower_nbrs(&adj, 4), vec![1, 3]);
}

#[test]
fn naive_complex_lists_each_dimension() {
    let adj = adjacency(4, |i, j| i != j);
    let sc = inductive(&adj, 3);
    assert_eq!(sc.simplices.len(), 3);
    assert_eq!(ids(&sc.simplices[0]), vec![vec![0], vec![1], vec![2], vec![3]]);
    assert_eq!(
        ids(&sc.simplices[1]),
        vec![
            vec![1, 0],
            vec![2, 0],
            vec![2, 1],
            vec![3, 0],
            vec![3, 1],
            vec![3, 2]
        ]
    );
    assert_eq!(
        ids(&sc.simplices[2]),
        vec![vec![2, 1, 0], vec![3, 1, 0], vec![3, 2, 0], vec![3, 2, 1]]
    );
}

#[test]
fn naive_complex_has_a_list_for_every_dimension_asked() {
    let adj = adjacency(3, |_, _| false);
    let sc = inductive(&adj, 4);
    assert_eq!(sc.simplices.len(), 4);
    assert_eq!(sc.simplices[0].len(), 3);
    for d in 1..4 {
        assert!(sc.simplices[d].is_empty());
    }
    let least = inductive(&adj, 0);
    assert_eq!(least.simplices.len(), 1);
    assert_eq!(least.simplices[0].len(), 3);
}

#[test]
fn naive_simplices_compare_by_their_vertices() {
    let a = Simplex { vertices: vec![2, 1] };
    let b = Simplex { vertices: vec![1, 2] };
    assert!(a != b);
    assert!(a == a.clone());
    assert!(a != Simplex { vertices: vec![2] });
}
