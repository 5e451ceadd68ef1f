use tda::dense::DenseMatrix;
use tda::matrix::Matrix;
use tda::simplex::{Simplex, Vertex};
use tda::sparse::SparseMatrix;
use tda::vietoris_rips::{inductive, lower_nbrs, VRAlgorithm, VietorisRips};

fn alternating(n: usize) -> DenseMatrix<bool> {
    let mut adj: DenseMatrix<bool> = DenseMatrix::new(n, n);
    // An adjacency matrix with alternating true/false values.
    for i in 0..n {
        for j in 0..n {
            adj.set(
                i,
                j,
                match (i + j) % 2 {
                    0 => false,
                    1 => true,
                    _ => unreachable!(),
                },
            );
        }
    }
    adj
}

fn complete(n: usize) -> DenseMatrix<bool> {
    let mut adj: DenseMatrix<bool> = DenseMatrix::new(n, n);
    for i in 0..n {
        for j in 0..n {
            adj.set(i, j, i != j);
        }
    }
    adj
}

fn path(ids: &[usize], weight: usize) -> Simplex {
    let mut v = vec![];
    for (k, id) in ids.iter().enumerate() {
        v.push(Vertex::new(*id, if k == 0 { 0 } else { weight }));
    }
    Simplex::new(v)
}

#[test]
fn test_lower_nbrs() {
    let adj = alternating(10);

    // 0 == false.
    let ln = lower_nbrs(&adj, &Vertex::new(0, 0));
    assert_eq!(ln, vec![]);

    // (9 + even) % 2 == true.
    let ln = lower_nbrs(&adj, &Vertex::new(9, 0));
    assert_eq!(ln, vec![0, 2, 4, 6, 8]);

    // (4 + odd) % 2 == true.
    let ln = lower_nbrs(&adj, &Vertex::new(4, 0));
    assert_eq!(ln, vec![1, 3]);
}

#[test]
fn test_inductive() {
    let adj = alternating(4);

    let complex = inductive(&adj, 3, 0);

    // The 0-skeleton should be within the complex.
    for i in 0..4 {
        let smplx = Simplex::new(vec![Vertex::new(i, 0)]);
        assert_eq!(complex.0.contains_simplex(&smplx), true);
    }

    //   0 1 2 3
    // 0 0 1 0 1
    // 1 1 0 1 0
    // 2 0 1 0 1
    // 3 1 0 1 0
    let smplx = Simplex::new(vec![Vertex::new(1, 0), Vertex::new(0, 0)]);
    assert_eq!(complex.0.contains_simplex(&smplx), true);

    let smplx = Simplex::new(vec![Vertex::new(3, 0), Vertex::new(2, 0)]);
    assert_eq!(complex.0.contains_simplex(&smplx), true);

    let smplx = Simplex::new(vec![Vertex::new(3, 0), Vertex::new(0, 0)]);
    assert_eq!(complex.0.contains_simplex(&smplx), true);
}

#[test]
fn test_inductive_subset() {
    let mut adj: DenseMatrix<bool> = DenseMatrix::new(10, 10);
    // An adjacency matrix with alternating true/false values.
    for i in 0..10 {
        for j in 0..10 {
            adj.set(
                i,
                j,
                match (i * j) % 2 {
                    0 => false,
                    1 => true,
                    _ => unreachable!(),
                },
            );
        }
    }

    // complex_1 should be a subset of complex_2.
    let complex_1 = inductive(&adj, 4, 0);
    let complex_2 = inductive(&adj, 5, 0);

    let mut seen = 0;
    let mut it = complex_1.0.into_iter();
    while let Some(smplx) = it.next() {
        assert_eq!(complex_2.0.contains_simplex(&smplx), true);
        seen += 1;
    }
    // 10 points, and the cliques of the five odd vertices (self-loops do
    // not count): 10 edges, 10 triangles, 5 tetrahedra.
    assert_eq!(seen, 35);
    assert_eq!(complex_2.0.count_dim(4), 1);
    assert_eq!(complex_1.0.count_dim(4), 0);
}

#[test]
fn lower_nbrs_are_below_the_vertex() {
    let adj = complete(7);
    for v in 0..7 {
        let ln = lower_nbrs(&adj, &Vertex::new(v, 0));
        assert_eq!(ln, (0..v).collect::<Vec<usize>>());
        for u in ln {
            assert!(u < v);
        }
    }
    // A vertex that is no row of the matrix has no neighbors.
    assert_eq!(lower_nbrs(&adj, &Vertex::new(7, 0)), vec![]);
}

#[test]
fn lower_nbrs_skip_self_loops_and_unset_cells() {
    let mut adj: SparseMatrix<bool> = SparseMatrix::new(4, 4);
    adj.set(3, 3, true);
    adj.set(3, 1, true);
    adj.set(3, 0, false);
    adj.set(1, 3, true);
    assert_eq!(lower_nbrs(&adj, &Vertex::new(3, 0)), vec![1]);
    assert_eq!(lower_nbrs(&adj, &Vertex::new(1, 0)), vec![]);
}

#[test]
fn alternating_complex_is_exactly_points_and_edges() {
    let complex = inductive(&alternating(4), 3, 0);
    assert_eq!(complex.1, 3);
    assert_eq!(complex.0.count_dim(0), 4);
    assert_eq!(complex.0.count_dim(1), 4);
    assert_eq!(complex.0.count_dim(2), 0);
    assert_eq!(complex.0.simplex_at(1, 0), path(&[1, 0], 0));
    assert_eq!(complex.0.simplex_at(1, 1), path(&[2, 1], 0));
    assert_eq!(complex.0.simplex_at(1, 2), path(&[3, 0], 0));
    assert_eq!(complex.0.simplex_at(1, 3), path(&[3, 2], 0));
    // An edge is stored from its higher vertex down, never upwards.
    assert!(!complex.0.contains_simplex(&path(&[0, 1], 0)));
    assert!(!complex.0.contains_simplex(&path(&[2, 0], 0)));
}

#[test]
fn dimension_bound_and_weight() {
    let adj = complete(4);
    // With bound 0 or 1 the complex is the 0-skeleton.
    for dim in 0..2 {
        let c = inductive(&adj, dim, 5);
        assert_eq!(c.0.count_dim(0), 4);
        assert_eq!(c.0.count_dim(1), 0);
    }
    let c = inductive(&adj, 3, 5);
    assert_eq!(c.0.count_dim(0), 4);
    assert_eq!(c.0.count_dim(1), 6);
    assert_eq!(c.0.count_dim(2), 4);
    assert_eq!(c.0.count_dim(3), 0);
    // The first vertex has weight 0, the glued ones the weight given.
    assert!(c.0.contains_simplex(&path(&[3, 2, 0], 5)));
    assert!(!c.0.contains_simplex(&path(&[3, 2, 0], 0)));
    assert!(!c.0.contains_simplex(&path(&[3, 2, 1, 0], 5)));
    let full = inductive(&adj, 9, 5);
    assert_eq!(full.0.count_dim(3), 1);
    assert_eq!(full.0.count_dim(4), 0);
    assert!(full.0.contains_simplex(&path(&[3, 2, 1, 0], 5)));
}

#[test]
fn no_points_no_simplices() {
    let adj: DenseMatrix<bool> = DenseMatrix::new(0, 0);
    let c = inductive(&adj, 3, 0);
    assert_eq!(c.0.count_dim(0), 0);
    assert!(c.0.into_iter().next().is_none());
}

#[test]
fn every_simplex_has_its_prefix() {
    let c = inductive(&alternating(8), 4, 2);
    let mut it = c.0.into_iter();
    let mut seen = 0;
    while let Some(s) = it.next() {
        let v = s.vertices();
        if v.len() >= 2 {
            let face = Simplex::new(v[..v.len() - 1].to_vec());
            assert!(c.0.contains_simplex(&face));
            seen += 1;
        }
    }
    assert_eq!(seen, 16);
}

#[test]
fn two_runs_give_the_same_layout() {
    let a = inductive(&complete(5), 4, 1);
    let b = VietorisRips::compute(Some(VRAlgorithm::Inductive), &complete(5), 4, 1);
    let c = VietorisRips::compute(None, &complete(5), 4, 1);
    for d in 0..5 {
        assert_eq!(a.0.count_dim(d), b.0.count_dim(d));
        assert_eq!(a.0.count_dim(d), c.0.count_dim(d));
        for k in 0..a.0.count_dim(d) {
            assert_eq!(a.0.simplex_at(d, k), b.0.simplex_at(d, k));
            assert_eq!(a.0.simplex_at(d, k), c.0.simplex_at(d, k));
        }
    }
    assert_eq!(a.0.count_dim(1), 10);
    assert_eq!(a.0.count_dim(2), 10);
    assert_eq!(a.0.count_dim(3), 5);
}
