use tda::dense::DenseMatrix;
use tda::graph::Graph;
use tda::matrix::Matrix;
use tda::simplex::{Simplex, Vertex};
use tda::simplex_trie::SimplexTrie;
use tda::vietoris_rips::inductive;

#[test]
fn test_simplicial_complex_to_graph() {
    let mut adj: DenseMatrix<bool> = DenseMatrix::new(4, 4);
    for i in 0..4 {
        for j in 0..4 {
            adj.set(i, j, (i + j) % 2 == 1);
        }
    }
    let complex = inductive(&adj, 3, 0);
    let g = Graph::from_complex(&complex.0);
    assert_eq!(g.nodes, vec![0, 1, 2, 3]);
    // Each edge has its lower vertex first.
    assert_eq!(g.edges, vec![(0, 1), (1, 2), (0, 3), (2, 3)]);
    assert_eq!(g.weights, vec![0, 0, 0, 0]);
}

#[test]
fn graph_orders_an_edge_by_weight_first() {
    let mut st = SimplexTrie::new_skel(3);
    // Vertex 2 has weight 0 and vertex 0 has weight 4: 2 comes first.
    st.add_simplex(&Simplex::new(vec![Vertex::new(2, 0), Vertex::new(0, 4)]));
    // Equal weights: the lower id comes first.
    st.add_simplex(&Simplex::new(vec![Vertex::new(2, 0), Vertex::new(1, 0)]));
    let g = Graph::from_complex(&st);
    assert_eq!(g.nodes, vec![0, 1, 2]);
    assert_eq!(g.edges, vec![(2, 0), (1, 2)]);
    assert_eq!(g.weights, vec![0, 0]);
}

#[test]
fn graph_keeps_one_edge_and_the_last_weight() {
    let mut st = SimplexTrie::new();
    st.add_simplex(&Simplex::new(vec![Vertex::new(5, 3), Vertex::new(7, 9)]));
    st.add_simplex(&Simplex::new(vec![Vertex::new(5, 3)]));
    // The same edge again, from other weights.
    st.add_simplex(&Simplex::new(vec![Vertex::new(7, 2), Vertex::new(5, 1)]));
    // A triangle is no edge.
    st.add_simplex(&Simplex::new(vec![
        Vertex::new(7, 2),
        Vertex::new(5, 1),
        Vertex::new(6, 1),
    ]));
    let g = Graph::from_complex(&st);
    assert_eq!(g.nodes, vec![5, 7]);
    assert_eq!(g.edges, vec![(5, 7)]);
    assert_eq!(g.weights, vec![1]);
}

#[test]
fn graph_of_an_empty_complex_is_empty() {
    let g = Graph::from_complex(&SimplexTrie::new());
    assert!(g.nodes.is_empty());
    assert!(g.edges.is_empty());
    assert!(g.weights.is_empty());
}
