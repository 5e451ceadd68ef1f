use tda::simplex::{Simplex, Vertex};

#[test]
fn test_vertex_fmt() {
    let vertex = Vertex::new(1, 2);
    assert_eq!(vertex.to_string(), "(1, 2)");
}

#[test]
fn test_simplex_weight() {
    let simplex = Simplex::new(vec![Vertex::new(1, 5), Vertex::new(2, 3), Vertex::new(5, 1)]);
    assert_eq!(simplex.weight(), 5);
}

#[test]
fn test_simplex_dimension() {
    let simplex = Simplex::new(vec![Vertex::new(1, 5), Vertex::new(2, 3), Vertex::new(5, 1)]);
    assert_eq!(simplex.dim(), 2);
}

#[test]
fn test_simplex_iterator() {
    let simplex = Simplex::new(vec![Vertex::new(1, 0), Vertex::new(2, 3), Vertex::new(5, 1)]);
    let mut iter = simplex.into_iter();
    assert_eq!(iter.next(), Some(Vertex::new(1, 0)));
    assert_eq!(iter.next(), Some(Vertex::new(2, 3)));
    assert_eq!(iter.next(), Some(Vertex::new(5, 1)));
    assert_eq!(iter.next(), None);
}

#[test]
fn test_simplex_ref_iterator() {
    let simplex = &Simplex::new(vec![Vertex::new(1, 0), Vertex::new(2, 3), Vertex::new(5, 1)]);
    let mut iter = simplex.into_iter();
    assert_eq!(iter.next(), Some(&Vertex::new(1, 0)));
    assert_eq!(iter.next(), Some(&Vertex::new(2, 3)));
    assert_eq!(iter.next(), Some(&Vertex::new(5, 1)));
    assert_eq!(iter.next(), None);
}

#[test]
fn test_simplex_fmt() {
    let simplex = Simplex::new(vec![Vertex::new(1, 0), Vertex::new(2, 1), Vertex::new(5, 2)]);
    assert_eq!(
        simplex.to_string(),
        "Simplex((1, 0), (2, 1), (5, 2), weight: 2)"
    );
}

#[test]
fn test_simplex_is_face() {
    // 0-skeleton case.
    let simplex_a = Simplex::new(vec![Vertex::new(1, 0)]);
    let simplex_b = Simplex::new(vec![Vertex::new(2, 0)]);
    assert_eq!(simplex_a.is_face(&simplex_b), false);

    // 1-skeleton false case.
    let simplex_a = Simplex::new(vec![Vertex::new(1, 0)]);
    let simplex_b = Simplex::new(vec![Vertex::new(2, 0), Vertex::new(3, 0)]);
    assert_eq!(simplex_a.is_face(&simplex_b), false);

    // 1-skeleton true case.
    let simplex_a = Simplex::new(vec![Vertex::new(1, 0)]);
    let simplex_b = Simplex::new(vec![Vertex::new(1, 0), Vertex::new(3, 0)]);
    assert_eq!(simplex_a.is_face(&simplex_b), true);
}

#[test]
fn vertex_accessors_and_default() {
    let v = Vertex::new(7, 3);
    assert_eq!(v.id(), 7);
    assert_eq!(v.weight(), 3);
    assert_eq!(Vertex::default(), Vertex::new(0, 0));
}

#[test]
fn vertex_order_is_weight_then_id() {
    assert!(Vertex::new(9, 1) < Vertex::new(0, 2));
    assert!(Vertex::new(1, 2) < Vertex::new(3, 2));
    assert!(Vertex::new(3, 2) > Vertex::new(1, 2));
    assert!(Vertex::new(3, 2) <= Vertex::new(3, 2));
    assert!(Vertex::new(3, 2) != Vertex::new(3, 1));
    assert!(!(Vertex::new(0, 2) < Vertex::new(9, 1)));
}

#[test]
fn vertex_text_has_every_digit() {
    assert_eq!(Vertex::new(0, 10).to_string(), "(0, 10)");
    assert_eq!(Vertex::new(1234567890, 909).to_string(), "(1234567890, 909)");
}

#[test]
fn simplex_weight_of_one_vertex() {
    assert_eq!(Simplex::new(vec![Vertex::new(4, 9)]).weight(), 9);
    assert_eq!(Simplex::new(vec![Vertex::new(4, 9)]).dim(), 0);
    assert_eq!(
        Simplex::new(vec![Vertex::new(1, 2), Vertex::new(2, 7), Vertex::new(3, 7)]).weight(),
        7
    );
}

#[test]
fn simplex_equality_is_order_sensitive() {
    let a = Simplex::new(vec![Vertex::new(1, 0), Vertex::new(2, 0)]);
    let b = Simplex::new(vec![Vertex::new(2, 0), Vertex::new(1, 0)]);
    let c = Simplex::new(vec![Vertex::new(1, 0), Vertex::new(2, 0)]);
    assert!(a != b);
    assert!(a == c);
    assert!(a != Simplex::new(vec![Vertex::new(1, 0)]));
    assert_eq!(a.clone(), c);
}

#[test]
fn simplex_face_looks_at_weights_and_sizes() {
    let edge = Simplex::new(vec![Vertex::new(1, 0), Vertex::new(2, 0)]);
    let tri = Simplex::new(vec![Vertex::new(1, 0), Vertex::new(2, 0), Vertex::new(3, 0)]);
    let point = Simplex::new(vec![Vertex::new(1, 0)]);
    assert!(edge.is_face(&tri));
    assert!(!point.is_face(&tri));
    assert!(!tri.is_face(&edge));
    assert!(!tri.is_face(&tri));
    // The same id with another weight is another vertex.
    let heavy = Simplex::new(vec![Vertex::new(1, 1), Vertex::new(2, 0)]);
    assert!(!heavy.is_face(&tri));
    // The order of the vertices does not count.
    let turned = Simplex::new(vec![Vertex::new(3, 0), Vertex::new(1, 0)]);
    assert!(turned.is_face(&tri));
}

#[test]
fn simplex_with_vertex_appends() {
    let edge = Simplex::new(vec![Vertex::new(5, 0), Vertex::new(2, 1)]);
    let tri = edge.with_vertex(Vertex::new(0, 1));
    assert_eq!(
        tri.vertices(),
        &[Vertex::new(5, 0), Vertex::new(2, 1), Vertex::new(0, 1)]
    );
    assert_eq!(edge.vertices().len(), 2);
}
