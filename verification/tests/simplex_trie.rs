use tda::simplex::{Simplex, Vertex};
use tda::simplex_trie::{SimplexTrie, TrieArena};

#[test]
fn test_triearena_add_contains() {
    let mut trie: TrieArena<Vertex> = TrieArena::new();

    // 0-degree simplex at the root.
    let simplex = Simplex::new(vec![Vertex::new(1, 0)]);
    trie.add(simplex.vertices());
    assert_eq!(trie.contains(simplex.vertices()), true);

    // 0-degree simplex not contained within the trie.
    let simplex = Simplex::new(vec![Vertex::new(2, 0)]);
    assert_eq!(trie.contains(simplex.vertices()), false);

    // 2-degree simplex.
    let simplex = Simplex::new(vec![
        Vertex::new(1, 0),
        Vertex::new(2, 1),
        Vertex::new(3, 1),
    ]);
    trie.add(simplex.vertices());
    assert_eq!(trie.contains(simplex.vertices()), true);

    // 1-degree simplex contained within the above 3-degree simplex.
    let simplex = Simplex::new(vec![Vertex::new(1, 0), Vertex::new(2, 1)]);
    assert_eq!(trie.contains(simplex.vertices()), true);
}

#[test]
fn test_simplex_triearena_iter() {
    let mut st = SimplexTrie::new_skel(10);
    let smplx_1 = Simplex::new(vec![Vertex::new(1, 0), Vertex::new(2, 3)]);
    st.add_simplex(&smplx_1);

    // 11-simplices (10 0-skel, 1 1-skel).
    let mut st_iter = st.into_iter();
    for _ in 0..11 {
        assert_eq!(st_iter.next().is_some(), true);
    }

    assert_eq!(st_iter.next().is_some(), false);
}

#[test]
fn test_simplex_trie_iter_dim_0_skel() {
    let st = SimplexTrie::new_skel(10);
    let mut st_iter = st.iter_dim(0);

    // Iteration on the dimension 0, should return 10 entries.
    for i in 0..10 {
        let value = st_iter.next();
        assert_eq!(value.is_some(), true);
        assert_eq!(value.unwrap(), Simplex::new(vec![Vertex::new(i, 0)]));
    }

    // No more simplices.
    assert_eq!(st_iter.next().is_none(), true);
}

#[test]
fn test_simplex_trie_iter_dim_1_skel() {
    let mut st = SimplexTrie::new_skel(10);

    let smplx_1 = Simplex::new(vec![Vertex::new(1, 0), Vertex::new(2, 3)]);
    st.add_simplex(&smplx_1);
    let smplx_2 = Simplex::new(vec![
        Vertex::new(1, 0),
        Vertex::new(2, 3),
        Vertex::new(3, 4),
    ]);
    st.add_simplex(&smplx_2);

    let mut st_iter = st.iter_dim(1);

    // There should be a single 1-simplex, (1, 2).
    let value = st_iter.next();
    assert_eq!(value.is_some(), true);
    assert_eq!(value.unwrap(), smplx_1);

    // No more simplices should be returned.
    assert_eq!(st_iter.next().is_none(), true);
}

fn all(st: &SimplexTrie) -> Vec<Simplex> {
    let mut out = vec![];
    let mut it = st.into_iter();
    while let Some(s) = it.next() {
        out.push(s);
    }
    out
}

#[test]
fn empty_trie_holds_the_empty_path_only() {
    let st = SimplexTrie::new();
    assert_eq!(st.levels(), 1);
    assert_eq!(st.count_dim(0), 0);
    assert_eq!(st.count_dim(3), 0);
    assert!(st.contains_simplex(&Simplex::new(vec![])));
    assert!(!st.contains_simplex(&Simplex::new(vec![Vertex::new(0, 0)])));
    assert!(st.into_iter().next().is_none());
    assert!(st.iter_dim(0).next().is_none());
    assert!(st.iter_dim(7).next().is_none());
    let d = SimplexTrie::default();
    assert_eq!(d.levels(), 1);
    assert_eq!(d.count_dim(0), 0);
}

#[test]
fn pure_skeleton_has_points_only() {
    let st = SimplexTrie::new_skel(6);
    assert_eq!(st.count_dim(0), 6);
    for d in 1..5 {
        assert_eq!(st.count_dim(d), 0);
        assert!(st.iter_dim(d).next().is_none());
    }
    assert_eq!(all(&st).len(), 6);
}

#[test]
fn add_stores_every_prefix_once() {
    let mut st = SimplexTrie::new();
    let a = Vertex::new(4, 0);
    let b = Vertex::new(2, 1);
    let c = Vertex::new(1, 1);
    st.add_simplex(&Simplex::new(vec![a, b, c]));
    assert_eq!(st.levels(), 3);
    assert_eq!(st.count_dim(0), 1);
    assert_eq!(st.count_dim(1), 1);
    assert_eq!(st.count_dim(2), 1);
    assert!(st.contains_simplex(&Simplex::new(vec![a])));
    assert!(st.contains_simplex(&Simplex::new(vec![a, b])));
    assert!(st.contains_simplex(&Simplex::new(vec![a, b, c])));
    // Not a prefix: not stored.
    assert!(!st.contains_simplex(&Simplex::new(vec![b])));
    assert!(!st.contains_simplex(&Simplex::new(vec![a, c])));
    assert!(!st.contains_simplex(&Simplex::new(vec![b, a])));
    // Adding again changes nothing.
    st.add_simplex(&Simplex::new(vec![a, b, c]));
    st.add_simplex(&Simplex::new(vec![a, b]));
    assert_eq!(st.count_dim(0), 1);
    assert_eq!(st.count_dim(1), 1);
    assert_eq!(st.count_dim(2), 1);
    // A sibling shares the prefix.
    st.add_simplex(&Simplex::new(vec![a, c]));
    assert_eq!(st.count_dim(0), 1);
    assert_eq!(st.count_dim(1), 2);
    assert_eq!(st.simplex_at(1, 0), Simplex::new(vec![a, b]));
    assert_eq!(st.simplex_at(1, 1), Simplex::new(vec![a, c]));
    assert_eq!(st.simplex_at(2, 0), Simplex::new(vec![a, b, c]));
}

#[test]
fn iteration_goes_by_dimension_in_insertion_order() {
    let mut st = SimplexTrie::new();
    let v = |i: usize| Vertex::new(i, 0);
    st.add_simplex(&Simplex::new(vec![v(2), v(1)]));
    st.add_simplex(&Simplex::new(vec![v(0)]));
    st.add_simplex(&Simplex::new(vec![v(2), v(0)]));
    st.add_simplex(&Simplex::new(vec![v(2), v(1), v(0)]));
    let got = all(&st);
    let want = vec![
        Simplex::new(vec![v(2)]),
        Simplex::new(vec![v(0)]),
        Simplex::new(vec![v(2), v(1)]),
        Simplex::new(vec![v(2), v(0)]),
        Simplex::new(vec![v(2), v(1), v(0)]),
    ];
    assert_eq!(got, want);
    let mut it = st.iter_dim(1);
    assert_eq!(it.next(), Some(Simplex::new(vec![v(2), v(1)])));
    assert_eq!(it.next(), Some(Simplex::new(vec![v(2), v(0)])));
    assert_eq!(it.next(), None);
    assert_eq!(it.next(), None);
}

#[test]
fn arena_tells_values_with_other_weights_apart() {
    let mut trie: TrieArena<Vertex> = TrieArena::new();
    trie.add(&[Vertex::new(1, 0), Vertex::new(2, 0)]);
    assert!(trie.contains(&[]));
    assert!(trie.contains(&[Vertex::new(1, 0)]));
    assert!(!trie.contains(&[Vertex::new(1, 1)]));
    assert!(!trie.contains(&[Vertex::new(1, 0), Vertex::new(2, 1)]));
    trie.add(&[]);
    assert!(trie.contains(&[Vertex::new(1, 0), Vertex::new(2, 0)]));
}
