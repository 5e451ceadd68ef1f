//! The graph of a simplicial complex: its points and its edges, as a
//! drawing of the 1-skeleton needs them.
use crate::seqs::{has, lemma_push_contains};
use crate::simplex::Vertex;
use crate::simplex_trie::{level, levels_wf, SimplexTrie};
use vstd::prelude::*;

verus! {

/// The nodes of a graph, its edges, and for each edge, at the same index,
/// its weight.
#[derive(Debug)]
pub struct Graph {
    pub nodes: Vec<usize>,
    pub edges: Vec<(usize, usize)>,
    pub weights: Vec<usize>,
}

/// `a` comes before `b`: by weight first, then by id.
pub open spec fn vertex_lt(a: Vertex, b: Vertex) -> bool {
    a.1 < b.1 || (a.1 == b.1 && a.0 < b.0)
}

/// The edge that a 1-simplex stands for: the ids of its two vertices, the
/// one of the lesser vertex first.
pub open spec fn edge_of(s: Seq<Vertex>) -> (usize, usize) {
    if vertex_lt(s[0], s[1]) {
        (s[0].0, s[1].0)
    } else {
        (s[1].0, s[0].0)
    }
}

/// The weight of the edge that a 1-simplex stands for: that of the lesser of
/// its two vertices.
pub open spec fn edge_weight(s: Seq<Vertex>) -> usize {
    if vertex_lt(s[0], s[1]) {
        s[0].1
    } else {
        s[1].1
    }
}

/// `n` is the id of one of the first `k` of the 0-simplices `points`.
pub open spec fn is_node(points: Seq<Seq<Vertex>>, k: int, n: usize) -> bool {
    exists|i: int| 0 <= i < k && i < points.len() && (#[trigger] points[i])[0].0 == n
}

/// `e` is the edge of one of the first `k` of the 1-simplices `lines`.
pub open spec fn is_edge(lines: Seq<Seq<Vertex>>, k: int, e: (usize, usize)) -> bool {
    exists|i: int| 0 <= i < k && i < lines.len() && edge_of(#[trigger] lines[i]) == e
}

/// `w` is the weight that the last of the first `k` of the 1-simplices
/// `lines` with the edge `e` gives to it.
pub open spec fn is_last_weight(lines: Seq<Seq<Vertex>>, k: int, e: (usize, usize), w: usize) -> bool {
    exists|i: int|
        0 <= i < k && i < lines.len() && edge_of(#[trigger] lines[i]) == e && edge_weight(lines[i])
            == w && forall|j: int| i < j < k && j < lines.len() ==> edge_of(#[trigger] lines[j]) != e
}

impl Graph {
    /// The graph of a complex. Its nodes are the ids of the 0-simplices, each
    /// once. Its edges are those of the 1-simplices, each once; where several
    /// 1-simplices stand for one edge, the last of them gives the weight.
    pub fn from_complex(complex: &SimplexTrie) -> (g: Graph)
        requires
            complex.wf(),
        ensures
            g.nodes@.no_duplicates(),
            forall|n: usize|
                g.nodes@.contains(n) <==> is_node(
                    level(complex@, 0),
                    level(complex@, 0).len() as int,
                    n,
                ),
            g.edges@.no_duplicates(),
            forall|e: (usize, usize)|
                g.edges@.contains(e) <==> is_edge(
                    level(complex@, 1),
                    level(complex@, 1).len() as int,
                    e,
                ),
            g.weights@.len() == g.edges@.len(),
            forall|i: int|
                0 <= i < g.edges@.len() ==> is_last_weight(
                    level(complex@, 1),
                    level(complex@, 1).len() as int,
                    #[trigger] g.edges@[i],
                    g.weights@[i],
                ),
    {
        let ghost points = level(complex@, 0);
        let ghost lines = level(complex@, 1);
        proof {
            complex.lemma_levels_wf();
        }
        let mut nodes: Vec<usize> = Vec::new();
        let n0: usize = complex.count_dim(0);
        let mut k: usize = 0;
        while k < n0
            invariant
                complex.wf(),
                levels_wf(complex@),
                points == level(complex@, 0),
                n0 == points.len(),
                k <= n0,
                nodes@.no_duplicates(),
                forall|n: usize| nodes@.contains(n) <==> is_node(points, k as int, n),
            decreases n0 - k,
        {
            let simplex = complex.simplex_at(0, k);
            proof {
                assert(complex@[0][k as int].len() == 1);
            }
            let id: usize = simplex.vertices()[0].id();
            let ghost before = nodes@;
            let known: bool = has(&nodes, id);
            if !known {
                nodes.push(id);
            }
            proof {
                assert forall|n: usize| nodes@.contains(n) <==> is_node(points, k + 1, n) by {
                    if !known {
                        lemma_push_contains(before, id, n);
                    }
                    if is_node(points, k + 1, n) {
                        let i = choose|i: int|
                            0 <= i < k + 1 && i < points.len() && (#[trigger] points[i])[0].0 == n;
                        if i < k {
                            assert(is_node(points, k as int, n));
                        }
                    }
                    if is_node(points, k as int, n) {
                        let i = choose|i: int|
                            0 <= i < k && i < points.len() && (#[trigger] points[i])[0].0 == n;
                        assert(is_node(points, k + 1, n));
                    }
                    if n == id {
                        assert(points[k as int][0].0 == n);
                        assert(is_node(points, k + 1, n));
                    }
                }
            }
            k += 1;
        }
        let mut edges: Vec<(usize, usize)> = Vec::new();
        let mut weights: Vec<usize> = Vec::new();
        let n1: usize = complex.count_dim(1);
        let mut k: usize = 0;
        while k < n1
            invariant
                complex.wf(),
                levels_wf(complex@),
                lines == level(complex@, 1),
                n1 == lines.len(),
                k <= n1,
                edges@.no_duplicates(),
                weights@.len() == edges@.len(),
                forall|e: (usize, usize)| edges@.contains(e) <==> is_edge(lines, k as int, e),
                forall|i: int|
                    0 <= i < edges@.len() ==> is_last_weight(
                        lines,
                        k as int,
                        #[trigger] edges@[i],
                        weights@[i],
                    ),
            decreases n1 - k,
        {
            let simplex = complex.simplex_at(1, k);
            proof {
                assert(complex@[1][k as int].len() == 2);
            }
            let a: Vertex = simplex.vertices()[0];
            let b: Vertex = simplex.vertices()[1];
            // Order the vertices.
            let (e, w): ((usize, usize), usize) = if a < b {
                ((a.id(), b.id()), a.weight())
            } else {
                ((b.id(), a.id()), b.weight())
            };
            proof {
                assert(e == edge_of(lines[k as int]));
                assert(w == edge_weight(lines[k as int]));
            }
            let ghost old_edges = edges@;
            let ghost old_weights = weights@;
            let at: Option<usize> = find_edge(&edges, e);
            match at {
                Some(ix) => {
                    weights.set(ix, w);
                },
                None => {
                    edges.push(e);
                    weights.push(w);
                },
            }
            proof {
                assert forall|f: (usize, usize)| edges@.contains(f) <==> is_edge(lines, k + 1, f) by {
                    if at is None {
                        lemma_push_contains(old_edges, e, f);
                    }
                    if is_edge(lines, k + 1, f) {
                        let i = choose|i: int|
                            0 <= i < k + 1 && i < lines.len() && edge_of(#[trigger] lines[i]) == f;
                        if i < k {
                            assert(is_edge(lines, k as int, f));
                        }
                    }
                    if is_edge(lines, k as int, f) {
                        let i = choose|i: int|
                            0 <= i < k && i < lines.len() && edge_of(#[trigger] lines[i]) == f;
                        assert(is_edge(lines, k + 1, f));
                    }
                    if f == e {
                        assert(edge_of(lines[k as int]) == f);
                        assert(is_edge(lines, k + 1, f));
                    }
                }
                assert forall|i: int| 0 <= i < edges@.len() implies is_last_weight(
                    lines,
                    k + 1,
                    #[trigger] edges@[i],
                    weights@[i],
                ) by {
                    if edges@[i] == e {
                        assert(edge_of(lines[k as int]) == e && edge_weight(lines[k as int]) == w);
                        assert(weights@[i] == w) by {
                            if at is Some {
                                assert(old_edges[at.unwrap() as int] == e);
                                assert(old_edges[i] == e);
                            }
                        }
                    } else {
                        assert(old_edges[i] == edges@[i]);
                        assert(old_weights[i] == weights@[i]);
                        assert(is_last_weight(lines, k as int, old_edges[i], old_weights[i]));
                        let f = edges@[i];
                        let u = weights@[i];
                        let m = choose|m: int|
                            0 <= m < k && m < lines.len() && edge_of(#[trigger] lines[m]) == f
                                && edge_weight(lines[m]) == u && forall|j: int|
                                m < j < k && j < lines.len() ==> edge_of(#[trigger] lines[j]) != f;
                        assert forall|j: int| m < j < k + 1 && j < lines.len() implies edge_of(
                            #[trigger] lines[j],
                        ) != f by {}
                    }
                }
            }
            k += 1;
        }
        Graph { nodes, edges, weights }
    }
}

/// Where `e` stands among `edges`, if it does.
fn find_edge(edges: &Vec<(usize, usize)>, e: (usize, usize)) -> (r: Option<usize>)
    ensures
        match r {
            Some(i) => i < edges@.len() && edges@[i as int] == e,
            None => !edges@.contains(e),
        },
{
    let mut i: usize = 0;
    while i < edges.len()
        invariant
            i <= edges@.len(),
            forall|k: int| 0 <= k < i ==> edges@[k] != e,
        decreases edges@.len() - i,
    {
        if edges[i].0 == e.0 && edges[i].1 == e.1 {
            return Some(i);
        }
        i += 1;
    }
    None
}

} // verus!
