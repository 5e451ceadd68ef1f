//! The Vietoris-Rips complex of a neighborhood graph, built dimension by
//! dimension from the sets of lower neighbors.
mod progress;

use crate::matrix::Matrix;
use crate::seqs::{has, lemma_push_contains};
use self::progress::{
    exactly, holds_upto, lemma_layout_step, lemma_midway_end, lemma_midway_next,
    lemma_midway_rebase, lemma_midway_start, lemma_midway_step, lemma_skeleton_holds, lists,
    midway, views, within,
};
use crate::simplex::{Simplex, Vertex};
use crate::simplex_trie::{contains_path, level, skeleton, SimplexTrie};
use vstd::prelude::*;

verus! {

pub enum VRAlgorithm {
    Inductive,
}

/// A simplicial complex: the trie of its simplices and the dimension bound
/// that it was built with.
pub struct SimplicialComplex(pub SimplexTrie, pub usize);

/// `u` is a lower neighbor of `v`: adjacent to it, and before it in the
/// order of the vertex ids.
pub open spec fn is_lower_nbr<M: Matrix<bool>>(adj: &M, v: int, u: int) -> bool {
    0 <= u < adj.cols() && u < v && adj.cell(v, u) == Some(true)
}

/// `u` is a lower neighbor of every vertex of `s`.
pub open spec fn is_shared_nbr<M: Matrix<bool>>(adj: &M, s: Seq<Vertex>, u: int) -> bool {
    forall|i: int| 0 <= i < s.len() ==> is_lower_nbr(adj, (#[trigger] s[i]).0 as int, u)
}

/// The vertex sequences that the construction spells: a first vertex of
/// weight 0 that is a row of the adjacency matrix, and after it vertices of
/// weight `weight`, each a lower neighbor of all the vertices before it.
pub open spec fn clique_path<M: Matrix<bool>>(adj: &M, weight: usize, s: Seq<Vertex>) -> bool {
    &&& s.len() >= 1
    &&& s[0].1 == 0
    &&& s[0].0 < adj.rows()
    &&& forall|j: int| 1 <= j < s.len() ==> (#[trigger] s[j]).1 == weight
    &&& forall|i: int, j: int|
        0 <= i < j < s.len() ==> is_lower_nbr(
            adj,
            (#[trigger] s[i]).0 as int,
            (#[trigger] s[j]).0 as int,
        )
}

/// The simplices of the Vietoris-Rips complex of `adj` with dimension bound
/// `dim`: the clique paths of at most `dim` vertices, and the single
/// vertices in any case.
pub open spec fn vr_simplex<M: Matrix<bool>>(adj: &M, dim: usize, weight: usize, s: Seq<Vertex>) -> bool {
    clique_path(adj, weight, s) && (s.len() <= dim || s.len() == 1)
}

/// Every prefix of a clique path is one.
pub proof fn lemma_clique_prefix<M: Matrix<bool>>(adj: &M, weight: usize, s: Seq<Vertex>, m: int)
    requires
        clique_path(adj, weight, s),
        1 <= m <= s.len(),
    ensures
        clique_path(adj, weight, s.take(m)),
{
    let p = s.take(m);
    assert forall|i: int, j: int| 0 <= i < j < p.len() implies is_lower_nbr(
        adj,
        (#[trigger] p[i]).0 as int,
        (#[trigger] p[j]).0 as int,
    ) by {
        assert(p[i] == s[i] && p[j] == s[j]);
    }
    assert forall|j: int| 1 <= j < p.len() implies (#[trigger] p[j]).1 == weight by {
        assert(p[j] == s[j]);
    }
}

/// Face closure: with a simplex of two or more vertices the complex holds
/// the simplex that lacks its last vertex.
pub proof fn lemma_vr_face_closed<M: Matrix<bool>>(adj: &M, dim: usize, weight: usize, s: Seq<Vertex>)
    requires
        vr_simplex(adj, dim, weight, s),
        s.len() >= 2,
    ensures
        vr_simplex(adj, dim, weight, s.drop_last()),
{
    lemma_clique_prefix(adj, weight, s, s.len() - 1);
}

/// A complex with a higher dimension bound holds every simplex of one with a
/// lower bound.
pub proof fn lemma_vr_monotone<M: Matrix<bool>>(
    adj: &M,
    low: usize,
    high: usize,
    weight: usize,
    s: Seq<Vertex>,
)
    requires
        low <= high,
        vr_simplex(adj, low, weight, s),
    ensures
        vr_simplex(adj, high, weight, s),
{
}

/// Closure under faces: the complex holds a simplex without any one of its
/// vertices but the first, and without the first where the vertices that are
/// glued on have no weight.
pub proof fn lemma_vr_without_vertex<M: Matrix<bool>>(
    adj: &M,
    dim: usize,
    weight: usize,
    s: Seq<Vertex>,
    m: int,
)
    requires
        vr_simplex(adj, dim, weight, s),
        s.len() >= 2,
        0 <= m < s.len(),
        m >= 1 || weight == 0,
    ensures
        vr_simplex(adj, dim, weight, s.remove(m)),
{
    let t = s.remove(m);
    assert forall|i: int, j: int| 0 <= i < j < t.len() implies is_lower_nbr(
        adj,
        (#[trigger] t[i]).0 as int,
        (#[trigger] t[j]).0 as int,
    ) by {
        let i2 = if i < m {
            i
        } else {
            i + 1
        };
        let j2 = if j < m {
            j
        } else {
            j + 1
        };
        assert(t[i] == s[i2] && t[j] == s[j2]);
        assert(is_lower_nbr(adj, s[i2].0 as int, s[j2].0 as int));
    }
    assert forall|j: int| 1 <= j < t.len() implies (#[trigger] t[j]).1 == weight by {
        let j2 = if j < m {
            j
        } else {
            j + 1
        };
        assert(t[j] == s[j2]);
    }
    if m == 0 {
        assert(t[0] == s[1]);
        assert(is_lower_nbr(adj, s[0].0 as int, s[1].0 as int));
    } else {
        assert(t[0] == s[0]);
    }
}

/// A clique path grows by exactly the shared lower neighbors of its vertices.
pub proof fn lemma_clique_extend<M: Matrix<bool>>(adj: &M, weight: usize, s: Seq<Vertex>, v: Vertex)
    requires
        clique_path(adj, weight, s),
    ensures
        clique_path(adj, weight, s.push(v)) <==> v.1 == weight && is_shared_nbr(
            adj,
            s,
            v.0 as int,
        ),
{
    let t = s.push(v);
    if v.1 == weight && is_shared_nbr(adj, s, v.0 as int) {
        assert forall|i: int, j: int| 0 <= i < j < t.len() implies is_lower_nbr(
            adj,
            (#[trigger] t[i]).0 as int,
            (#[trigger] t[j]).0 as int,
        ) by {
            if j < s.len() {
                assert(t[i] == s[i] && t[j] == s[j]);
            } else {
                assert(t[i] == s[i]);
            }
        }
        assert forall|j: int| 1 <= j < t.len() implies (#[trigger] t[j]).1 == weight by {
            if j < s.len() {
                assert(t[j] == s[j]);
            }
        }
        assert(t[0] == s[0]);
    }
    if clique_path(adj, weight, t) {
        assert(t[s.len() as int] == v);
        assert forall|i: int| 0 <= i < s.len() implies is_lower_nbr(
            adj,
            (#[trigger] s[i]).0 as int,
            v.0 as int,
        ) by {
            assert(t[i] == s[i]);
            assert(is_lower_nbr(adj, t[i].0 as int, t[s.len() as int].0 as int));
        }
    }
}

/// Find all neighbors of a vertex within the adjacency neighborhood that
/// come before it, in rising order.
pub fn lower_nbrs<M: Matrix<bool>>(adj: &M, vertex: &Vertex) -> (r: Vec<usize>)
    requires
        adj.wf(),
    ensures
        forall|u: usize| r@.contains(u) <==> is_lower_nbr(adj, vertex.0 as int, u as int),
        forall|k: int| 0 <= k < r@.len() ==> (#[trigger] r@[k]) < vertex.0,
        forall|a: int, b: int| 0 <= a < b < r@.len() ==> r@[a] < r@[b],
{
    let mut r: Vec<usize> = Vec::new();
    let (_, cols) = adj.dim();
    let mut i: usize = 0;
    while i < cols
        invariant
            adj.wf(),
            cols == adj.cols(),
            i <= cols,
            forall|u: usize|
                r@.contains(u) <==> u < i && is_lower_nbr(adj, vertex.0 as int, u as int),
            forall|k: int| 0 <= k < r@.len() ==> (#[trigger] r@[k]) < vertex.0 && r@[k] < i,
            forall|a: int, b: int| 0 <= a < b < r@.len() ==> r@[a] < r@[b],
        decreases cols - i,
    {
        let ghost before = r@;
        let mut found: bool = false;
        if let Some(val) = adj.get(vertex.id(), i) {
            if *val && vertex.id() > i {
                r.push(i);
                found = true;
            }
        }
        proof {
            assert(found <==> is_lower_nbr(adj, vertex.0 as int, i as int));
            assert forall|u: usize|
                r@.contains(u) <==> u < i + 1 && is_lower_nbr(
                    adj,
                    vertex.0 as int,
                    u as int,
                ) by {
                if found {
                    lemma_push_contains(before, i, u);
                }
            }
        }
        i += 1;
    }
    r
}

/// The values of `s` rise strictly.
pub open spec fn is_rising(s: Seq<usize>) -> bool {
    forall|a: int, b: int| 0 <= a < b < s.len() ==> s[a] < s[b]
}

/// The values of `a` that occur in `b` too, in the order of `a`.
fn intersection(a: &Vec<usize>, b: &Vec<usize>) -> (r: Vec<usize>)
    requires
        is_rising(a@),
    ensures
        forall|u: usize| r@.contains(u) <==> a@.contains(u) && b@.contains(u),
        is_rising(r@),
{
    let mut r: Vec<usize> = Vec::new();
    let mut i: usize = 0;
    while i < a.len()
        invariant
            i <= a@.len(),
            is_rising(a@),
            forall|u: usize| r@.contains(u) <==> a@.take(i as int).contains(u) && b@.contains(u),
            is_rising(r@),
            forall|k: int| 0 <= k < r@.len() && i < a@.len() ==> (#[trigger] r@[k]) < a@[i as int],
        decreases a@.len() - i,
    {
        let ghost before = r@;
        let x: usize = a[i];
        let keep: bool = has(b, x);
        if keep {
            r.push(x);
        }
        proof {
            assert(a@.take(i + 1) =~= a@.take(i as int).push(x));
            assert forall|u: usize|
                r@.contains(u) <==> a@.take(i + 1).contains(u) && b@.contains(u) by {
                lemma_push_contains(a@.take(i as int), x, u);
                if keep {
                    lemma_push_contains(before, x, u);
                }
            }
            assert forall|k: int| 0 <= k < r@.len() && i + 1 < a@.len() implies (#[trigger] r@[k])
                < a@[i + 1] by {
                if k < before.len() {
                    assert(before[k] < a@[i as int]);
                }
            }
        }
        i += 1;
    }
    proof {
        assert(a@.take(i as int) =~= a@);
    }
    r
}

/// The lower neighbors that all the vertices of a simplex share: those of
/// its first vertex, tightened by each of the others.
fn shared_lower_nbrs<M: Matrix<bool>>(adj: &M, simplex: &Simplex) -> (r: Vec<usize>)
    requires
        adj.wf(),
        simplex@.len() > 0,
    ensures
        forall|u: usize| r@.contains(u) <==> is_shared_nbr(adj, simplex@, u as int),
        is_rising(r@),
{
    let vertices = simplex.vertices();
    let mut shared: Vec<usize> = lower_nbrs(adj, &vertices[0]);
    let mut i: usize = 1;
    proof {
        assert forall|u: usize| shared@.contains(u) <==> is_shared_nbr(
            adj,
            vertices@.take(1),
            u as int,
        ) by {
            assert(vertices@.take(1)[0] == vertices@[0]);
        }
    }
    while i < vertices.len()
        invariant
            adj.wf(),
            1 <= i <= vertices@.len(),
            is_rising(shared@),
            forall|u: usize| shared@.contains(u) <==> is_shared_nbr(adj, vertices@.take(i as int), u as int),
        decreases vertices@.len() - i,
    {
        let ln = lower_nbrs(adj, &vertices[i]);
        let ghost before = shared@;
        shared = intersection(&shared, &ln);
        proof {
            let p = vertices@.take(i as int);
            let q = vertices@.take(i + 1);
            assert forall|u: usize| shared@.contains(u) <==> is_shared_nbr(adj, q, u as int) by {
                if is_shared_nbr(adj, q, u as int) {
                    assert forall|m: int| 0 <= m < p.len() implies is_lower_nbr(
                        adj,
                        (#[trigger] p[m]).0 as int,
                        u as int,
                    ) by {
                        assert(p[m] == q[m]);
                    }
                    assert(q[i as int] == vertices@[i as int]);
                }
                if before.contains(u) && ln@.contains(u) {
                    assert forall|m: int| 0 <= m < q.len() implies is_lower_nbr(
                        adj,
                        (#[trigger] q[m]).0 as int,
                        u as int,
                    ) by {
                        if m < i {
                            assert(p[m] == q[m]);
                        }
                    }
                }
            }
        }
        i += 1;
    }
    proof {
        assert(vertices@.take(i as int) =~= vertices@);
    }
    shared
}

/// `s` comes before `t` when the ids of their vertices are compared one
/// after the other: at the first place where the ids differ, that of `s` is
/// the lower.
pub open spec fn ids_lt(s: Seq<Vertex>, t: Seq<Vertex>) -> bool {
    exists|m: int|
        0 <= m < s.len() && m < t.len() && (#[trigger] s[m]).0 < t[m].0 && forall|i: int|
            0 <= i < m ==> (#[trigger] s[i]).0 == t[i].0
}

/// Each sequence of `l` comes before those after it.
pub open spec fn is_sorted(l: Seq<Seq<Vertex>>) -> bool {
    forall|a: int, b: int| 0 <= a < b < l.len() ==> ids_lt(#[trigger] l[a], #[trigger] l[b])
}

/// The levels of the complex are sorted: within a dimension, the simplices
/// stand in the order of their id sequences.
pub open spec fn levels_sorted(levels: Seq<Seq<Seq<Vertex>>>) -> bool {
    forall|d: int| 0 <= d < levels.len() ==> is_sorted(#[trigger] levels[d])
}

/// Compute a Vietoris-Rips complex up to dimension 'dim' with an inductive
/// algorithm: start from the vertices, and extend each simplex of one
/// dimension by each lower neighbor that all its vertices share.
pub fn inductive<M: Matrix<bool>>(adj: &M, dim: usize, weight: usize) -> (sc: SimplicialComplex)
    requires
        adj.wf(),
    ensures
        sc.0.wf(),
        sc.1 == dim,
        forall|s: Seq<Vertex>|
            (s.len() > 0 && contains_path(sc.0@, s)) <==> vr_simplex(adj, dim, weight, s),
        levels_sorted(sc.0@),
        level(sc.0@, 0) == level(skeleton(adj.rows()), 0),
{
    let (rows, _) = adj.dim();
    // Compute the 0-skeleton.
    let mut trie = SimplexTrie::new_skel(rows);
    let mut k: Vec<Simplex> = Vec::new();
    let mut v: usize = 0;
    while v < rows
        invariant
            v <= rows,
            k@.len() == v,
            forall|m: int| 0 <= m < k@.len() ==> (#[trigger] k@[m])@ == seq![Vertex(m as usize, 0)],
        decreases rows - v,
    {
        let smplx = Simplex::new(vec![Vertex::new(v, 0)]);
        proof {
            assert(smplx@ =~= seq![Vertex(v, 0)]);
        }
        k.push(smplx);
        v += 1;
    }
    proof {
        lemma_skeleton_holds(adj, weight, k@);
        assert(level(trie@, 0) =~= views(k@));
        assert forall|a: int, b: int| 0 <= a < b < views(k@).len() implies ids_lt(
            #[trigger] views(k@)[a],
            #[trigger] views(k@)[b],
        ) by {
            assert(views(k@)[a][0].0 < views(k@)[b][0].0);
        }
    }
    let mut d: usize = 1;
    while d < dim
        invariant
            adj.wf(),
            trie.wf(),
            1 <= d,
            d <= dim || d == 1,
            holds_upto(adj, weight, trie@, d as int),
            lists(adj, weight, k@, d as int),
            level(trie@, d - 1) == views(k@),
            forall|e: int| 0 <= e < d ==> is_sorted(#[trigger] level(trie@, e)),
            rows == adj.rows(),
            level(trie@, 0) == level(skeleton(rows as nat), 0),
        decreases dim - d,
    {
        let mut k1: Vec<Simplex> = Vec::new();
        let mut i: usize = 0;
        let ghost start = trie@;
        proof {
            lemma_midway_start(adj, weight, trie@, d as int, k@, Seq::<usize>::empty());
            assert(k1@ =~= Seq::<Simplex>::empty());
            trie.lemma_levels_wf();
            // Nothing is stored above the dimensions done.
            assert(level(trie@, d as int) =~= views(k1@)) by {
                if level(trie@, d as int).len() > 0 {
                    let s = trie@[d as int][0];
                    assert(contains_path(trie@, s));
                    assert(within(adj, weight, d as int, s));
                }
            }
        }
        while i < k.len()
            invariant
                adj.wf(),
                trie.wf(),
                1 <= d,
                i <= k@.len(),
                lists(adj, weight, k@, d as int),
                midway(adj, weight, trie@, k1@, d as int, k@, i as int, Seq::<usize>::empty(), 0),
                is_sorted(views(k@)),
                is_sorted(views(k1@)),
                level(trie@, d as int) == views(k1@),
                forall|e: int| 0 <= e < d ==> #[trigger] level(trie@, e) == level(start, e),
            decreases k@.len() - i,
        {
            let simplex = &k[i];
            proof {
                assert(exactly(adj, weight, d as int, k@[i as int]@));
            }
            let shared = shared_lower_nbrs(adj, simplex);
            let mut t: usize = 0;
            proof {
                lemma_midway_rebase(
                    adj,
                    weight,
                    trie@,
                    k1@,
                    d as int,
                    k@,
                    i as int,
                    Seq::<usize>::empty(),
                    shared@,
                );
            }
            // Glue each shared vertex to the current simplex.
            while t < shared.len()
                invariant
                    adj.wf(),
                    trie.wf(),
                    1 <= d,
                    i < k@.len(),
                    *simplex == k@[i as int],
                    t <= shared@.len(),
                    exactly(adj, weight, d as int, k@[i as int]@),
                    forall|u: usize|
                        shared@.contains(u) <==> is_shared_nbr(adj, k@[i as int]@, u as int),
                    midway(adj, weight, trie@, k1@, d as int, k@, i as int, shared@, t as int),
                    is_rising(shared@),
                    is_sorted(views(k@)),
                    is_sorted(views(k1@)),
                    level(trie@, d as int) == views(k1@),
                    forall|e: int| 0 <= e < d ==> #[trigger] level(trie@, e) == level(start, e),
                decreases shared@.len() - t,
            {
                let smplx = simplex.with_vertex(Vertex::new(shared[t], weight));
                proof {
                    assert(shared@.contains(shared@[t as int]));
                    lemma_midway_step(
                        adj,
                        weight,
                        trie@,
                        k1@,
                        d as int,
                        k@,
                        i as int,
                        shared@,
                        t as int,
                        smplx,
                    );
                    lemma_layout_step(
                        adj,
                        weight,
                        trie@,
                        k1@,
                        d as int,
                        k@,
                        i as int,
                        shared@,
                        t as int,
                        smplx,
                    );
                }
                trie.add_simplex(&smplx);
                k1.push(smplx);
                t += 1;
            }
            proof {
                lemma_midway_next(adj, weight, trie@, k1@, d as int, k@, i as int, shared@);
            }
            i += 1;
        }
        proof {
            lemma_midway_end(adj, weight, trie@, k1@, d as int, k@);
            assert(level(trie@, 0) == level(start, 0));
            assert forall|e: int| 0 <= e < d + 1 implies is_sorted(#[trigger] level(trie@, e)) by {
                if e < d {
                    assert(level(trie@, e) == level(start, e));
                }
            }
        }
        // k1 becomes k.
        k = k1;
        d += 1;
    }
    proof {
        assert forall|s: Seq<Vertex>|
            (s.len() > 0 && contains_path(trie@, s)) <==> vr_simplex(adj, dim, weight, s) by {
            if s.len() > 0 && contains_path(trie@, s) {
                assert(within(adj, weight, d as int, s));
            }
            if vr_simplex(adj, dim, weight, s) {
                assert(within(adj, weight, d as int, s));
            }
        }
        trie.lemma_levels_wf();
        assert forall|e: int| 0 <= e < trie@.len() implies is_sorted(#[trigger] trie@[e]) by {
            if e < d {
                assert(is_sorted(level(trie@, e)));
            } else if trie@[e].len() > 0 {
                let s = trie@[e][0];
                assert(contains_path(trie@, s));
                assert(within(adj, weight, d as int, s));
            }
        }
    }
    SimplicialComplex(trie, dim)
}

pub struct VietorisRips;

impl VietorisRips {
    /// Compute a Vietoris-Rips diagram from an adjacency matrix.
    pub fn compute<M: Matrix<bool>>(
        alg: Option<VRAlgorithm>,
        adj: &M,
        dim: usize,
        weight: usize,
    ) -> (sc: SimplicialComplex)
        requires
            adj.wf(),
        ensures
            sc.0.wf(),
            sc.1 == dim,
            forall|s: Seq<Vertex>|
                (s.len() > 0 && contains_path(sc.0@, s)) <==> vr_simplex(adj, dim, weight, s),
            levels_sorted(sc.0@),
            level(sc.0@, 0) == level(skeleton(adj.rows()), 0),
    {
        let alg = match alg {
            Some(a) => a,
            None => VRAlgorithm::Inductive,
        };
        match alg {
            VRAlgorithm::Inductive => inductive(adj, dim, weight),
        }
    }
}

} // verus!
