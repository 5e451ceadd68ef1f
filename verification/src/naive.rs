//! The Vietoris-Rips complex as plain lists: one list of simplices for each
//! dimension, a simplex being the ids of its vertices.
use crate::matrix::Matrix;
use crate::simplex::Vertex;
use crate::simplex_trie::{contains_path, level, levels_wf};
use crate::vietoris_rips::{clique_path, ids_lt, is_lower_nbr, is_sorted, levels_sorted, vr_simplex};
use vstd::prelude::*;

verus! {

/// A set of connected vertices, by their ids.
#[derive(Debug, Hash)]
pub struct Simplex {
    pub vertices: Vec<usize>,
}

impl View for Simplex {
    type V = Seq<usize>;

    open spec fn view(&self) -> Seq<usize> {
        self.vertices@
    }
}

impl Clone for Simplex {
    fn clone(&self) -> (s: Self)
        ensures
            s@ == self@,
    {
        Simplex { vertices: self.vertices.clone() }
    }
}

impl PartialEq for Simplex {
    fn eq(&self, other: &Self) -> (r: bool) {
        if self.vertices.len() != other.vertices.len() {
            return false;
        } else {
            let mut i: usize = 0;
            while i < self.vertices.len()
                invariant
                    self.vertices@.len() == other.vertices@.len(),
                    i <= self.vertices@.len(),
                    forall|k: int| 0 <= k < i ==> self.vertices@[k] == other.vertices@[k],
                decreases self.vertices@.len() - i,
            {
                if self.vertices[i] != other.vertices[i] {
                    return false;
                }
                i += 1;
            }
        }
        proof {
            assert(self.vertices@ =~= other.vertices@);
        }
        true
    }
}

impl Eq for Simplex {

}

impl vstd::std_specs::cmp::PartialEqSpecImpl for Simplex {
    open spec fn obeys_eq_spec() -> bool {
        true
    }

    open spec fn eq_spec(&self, other: &Self) -> bool {
        self@ == other@
    }
}

/// The set of simplices: `simplices[d]` lists those of dimension `d`.
#[derive(Debug)]
pub struct SimplicialComplex {
    pub simplices: Vec<Vec<Simplex>>,
}

/// Every cell of the matrix holds a value, and there are as many rows as
/// columns.
pub open spec fn is_full_square<M: Matrix<bool>>(adj: &M) -> bool {
    &&& adj.rows() == adj.cols()
    &&& forall|i: int, j: int|
        0 <= i < adj.rows() && 0 <= j < adj.cols() ==> (#[trigger] adj.cell(i, j)) is Some
}

/// The id sequences that the construction spells: a vertex of the graph, and
/// after it vertices that are each a lower neighbor of all the vertices
/// before.
pub open spec fn id_clique<M: Matrix<bool>>(adj: &M, s: Seq<usize>) -> bool {
    &&& s.len() >= 1
    &&& s[0] < adj.rows()
    &&& forall|i: int, j: int|
        0 <= i < j < s.len() ==> is_lower_nbr(adj, (#[trigger] s[i]) as int, (#[trigger] s[j]) as int)
}

/// `s` is one of the simplices listed.
pub open spec fn lists_ids(list: Seq<Simplex>, s: Seq<usize>) -> bool {
    exists|i: int| 0 <= i < list.len() && (#[trigger] list[i])@ == s
}

/// `s` comes before `t`: at the first place where they differ, the id of `s`
/// is the lower.
pub open spec fn seq_lt(s: Seq<usize>, t: Seq<usize>) -> bool {
    exists|m: int|
        0 <= m < s.len() && m < t.len() && (#[trigger] s[m]) < t[m] && forall|i: int|
            0 <= i < m ==> (#[trigger] s[i]) == t[i]
}

/// Each simplex of the list comes before those after it.
pub open spec fn list_sorted(list: Seq<Simplex>) -> bool {
    forall|a: int, b: int| 0 <= a < b < list.len() ==> seq_lt((#[trigger] list[a])@, (#[trigger] list[b])@)
}

proof fn lemma_ids_lt_seq(v: Seq<Vertex>, w: Seq<Vertex>)
    requires
        ids_lt(v, w),
    ensures
        seq_lt(ids_of(v), ids_of(w)),
{
    let m = choose|m: int|
        0 <= m < v.len() && m < w.len() && (#[trigger] v[m]).0 < w[m].0 && forall|i: int|
            0 <= i < m ==> (#[trigger] v[i]).0 == w[i].0;
    let s = ids_of(v);
    let t = ids_of(w);
    assert(s[m] < t[m]);
    assert forall|i: int| 0 <= i < m implies (#[trigger] s[i]) == t[i] by {
        assert(v[i].0 == w[i].0);
    }
}

/// The ids of a vertex sequence.
pub open spec fn ids_of(v: Seq<Vertex>) -> Seq<usize> {
    Seq::new(v.len(), |i: int| v[i].0)
}

/// The vertices of weight 0 with the ids given.
pub open spec fn plain_vertices(s: Seq<usize>) -> Seq<Vertex> {
    Seq::new(s.len(), |i: int| Vertex(s[i], 0))
}

/// With weight 0 throughout, the clique paths are the id cliques.
proof fn lemma_clique_ids<M: Matrix<bool>>(adj: &M, v: Seq<Vertex>)
    ensures
        clique_path(adj, 0, v) ==> id_clique(adj, ids_of(v)) && plain_vertices(ids_of(v)) == v,
{
    if clique_path(adj, 0, v) {
        let s = ids_of(v);
        assert forall|i: int, j: int| 0 <= i < j < s.len() implies is_lower_nbr(
            adj,
            (#[trigger] s[i]) as int,
            (#[trigger] s[j]) as int,
        ) by {
            assert(is_lower_nbr(adj, v[i].0 as int, v[j].0 as int));
        }
        assert forall|i: int| 0 <= i < v.len() implies plain_vertices(s)[i] == v[i] by {
            if i >= 1 {
                assert(v[i].1 == 0);
            }
        }
        assert(plain_vertices(s) =~= v);
    }
}

proof fn lemma_ids_clique<M: Matrix<bool>>(adj: &M, s: Seq<usize>)
    ensures
        id_clique(adj, s) ==> clique_path(adj, 0, plain_vertices(s)) && ids_of(plain_vertices(s))
            == s,
{
    if id_clique(adj, s) {
        let v = plain_vertices(s);
        assert forall|i: int, j: int| 0 <= i < j < v.len() implies is_lower_nbr(
            adj,
            (#[trigger] v[i]).0 as int,
            (#[trigger] v[j]).0 as int,
        ) by {
            assert(is_lower_nbr(adj, s[i] as int, s[j] as int));
        }
        assert(ids_of(v) =~= s);
    }
}

/// Finds all neighbors of a vertex u within the neighborhood that precede
/// it in the given ordering.
pub fn lower_nbrs<M: Matrix<bool>>(neighborhood: &M, u: usize) -> (v: Vec<usize>)
    requires
        neighborhood.wf(),
        is_full_square(neighborhood),
        u < neighborhood.rows(),
    ensures
        forall|i: usize| v@.contains(i) <==> is_lower_nbr(neighborhood, u as int, i as int),
        forall|a: int, b: int| 0 <= a < b < v@.len() ==> v@[a] < v@[b],
{
    crate::vietoris_rips::lower_nbrs(neighborhood, &Vertex::new(u, 0))
}

/// The inductive algorithm presented: the vertices, then for each dimension
/// up to `k - 1` the simplices of the dimension below, each extended by each
/// lower neighbor that its vertices share.
pub fn inductive<M: Matrix<bool>>(neighborhood: &M, k: usize) -> (sc: SimplicialComplex)
    requires
        neighborhood.wf(),
        is_full_square(neighborhood),
    ensures
        sc.simplices@.len() == if k >= 1 {
            k
        } else {
            1
        },
        forall|d: int, s: Seq<usize>|
            0 <= d < sc.simplices@.len() ==> (#[trigger] lists_ids(sc.simplices@[d]@, s)
                <==> id_clique(neighborhood, s) && s.len() == d + 1),
        forall|d: int| 0 <= d < sc.simplices@.len() ==> list_sorted((#[trigger] sc.simplices@[d])@),
{
    let complex = crate::vietoris_rips::inductive(neighborhood, k, 0);
    let dims: usize = if k >= 1 {
        k
    } else {
        1
    };
    proof {
        complex.0.lemma_levels_wf();
    }
    let mut simplices: Vec<Vec<Simplex>> = Vec::new();
    let mut d: usize = 0;
    while d < dims
        invariant
            neighborhood.wf(),
            complex.0.wf(),
            levels_wf(complex.0@),
            levels_sorted(complex.0@),
            dims == if k >= 1 {
                k
            } else {
                1
            },
            forall|s: Seq<Vertex>|
                (s.len() > 0 && contains_path(complex.0@, s)) <==> vr_simplex(
                    neighborhood,
                    k,
                    0,
                    s,
                ),
            d <= dims,
            simplices@.len() == d,
            forall|e: int| 0 <= e < d ==> list_sorted((#[trigger] simplices@[e])@),
            forall|e: int, s: Seq<usize>|
                0 <= e < d ==> (#[trigger] lists_ids(simplices@[e]@, s) <==> id_clique(
                    neighborhood,
                    s,
                ) && s.len() == e + 1),
        decreases dims - d,
    {
        let ghost here = level(complex.0@, d as int);
        let n: usize = complex.0.count_dim(d);
        let mut list: Vec<Simplex> = Vec::new();
        let mut i: usize = 0;
        while i < n
            invariant
                complex.0.wf(),
                here == level(complex.0@, d as int),
                n == here.len(),
                i <= n,
                list@.len() == i,
                forall|m: int| 0 <= m < i ==> (#[trigger] list@[m])@ == ids_of(here[m]),
            decreases n - i,
        {
            let simplex = complex.0.simplex_at(d, i);
            let vertices = simplex.vertices();
            let mut ids: Vec<usize> = Vec::new();
            let mut t: usize = 0;
            while t < vertices.len()
                invariant
                    t <= vertices@.len(),
                    ids@ == ids_of(vertices@.take(t as int)),
                decreases vertices@.len() - t,
            {
                ids.push(vertices[t].id());
                proof {
                    assert(ids@ =~= ids_of(vertices@.take(t + 1)));
                }
                t += 1;
            }
            proof {
                assert(vertices@.take(t as int) =~= vertices@);
            }
            list.push(Simplex { vertices: ids });
            i += 1;
        }
        proof {
            assert forall|a: int, b: int| 0 <= a < b < list@.len() implies seq_lt(
                (#[trigger] list@[a])@,
                (#[trigger] list@[b])@,
            ) by {
                assert(is_sorted(complex.0@[d as int]));
                assert(ids_lt(here[a], here[b]));
                lemma_ids_lt_seq(here[a], here[b]);
            }
            assert forall|s: Seq<usize>|
                lists_ids(list@, s) <==> id_clique(neighborhood, s) && s.len() == d + 1 by {
                if lists_ids(list@, s) {
                    let m = choose|m: int| 0 <= m < list@.len() && (#[trigger] list@[m])@ == s;
                    let v = here[m];
                    assert(complex.0@[d as int][m] == v);
                    assert(contains_path(complex.0@, v));
                    assert(vr_simplex(neighborhood, k, 0, v));
                    lemma_clique_ids(neighborhood, v);
                }
                if id_clique(neighborhood, s) && s.len() == d + 1 {
                    let v = plain_vertices(s);
                    lemma_ids_clique(neighborhood, s);
                    assert(vr_simplex(neighborhood, k, 0, v));
                    assert(contains_path(complex.0@, v));
                    let m = choose|m: int| 0 <= m < here.len() && here[m] == v;
                    assert(list@[m]@ == s);
                }
            }
        }
        simplices.push(list);
        d += 1;
    }
    SimplicialComplex { simplices }
}

} // verus!
