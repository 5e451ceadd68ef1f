//! Computing homology of a simplicial complex.
use crate::boundary::{boundary, incidence};
use crate::dense::DenseMatrix;
use crate::gf2::{diag_ones, smith_reduce};
use crate::matrix::Matrix;
use crate::reduction::{is_odd, parity, reduce_z2};
use crate::kernel::{
    constant_from, kills, lemma_component_rank, lemma_xsum_none, lemma_xsum_update, row_sum,
    terms,
};
use crate::simplex::{is_face_of, Vertex};
use crate::simplex_trie::{contains_path, level, levels_wf, skeleton, SimplexTrie};
use crate::vietoris_rips::{clique_path, is_lower_nbr, vr_simplex};
use vstd::prelude::*;

verus! {

/// The rank of a matrix over the field with two elements, read off its
/// Smith-normal form: the number of ones among the first `cols` places of
/// the diagonal.
pub open spec fn rank(m: Seq<Seq<bool>>, cols: nat) -> nat {
    diag_ones(smith_reduce(m, 0), cols)
}

/// The `p`-th Betti number of the complex with the levels `levels`: the
/// dimension of the kernel of the `p`-th boundary matrix, less the rank of
/// the boundary matrix above it.
pub open spec fn betti(levels: Seq<Seq<Seq<Vertex>>>, p: int) -> int {
    level(levels, p).len() - rank(incidence(levels, p), level(levels, p).len()) - rank(
        incidence(levels, p + 1),
        level(levels, p + 1).len(),
    )
}

/// The diagonal holds no more ones than it has places.
pub proof fn lemma_diag_ones_bound(m: Seq<Seq<bool>>, n: nat)
    ensures
        diag_ones(m, n) <= n,
    decreases n,
{
    if n > 0 {
        lemma_diag_ones_bound(m, (n - 1) as nat);
    }
}

/// Where the complex has no simplex of dimension `p + 1`, its `p`-th Betti
/// number is not negative.
pub proof fn lemma_betti_of_top(levels: Seq<Seq<Seq<Vertex>>>, p: int)
    requires
        level(levels, p + 1).len() == 0,
    ensures
        betti(levels, p) >= 0,
{
    let cols = level(levels, p).len();
    lemma_diag_ones_bound(smith_reduce(incidence(levels, p), 0), cols);
    assert(diag_ones(smith_reduce(incidence(levels, p + 1), 0), 0) == 0);
}

/// Where the complex has no simplex of dimension `p`, its `p`-th Betti number
/// is zero.
pub proof fn lemma_betti_beyond(levels: Seq<Seq<Seq<Vertex>>>, p: int)
    requires
        levels_wf(levels),
        0 <= p,
        level(levels, p).len() == 0,
    ensures
        betti(levels, p) == 0,
{
    if level(levels, p + 1).len() > 0 {
        let s = levels[p + 1][0];
        assert(levels[p].contains(s.drop_last()));
    }
    assert(diag_ones(smith_reduce(incidence(levels, p), 0), 0) == 0);
    assert(diag_ones(smith_reduce(incidence(levels, p + 1), 0), 0) == 0);
}

/// Every vertex of the graph is adjacent to every vertex before it.
pub open spec fn is_complete<M: Matrix<bool>>(adj: &M) -> bool {
    forall|u: int, v: int| 0 <= u < v < adj.rows() ==> is_lower_nbr(adj, v, u)
}

/// What the rows that `s` picks add up to in the column of an edge: the sum
/// of what `s` says of the two ends of the edge.
proof fn lemma_edge_sum(m: Seq<Seq<bool>>, s: Seq<bool>, j: int, a: int, b: int)
    requires
        s.len() == m.len(),
        0 <= a < m.len(),
        0 <= b < m.len(),
        a != b,
        forall|i: int| 0 <= i < m.len() ==> (#[trigger] m[i])[j] == (i == a || i == b),
    ensures
        row_sum(m, s, j, 0) == (s[a] != s[b]),
{
    let n = m.len() as int;
    let t = terms(m, s, j);
    let none = Seq::new(m.len(), |i: int| false);
    let one = none.update(a, s[a]);
    lemma_xsum_none(none, 0, n);
    lemma_xsum_update(none, one, a, 0, n);
    assert forall|i: int| 0 <= i < n && i != b implies #[trigger] one[i] == t[i] by {
        assert(m[i][j] == (i == a || i == b));
    }
    lemma_xsum_update(one, t, b, 0, n);
    assert(t[b] == s[b]) by {
        assert(m[b][j] == (b == a || b == b));
    }
}

/// The vertices of a complete graph are one component: the matrix of the
/// vertices and the edges of its complex has a rank of one less than the
/// number of vertices. The complex is the one that `inductive` builds, with
/// a dimension bound of two or more and no weight.
pub proof fn lemma_complete_graph_rank<M: Matrix<bool>>(
    adj: &M,
    dim: usize,
    levels: Seq<Seq<Seq<Vertex>>>,
)
    requires
        1 <= adj.rows() <= usize::MAX,
        dim >= 2,
        is_complete(adj),
        levels_wf(levels),
        level(levels, 0) == level(skeleton(adj.rows()), 0),
        forall|s: Seq<Vertex>|
            (s.len() > 0 && contains_path(levels, s)) <==> vr_simplex(adj, dim, 0, s),
    ensures
        rank(incidence(levels, 1), level(levels, 1).len()) == adj.rows() - 1,
{
    let n = adj.rows() as int;
    let points = level(levels, 0);
    let edges = level(levels, 1);
    let cols = edges.len();
    let inc = incidence(levels, 1);
    assert(points.len() == n);
    assert(inc.len() == n);
    // The column of an edge holds a one for each of its two ends.
    assert forall|j: int, i: int| 0 <= j < cols && 0 <= i < n implies #[trigger] inc[i][j] == (i
        == edges[j][0].0 || i == edges[j][1].0) by {
        let e = edges[j];
        assert(levels[1][j] == e);
        assert(e.len() == 2);
        assert(contains_path(levels, e));
        assert(vr_simplex(adj, dim, 0, e));
        assert(e[1].1 == 0);
        let p = points[i];
        assert(p == seq![Vertex(i as usize, 0)]);
        assert(inc[i][j] == is_face_of(p, e));
        if is_face_of(p, e) {
            assert(e.contains(p[0]));
            let t = choose|t: int| 0 <= t < e.len() && e[t] == p[0];
            assert(t == 0 || t == 1);
        }
        if i == e[0].0 {
            assert(e[0] == p[0]);
            assert(e.contains(p[0]));
        }
        if i == e[1].0 {
            assert(e[1] == p[0]);
            assert(e.contains(p[0]));
        }
    }
    assert forall|s: Seq<bool>| s.len() == inc.len() implies (#[trigger] kills(inc, cols, s, 0)
        <==> constant_from(s, 0)) by {
        if constant_from(s, 0) {
            assert forall|j: int| 0 <= j < cols implies !#[trigger] row_sum(inc, s, j, 0) by {
                let e = edges[j];
                assert(levels[1][j] == e);
                assert(contains_path(levels, e));
                assert(vr_simplex(adj, dim, 0, e));
                assert(is_lower_nbr(adj, e[0].0 as int, e[1].0 as int));
                let a = e[0].0 as int;
                let b = e[1].0 as int;
                assert forall|i: int| 0 <= i < inc.len() implies (#[trigger] inc[i])[j] == (i == a
                    || i == b) by {
                    assert(inc[i][j] == (i == edges[j][0].0 || i == edges[j][1].0));
                }
                lemma_edge_sum(inc, s, j, a, b);
                assert(s[a] == s[0] && s[b] == s[0]);
            }
        }
        if kills(inc, cols, s, 0) {
            assert forall|i: int| 0 <= i < s.len() implies #[trigger] s[i] == s[0] by {
                if i > 0 {
                    let e = seq![Vertex(i as usize, 0), Vertex(0, 0)];
                    assert(is_lower_nbr(adj, i, 0));
                    assert(clique_path(adj, 0, e));
                    assert(vr_simplex(adj, dim, 0, e));
                    assert(contains_path(levels, e));
                    let j = choose|j: int| 0 <= j < edges.len() && edges[j] == e;
                    assert forall|r: int| 0 <= r < inc.len() implies (#[trigger] inc[r])[j] == (r
                        == i || r == 0) by {
                        assert(inc[r][j] == (r == edges[j][0].0 || r == edges[j][1].0));
                    }
                    lemma_edge_sum(inc, s, j, i, 0);
                    assert(!row_sum(inc, s, j, 0));
                }
            }
        }
    }
    assert(crate::gf2::is_rect(inc, cols));
    lemma_component_rank(inc, cols);
}

/// A matrix of one column that holds a one has rank one.
pub proof fn lemma_single_column_rank(m: Seq<Seq<bool>>, i: int)
    requires
        crate::gf2::is_rect(m, 1),
        0 <= i < m.len(),
        m[i][0],
    ensures
        rank(m, 1) == 1,
{
    crate::gf2::lemma_first_one(m, 1, 0, i, 0);
    let p = crate::gf2::pivot(m, 0);
    assert(crate::gf2::is_pivot(m, 0, p.0, p.1));
    let step = crate::gf2::smith_step(m, 0, p.0, p.1);
    crate::gf2::lemma_step_rect(m, 1, 0, p.0, p.1);
    crate::gf2::lemma_step_clears(m, 1, 0, p.0, p.1);
    crate::gf2::lemma_reduce_keeps_cross(step, 1, 0, 1);
    crate::gf2::lemma_reduce_rect(step, 1, 1);
    let out = smith_reduce(m, 0);
    assert(out == smith_reduce(step, 1));
    assert(out[0][0]);
    assert(diag_ones(out, 1) == diag_ones(out, 0) + 1);
}

/// The ids along a clique path fall: each is lower than the one before it.
proof fn lemma_ids_fall<M: Matrix<bool>>(adj: &M, weight: usize, e: Seq<Vertex>, k: int)
    requires
        clique_path(adj, weight, e),
        0 <= k < e.len(),
    ensures
        e[k].0 + k <= e[0].0,
    decreases k,
{
    if k > 0 {
        lemma_ids_fall(adj, weight, e, k - 1);
        assert(is_lower_nbr(adj, e[k - 1].0 as int, e[k].0 as int));
    }
}

/// The one simplex on all of `n` vertices: the vertices from the last down
/// to the first.
pub open spec fn full_simplex(n: nat) -> Seq<Vertex> {
    Seq::new(n, |k: int| Vertex((n - 1 - k) as usize, 0))
}

/// The top Betti number of a full simplex is zero: the complex of a complete
/// graph on `n >= 2` vertices, built with a dimension bound of `n` or more
/// and no weight, has one simplex of dimension `n - 1`, and its Betti number
/// of that dimension is zero.
pub proof fn lemma_full_simplex_top_betti<M: Matrix<bool>>(
    adj: &M,
    dim: usize,
    levels: Seq<Seq<Seq<Vertex>>>,
)
    requires
        2 <= adj.rows() <= usize::MAX,
        dim >= adj.rows(),
        is_complete(adj),
        levels_wf(levels),
        forall|s: Seq<Vertex>|
            (s.len() > 0 && contains_path(levels, s)) <==> vr_simplex(adj, dim, 0, s),
    ensures
        level(levels, adj.rows() - 1) == seq![full_simplex(adj.rows())],
        level(levels, adj.rows() as int).len() == 0,
        betti(levels, adj.rows() - 1) == 0,
{
    let n = adj.rows() as int;
    let p = n - 1;
    let top = full_simplex(adj.rows());
    let tops = level(levels, p);
    // The full simplex is stored.
    assert(clique_path(adj, 0, top)) by {
        assert forall|i: int, j: int| 0 <= i < j < top.len() implies is_lower_nbr(
            adj,
            (#[trigger] top[i]).0 as int,
            (#[trigger] top[j]).0 as int,
        ) by {}
    }
    assert(vr_simplex(adj, dim, 0, top));
    assert(contains_path(levels, top));
    // Every stored simplex on `n` vertices is the full simplex.
    assert forall|k: int| 0 <= k < tops.len() implies #[trigger] tops[k] == top by {
        let e = tops[k];
        assert(levels[p][k] == e);
        assert(contains_path(levels, e));
        assert(vr_simplex(adj, dim, 0, e));
        assert forall|t: int| 0 <= t < n implies e[t] == top[t] by {
            lemma_ids_fall(adj, 0, e, t);
            lemma_ids_fall(adj, 0, e, n - 1);
            assert(e[t].0 + t <= e[0].0);
            lemma_ids_rise_back(adj, 0, e, t);
            if t > 0 {
                assert(e[t].1 == 0);
            }
        }
        assert(e =~= top);
    }
    assert(tops.len() == 1) by {
        let k = choose|k: int| 0 <= k < tops.len() && tops[k] == top;
        if tops.len() > 1 {
            assert(levels[p].no_duplicates());
            assert(tops[0] == top && tops[1] == top);
        }
    }
    assert(tops =~= seq![top]);
    // Nothing is stored on more vertices.
    if level(levels, n).len() > 0 {
        let e = levels[n][0];
        assert(contains_path(levels, e));
        assert(vr_simplex(adj, dim, 0, e));
        lemma_ids_fall(adj, 0, e, n);
    }
    // Every simplex of the dimension below is a face of the full simplex.
    let below = level(levels, p - 1);
    let inc = incidence(levels, p);
    assert(below.contains(top.drop_last())) by {
        assert(levels[p][0] == top);
    }
    assert(below.len() > 0);
    assert(inc[0][0]) by {
        let f = below[0];
        assert(levels[p - 1][0] == f);
        assert(contains_path(levels, f));
        assert(vr_simplex(adj, dim, 0, f));
        assert forall|t: int| 0 <= t < f.len() implies top.contains(#[trigger] f[t]) by {
            lemma_ids_fall(adj, 0, f, t);
            if t > 0 {
                assert(f[t].1 == 0);
            }
            let id = f[t].0 as int;
            assert(top[n - 1 - id] == f[t]);
        }
    }
    assert(crate::gf2::is_rect(inc, 1));
    lemma_single_column_rank(inc, 0);
    assert(diag_ones(smith_reduce(incidence(levels, n), 0), 0) == 0);
}

/// The ids along a clique path do not fall faster than the places left
/// allow: the id at place `k` is at least the number of places after it.
proof fn lemma_ids_rise_back<M: Matrix<bool>>(adj: &M, weight: usize, e: Seq<Vertex>, k: int)
    requires
        clique_path(adj, weight, e),
        0 <= k < e.len(),
    ensures
        e[k].0 >= e.len() - 1 - k,
    decreases e.len() - k,
{
    if k < e.len() - 1 {
        lemma_ids_rise_back(adj, weight, e, k + 1);
        assert(is_lower_nbr(adj, e[k].0 as int, e[k + 1].0 as int));
    }
}

/// Number of places `j` on the diagonal of a reduced matrix that hold a one.
fn diagonal_rank(mat: &DenseMatrix<usize>) -> (r: usize)
    requires
        mat.wf(),
    ensures
        r == diag_ones(parity(mat), mat.cols()),
{
    let (_, cols) = mat.dim();
    let mut r: usize = 0;
    let mut j: usize = 0;
    while j < cols
        invariant
            mat.wf(),
            cols == mat.cols(),
            j <= cols,
            r <= j,
            r == diag_ones(parity(mat), j as nat),
        decreases cols - j,
    {
        if let Some(v) = mat.get(j, j) {
            if *v % 2 == 1 {
                r += 1;
            }
        }
        proof {
            let bits = parity(mat);
            if j < bits.len() && j < bits[j as int].len() {
                assert(bits[j as int][j as int] == is_odd(mat.cell(j as int, j as int)));
            }
        }
        j += 1;
    }
    r
}

/// Whether the boundary matrices of dimension `p` and `p + 1` have no more
/// cells than can be counted.
pub open spec fn sizes_fit(levels: Seq<Seq<Seq<Vertex>>>, p: int) -> bool {
    &&& level(levels, p - 1).len() * level(levels, p).len() <= usize::MAX
    &&& level(levels, p).len() * level(levels, p + 1).len() <= usize::MAX
}

/// The dimension of the kernel of the `p`-th boundary matrix, and the rank
/// of the boundary matrix above it.
fn kernel_and_image(complex: &SimplexTrie, p: usize) -> (r: (usize, usize))
    requires
        complex.wf(),
        p >= 1,
        sizes_fit(complex@, p as int),
    ensures
        r.0 == level(complex@, p as int).len() - rank(
            incidence(complex@, p as int),
            level(complex@, p as int).len(),
        ),
        r.1 == rank(incidence(complex@, p + 1), level(complex@, p + 1).len()),
{
    // Zp
    let mut zmat = boundary(complex, p);
    proof {
        assert(parity(&zmat) =~~= incidence(complex@, p as int));
    }
    reduce_z2(&mut zmat, 0);
    let (_, z_cols) = zmat.dim();
    let rank_z: usize = diagonal_rank(&zmat);
    proof {
        lemma_diag_ones_bound(parity(&zmat), z_cols as nat);
    }
    // Bp
    let rank_b: usize = if p < complex.levels() {
        let mut bmat = boundary(complex, p + 1);
        proof {
            assert(parity(&bmat) =~~= incidence(complex@, p + 1));
        }
        reduce_z2(&mut bmat, 0);
        diagonal_rank(&bmat)
    } else {
        proof {
            assert(incidence(complex@, p + 1) =~~= Seq::<Seq<bool>>::empty());
        }
        0
    };
    (z_cols - rank_z, rank_b)
}

/// Compute the 'p'th betti number of a simplicial complex, for `p >= 1`.
/// The number is not negative, as it is with every complex that holds the
/// faces of its simplices.
pub fn compute_homology(complex: &SimplexTrie, p: usize) -> (b: usize)
    requires
        complex.wf(),
        p >= 1,
        sizes_fit(complex@, p as int),
        betti(complex@, p as int) >= 0,
    ensures
        b == betti(complex@, p as int),
{
    let (kernel, image) = kernel_and_image(complex, p);
    kernel - image
}

/// Compute the 'p'th betti number of a simplicial complex, for `p >= 1`, or
/// `None` where the boundary matrices have more cells than can be counted or
/// the number would be negative.
pub fn checked_homology(complex: &SimplexTrie, p: usize) -> (r: Option<usize>)
    requires
        complex.wf(),
        p >= 1,
    ensures
        match r {
            Some(b) => sizes_fit(complex@, p as int) && b == betti(complex@, p as int),
            None => !sizes_fit(complex@, p as int) || betti(complex@, p as int) < 0,
        },
{
    let below: usize = complex.count_dim(p - 1);
    let here: usize = complex.count_dim(p);
    let above: usize = if p < complex.levels() {
        complex.count_dim(p + 1)
    } else {
        0
    };
    if below.checked_mul(here).is_none() || here.checked_mul(above).is_none() {
        return None;
    }
    let (kernel, image) = kernel_and_image(complex, p);
    if kernel >= image {
        Some(kernel - image)
    } else {
        None
    }
}

} // verus!
