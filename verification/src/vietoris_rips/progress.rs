//! Where the construction of the complex stands at each point of its loops,
//! and why each step keeps it so.
use super::{
    clique_path, ids_lt, is_lower_nbr, is_rising, is_shared_nbr, is_sorted, lemma_clique_extend,
    lemma_clique_prefix,
};
use crate::matrix::Matrix;
use crate::simplex::{Simplex, Vertex};
use crate::simplex_trie::{
    contains_path, grown, inserted, lemma_inserted_contains, level, skeleton,
};
use vstd::prelude::*;

verus! {

/// The vertex sequences of the simplices listed.
pub open spec fn views(k: Seq<Simplex>) -> Seq<Seq<Vertex>> {
    Seq::new(k.len(), |m: int| k[m]@)
}

/// Two sequences keep their order when each gets one more vertex.
pub proof fn lemma_ids_lt_extended(s: Seq<Vertex>, t: Seq<Vertex>, v: Vertex, w: Vertex)
    requires
        ids_lt(s, t),
    ensures
        ids_lt(s.push(v), t.push(w)),
{
    let m = choose|m: int|
        0 <= m < s.len() && m < t.len() && (#[trigger] s[m]).0 < t[m].0 && forall|i: int|
            0 <= i < m ==> (#[trigger] s[i]).0 == t[i].0;
    let s2 = s.push(v);
    let t2 = t.push(w);
    assert(s2[m] == s[m] && t2[m] == t[m]);
    assert forall|i: int| 0 <= i < m implies (#[trigger] s2[i]).0 == t2[i].0 by {
        assert(s2[i] == s[i] && t2[i] == t[i]);
    }
}

/// One sequence with two vertices glued on: the lower id comes first.
pub proof fn lemma_ids_lt_last(s: Seq<Vertex>, v: Vertex, w: Vertex)
    requires
        v.0 < w.0,
    ensures
        ids_lt(s.push(v), s.push(w)),
{
    let s2 = s.push(v);
    let t2 = s.push(w);
    let m = s.len() as int;
    assert(s2[m] == v && t2[m] == w);
    assert forall|i: int| 0 <= i < m implies (#[trigger] s2[i]).0 == t2[i].0 by {
        assert(s2[i] == s[i] && t2[i] == s[i]);
    }
}

/// One more simplex is stored and listed: it is new to the trie, it comes
/// after all that were listed, and the trie has it at the end of its level.
pub proof fn lemma_layout_step<M: Matrix<bool>>(
    adj: &M,
    weight: usize,
    levels: Seq<Seq<Seq<Vertex>>>,
    k1: Seq<Simplex>,
    d: int,
    k: Seq<Simplex>,
    i: int,
    shared: Seq<usize>,
    t: int,
    x: Simplex,
)
    requires
        d >= 1,
        midway(adj, weight, levels, k1, d, k, i, shared, t),
        0 <= i < k.len(),
        exactly(adj, weight, d, k[i]@),
        0 <= t < shared.len(),
        is_rising(shared),
        is_sorted(views(k)),
        is_sorted(views(k1)),
        level(levels, d) == views(k1),
        x@ == k[i]@.push(Vertex(shared[t], weight)),
    ensures
        forall|e: int| 0 <= e < d ==> #[trigger] level(inserted(levels, x@), e) == level(levels, e),
        level(inserted(levels, x@), d) == views(k1.push(x)),
        is_sorted(views(k1.push(x))),
{
    let sigma = k[i]@;
    let u = shared[t];
    let v = Vertex(u, weight);
    let big = x@;
    let after = inserted(levels, big);
    let k2 = k1.push(x);
    assert(big.drop_last() =~= sigma);
    assert(big.last() == v);
    // The simplex is new.
    if contains_path(levels, big) {
        assert(target(adj, weight, d, k, i, shared, t, big));
        if from_earlier(k, i, sigma) {
            let a = choose|a: int| 0 <= a < i && a < k.len() && (#[trigger] k[a])@ == sigma;
            assert(ids_lt(views(k)[a], views(k)[i]));
        } else {
            let b = choose|b: int| 0 <= b < t && b < shared.len() && #[trigger] shared[b] == u;
        }
        assert(false);
    }
    // Its prefixes are stored.
    assert forall|e: int| 0 <= e < d implies contains_path(levels, #[trigger] big.take(e + 1)) by {
        assert(big.take(e + 1) =~= sigma.take(e + 1));
        lemma_clique_prefix(adj, weight, sigma, e + 1);
        assert(target(adj, weight, d, k, i, shared, t, sigma.take(e + 1)));
    }
    assert(big.take(d + 1) =~= big);
    assert forall|e: int| 0 <= e < d implies #[trigger] level(after, e) == level(levels, e) by {
        assert(contains_path(levels, big.take(e + 1)));
        assert(after[e] == grown(levels, big, e, big.len() as int));
    }
    assert(after[d] == grown(levels, big, d, big.len() as int));
    assert(level(after, d) =~= views(k2));
    assert forall|a: int, b: int| 0 <= a < b < views(k2).len() implies ids_lt(
        #[trigger] views(k2)[a],
        #[trigger] views(k2)[b],
    ) by {
        if b < k1.len() {
            assert(ids_lt(views(k1)[a], views(k1)[b]));
        } else {
            let s = k1[a]@;
            assert(fresh(adj, weight, d, k, i, shared, t, s));
            assert(s =~= s.drop_last().push(s.last()));
            if from_earlier(k, i, s.drop_last()) {
                let c = choose|c: int|
                    0 <= c < i && c < k.len() && (#[trigger] k[c])@ == s.drop_last();
                assert(ids_lt(views(k)[c], views(k)[i]));
                lemma_ids_lt_extended(k[c]@, sigma, s.last(), v);
            } else {
                let c = choose|c: int|
                    0 <= c < t && c < shared.len() && #[trigger] shared[c] == s.last().0;
                lemma_ids_lt_last(sigma, s.last(), v);
            }
        }
    }
}

/// One of the first `i` simplices of `k` spells `p`.
pub open spec fn from_earlier(k: Seq<Simplex>, i: int, p: Seq<Vertex>) -> bool {
    exists|a: int| 0 <= a < i && a < k.len() && (#[trigger] k[a])@ == p
}

/// `u` is one of the first `t` values of `shared`.
pub open spec fn among(shared: Seq<usize>, t: int, u: usize) -> bool {
    exists|b: int| 0 <= b < t && b < shared.len() && #[trigger] shared[b] == u
}

/// The sequence `s` was spelled already: from one of the first `i` simplices
/// of `k`, or from the simplex `k[i]` and one of the first `t` of its shared
/// lower neighbors.
pub open spec fn reached(k: Seq<Simplex>, i: int, shared: Seq<usize>, t: int, s: Seq<Vertex>) -> bool {
    s.len() >= 2 && (from_earlier(k, i, s.drop_last()) || (0 <= i < k.len() && k[i]@
        == s.drop_last() && among(shared, t, s.last().0)))
}

pub open spec fn within<M: Matrix<bool>>(adj: &M, weight: usize, d: int, s: Seq<Vertex>) -> bool {
    clique_path(adj, weight, s) && s.len() <= d
}

pub open spec fn exactly<M: Matrix<bool>>(adj: &M, weight: usize, d: int, s: Seq<Vertex>) -> bool {
    clique_path(adj, weight, s) && s.len() == d
}

pub open spec fn target<M: Matrix<bool>>(
    adj: &M,
    weight: usize,
    d: int,
    k: Seq<Simplex>,
    i: int,
    shared: Seq<usize>,
    t: int,
    s: Seq<Vertex>,
) -> bool {
    clique_path(adj, weight, s) && (s.len() <= d || (s.len() == d + 1 && reached(
        k,
        i,
        shared,
        t,
        s,
    )))
}

pub open spec fn fresh<M: Matrix<bool>>(
    adj: &M,
    weight: usize,
    d: int,
    k: Seq<Simplex>,
    i: int,
    shared: Seq<usize>,
    t: int,
    s: Seq<Vertex>,
) -> bool {
    clique_path(adj, weight, s) && s.len() == d + 1 && reached(k, i, shared, t, s)
}

/// `k` lists exactly the clique paths of `d` vertices.
pub open spec fn lists<M: Matrix<bool>>(adj: &M, weight: usize, k: Seq<Simplex>, d: int) -> bool {
    &&& forall|m: int| 0 <= m < k.len() ==> exactly(adj, weight, d, (#[trigger] k[m])@)
    &&& forall|s: Seq<Vertex>| #[trigger]
        exactly(adj, weight, d, s) ==> from_earlier(k, k.len() as int, s)
}

/// The trie holds exactly the clique paths of at most `d` vertices.
pub open spec fn holds_upto<M: Matrix<bool>>(
    adj: &M,
    weight: usize,
    levels: Seq<Seq<Seq<Vertex>>>,
    d: int,
) -> bool {
    &&& forall|s: Seq<Vertex>|
        s.len() > 0 && #[trigger] contains_path(levels, s) ==> within(adj, weight, d, s)
    &&& forall|s: Seq<Vertex>| #[trigger] within(adj, weight, d, s) ==> contains_path(levels, s)
}

/// Where the construction stands in the middle of a dimension: the trie
/// holds the clique paths of at most `d` vertices and those of `d + 1` that
/// were reached, and `k1` lists the latter.
pub open spec fn midway<M: Matrix<bool>>(
    adj: &M,
    weight: usize,
    levels: Seq<Seq<Seq<Vertex>>>,
    k1: Seq<Simplex>,
    d: int,
    k: Seq<Simplex>,
    i: int,
    shared: Seq<usize>,
    t: int,
) -> bool {
    &&& forall|s: Seq<Vertex>|
        s.len() > 0 && #[trigger] contains_path(levels, s) ==> target(
            adj,
            weight,
            d,
            k,
            i,
            shared,
            t,
            s,
        )
    &&& forall|s: Seq<Vertex>| #[trigger]
        target(adj, weight, d, k, i, shared, t, s) ==> contains_path(levels, s)
    &&& forall|m: int|
        0 <= m < k1.len() ==> fresh(adj, weight, d, k, i, shared, t, (#[trigger] k1[m])@)
    &&& forall|s: Seq<Vertex>| #[trigger]
        fresh(adj, weight, d, k, i, shared, t, s) ==> from_earlier(k1, k1.len() as int, s)
}

pub proof fn lemma_skeleton_holds<M: Matrix<bool>>(adj: &M, weight: usize, k: Seq<Simplex>)
    requires
        k.len() == adj.rows(),
        adj.rows() <= usize::MAX,
        forall|m: int| 0 <= m < k.len() ==> (#[trigger] k[m])@ == seq![Vertex(m as usize, 0)],
    ensures
        holds_upto(adj, weight, skeleton(adj.rows()), 1),
        lists(adj, weight, k, 1),
{
    let levels = skeleton(adj.rows());
    assert forall|s: Seq<Vertex>|
        s.len() > 0 && #[trigger] contains_path(levels, s) implies within(adj, weight, 1, s) by {
        let m = choose|m: int| 0 <= m < levels[0].len() && levels[0][m] == s;
        assert(s == seq![Vertex(m as usize, 0)]);
    }
    assert forall|s: Seq<Vertex>| #[trigger] within(adj, weight, 1, s) implies contains_path(
        levels,
        s,
    ) by {
        let m = s[0].0 as int;
        assert(s[0] == Vertex(m as usize, 0));
        assert(s =~= seq![Vertex(m as usize, 0)]);
        assert(levels[0][m] == s);
    }
    assert forall|m: int| 0 <= m < k.len() implies exactly(adj, weight, 1, (#[trigger] k[m])@) by {
        let s = k[m]@;
        assert(s[0] == Vertex(m as usize, 0));
    }
    assert forall|s: Seq<Vertex>| #[trigger] exactly(adj, weight, 1, s) implies from_earlier(
        k,
        k.len() as int,
        s,
    ) by {
        let m = s[0].0 as int;
        assert(s[0] == Vertex(m as usize, 0));
        assert(s =~= seq![Vertex(m as usize, 0)]);
        assert(k[m]@ == s);
    }
}

pub proof fn lemma_midway_start<M: Matrix<bool>>(
    adj: &M,
    weight: usize,
    levels: Seq<Seq<Seq<Vertex>>>,
    d: int,
    k: Seq<Simplex>,
    shared: Seq<usize>,
)
    requires
        holds_upto(adj, weight, levels, d),
    ensures
        midway(adj, weight, levels, Seq::<Simplex>::empty(), d, k, 0, shared, 0),
{
    assert forall|s: Seq<Vertex>| s.len() > 0 && #[trigger] contains_path(levels, s) implies target(
        adj,
        weight,
        d,
        k,
        0,
        shared,
        0,
        s,
    ) by {
        assert(within(adj, weight, d, s));
    }
    assert forall|s: Seq<Vertex>| #[trigger]
        target(adj, weight, d, k, 0, shared, 0, s) implies contains_path(levels, s) by {
        assert(within(adj, weight, d, s));
    }
}

/// With no shared neighbor used yet, the list of them does not matter.
pub proof fn lemma_midway_rebase<M: Matrix<bool>>(
    adj: &M,
    weight: usize,
    levels: Seq<Seq<Seq<Vertex>>>,
    k1: Seq<Simplex>,
    d: int,
    k: Seq<Simplex>,
    i: int,
    sh1: Seq<usize>,
    sh2: Seq<usize>,
)
    requires
        midway(adj, weight, levels, k1, d, k, i, sh1, 0),
    ensures
        midway(adj, weight, levels, k1, d, k, i, sh2, 0),
{
    assert forall|s: Seq<Vertex>| s.len() > 0 && #[trigger] contains_path(levels, s) implies target(
        adj,
        weight,
        d,
        k,
        i,
        sh2,
        0,
        s,
    ) by {
        assert(target(adj, weight, d, k, i, sh1, 0, s));
    }
    assert forall|s: Seq<Vertex>| #[trigger]
        target(adj, weight, d, k, i, sh2, 0, s) implies contains_path(levels, s) by {
        assert(target(adj, weight, d, k, i, sh1, 0, s));
    }
    assert forall|m: int| 0 <= m < k1.len() implies fresh(
        adj,
        weight,
        d,
        k,
        i,
        sh2,
        0,
        (#[trigger] k1[m])@,
    ) by {
        assert(fresh(adj, weight, d, k, i, sh1, 0, k1[m]@));
    }
    assert forall|s: Seq<Vertex>| #[trigger]
        fresh(adj, weight, d, k, i, sh2, 0, s) implies from_earlier(k1, k1.len() as int, s) by {
        assert(fresh(adj, weight, d, k, i, sh1, 0, s));
    }
}

/// What `reached` turns into when one more shared neighbor is used.
pub proof fn lemma_reached_step(
    k: Seq<Simplex>,
    i: int,
    shared: Seq<usize>,
    t: int,
    s: Seq<Vertex>,
)
    requires
        0 <= t < shared.len(),
    ensures
        reached(k, i, shared, t + 1, s) <==> reached(k, i, shared, t, s) || (s.len() >= 2 && 0 <= i
            < k.len() && k[i]@ == s.drop_last() && s.last().0 == shared[t]),
{
    let u = s.last().0;
    if among(shared, t + 1, u) {
        let b = choose|b: int| 0 <= b < t + 1 && b < shared.len() && #[trigger] shared[b] == u;
        if b < t {
            assert(among(shared, t, u));
        }
    }
    if among(shared, t, u) {
        let b = choose|b: int| 0 <= b < t && b < shared.len() && #[trigger] shared[b] == u;
        assert(among(shared, t + 1, u));
    }
    if u == shared[t] {
        assert(among(shared, t + 1, u));
    }
}

/// One more simplex is stored and listed.
pub proof fn lemma_midway_step<M: Matrix<bool>>(
    adj: &M,
    weight: usize,
    levels: Seq<Seq<Seq<Vertex>>>,
    k1: Seq<Simplex>,
    d: int,
    k: Seq<Simplex>,
    i: int,
    shared: Seq<usize>,
    t: int,
    x: Simplex,
)
    requires
        d >= 1,
        midway(adj, weight, levels, k1, d, k, i, shared, t),
        0 <= i < k.len(),
        exactly(adj, weight, d, k[i]@),
        0 <= t < shared.len(),
        is_shared_nbr(adj, k[i]@, shared[t] as int),
        x@ == k[i]@.push(Vertex(shared[t], weight)),
    ensures
        midway(adj, weight, inserted(levels, x@), k1.push(x), d, k, i, shared, t + 1),
{
    let sigma = k[i]@;
    let u = shared[t];
    let v = Vertex(u, weight);
    let big = x@;
    let after = inserted(levels, big);
    let k2 = k1.push(x);
    lemma_clique_extend(adj, weight, sigma, v);
    assert(big.drop_last() =~= sigma);
    assert(big.last() == v);
    lemma_reached_step(k, i, shared, t, big);
    assert(fresh(adj, weight, d, k, i, shared, t + 1, big));
    assert forall|s: Seq<Vertex>| s.len() > 0 && #[trigger] contains_path(after, s) implies target(
        adj,
        weight,
        d,
        k,
        i,
        shared,
        t + 1,
        s,
    ) by {
        lemma_inserted_contains(levels, big, s);
        lemma_reached_step(k, i, shared, t, s);
        if contains_path(levels, s) {
            assert(target(adj, weight, d, k, i, shared, t, s));
        } else {
            if s.len() <= d {
                assert(big.take(s.len() as int) =~= sigma.take(s.len() as int));
                lemma_clique_prefix(adj, weight, sigma, s.len() as int);
            } else {
                assert(big.take(s.len() as int) =~= big);
            }
        }
    }
    assert forall|s: Seq<Vertex>| #[trigger]
        target(adj, weight, d, k, i, shared, t + 1, s) implies contains_path(after, s) by {
        lemma_inserted_contains(levels, big, s);
        lemma_reached_step(k, i, shared, t, s);
        if target(adj, weight, d, k, i, shared, t, s) {
            assert(contains_path(levels, s));
        } else {
            assert(s.last().1 == weight);
            assert(s.last() == v);
            assert(s =~= s.drop_last().push(s.last()));
            assert(big.take(s.len() as int) =~= big);
        }
    }
    assert forall|m: int| 0 <= m < k2.len() implies fresh(
        adj,
        weight,
        d,
        k,
        i,
        shared,
        t + 1,
        (#[trigger] k2[m])@,
    ) by {
        lemma_reached_step(k, i, shared, t, k2[m]@);
        if m < k1.len() {
            assert(k2[m] == k1[m]);
            assert(fresh(adj, weight, d, k, i, shared, t, k1[m]@));
        }
    }
    assert forall|s: Seq<Vertex>| #[trigger]
        fresh(adj, weight, d, k, i, shared, t + 1, s) implies from_earlier(
        k2,
        k2.len() as int,
        s,
    ) by {
        lemma_reached_step(k, i, shared, t, s);
        if fresh(adj, weight, d, k, i, shared, t, s) {
            assert(from_earlier(k1, k1.len() as int, s));
            let a = choose|a: int| 0 <= a < k1.len() && a < k1.len() && (#[trigger] k1[a])@ == s;
            assert(k2[a]@ == s);
        } else {
            assert(s.last().1 == weight);
            assert(s.last() == v);
            assert(s =~= s.drop_last().push(s.last()));
            assert(k2[k1.len() as int]@ == s);
        }
    }
}

/// A simplex is done with once all its shared lower neighbors were used.
pub proof fn lemma_midway_next<M: Matrix<bool>>(
    adj: &M,
    weight: usize,
    levels: Seq<Seq<Seq<Vertex>>>,
    k1: Seq<Simplex>,
    d: int,
    k: Seq<Simplex>,
    i: int,
    shared: Seq<usize>,
)
    requires
        midway(adj, weight, levels, k1, d, k, i, shared, shared.len() as int),
        0 <= i < k.len(),
        forall|u: usize| shared.contains(u) <==> is_shared_nbr(adj, k[i]@, u as int),
    ensures
        midway(adj, weight, levels, k1, d, k, i + 1, Seq::<usize>::empty(), 0),
{
    let none = Seq::<usize>::empty();
    let n = shared.len() as int;
    assert forall|s: Seq<Vertex>| clique_path(adj, weight, s) implies (reached(k, i, shared, n, s)
        <==> reached(k, i + 1, none, 0, s)) by {
        let p = s.drop_last();
        if reached(k, i, shared, n, s) {
            if from_earlier(k, i, p) {
                let a = choose|a: int| 0 <= a < i && a < k.len() && (#[trigger] k[a])@ == p;
                assert(from_earlier(k, i + 1, p));
            } else {
                assert(k[i]@ == p);
                assert(from_earlier(k, i + 1, p));
            }
        }
        if reached(k, i + 1, none, 0, s) {
            assert(from_earlier(k, i + 1, p));
            let a = choose|a: int| 0 <= a < i + 1 && a < k.len() && (#[trigger] k[a])@ == p;
            if a < i {
                assert(from_earlier(k, i, p));
            } else {
                let u = s.last().0;
                assert forall|m: int| 0 <= m < p.len() implies is_lower_nbr(
                    adj,
                    (#[trigger] p[m]).0 as int,
                    u as int,
                ) by {
                    assert(p[m] == s[m]);
                    assert(is_lower_nbr(adj, s[m].0 as int, s[s.len() - 1].0 as int));
                }
                assert(shared.contains(u));
                let b = choose|b: int| 0 <= b < shared.len() && shared[b] == u;
                assert(among(shared, n, u));
            }
        }
    }
    assert forall|s: Seq<Vertex>| s.len() > 0 && #[trigger] contains_path(levels, s) implies target(
        adj,
        weight,
        d,
        k,
        i + 1,
        none,
        0,
        s,
    ) by {
        assert(target(adj, weight, d, k, i, shared, n, s));
    }
    assert forall|s: Seq<Vertex>| #[trigger]
        target(adj, weight, d, k, i + 1, none, 0, s) implies contains_path(levels, s) by {
        assert(target(adj, weight, d, k, i, shared, n, s));
    }
    assert forall|m: int| 0 <= m < k1.len() implies fresh(
        adj,
        weight,
        d,
        k,
        i + 1,
        none,
        0,
        (#[trigger] k1[m])@,
    ) by {
        assert(fresh(adj, weight, d, k, i, shared, n, k1[m]@));
    }
    assert forall|s: Seq<Vertex>| #[trigger]
        fresh(adj, weight, d, k, i + 1, none, 0, s) implies from_earlier(
        k1,
        k1.len() as int,
        s,
    ) by {
        assert(fresh(adj, weight, d, k, i, shared, n, s));
    }
}

/// A dimension is done with once all the simplices below it were extended.
pub proof fn lemma_midway_end<M: Matrix<bool>>(
    adj: &M,
    weight: usize,
    levels: Seq<Seq<Seq<Vertex>>>,
    k1: Seq<Simplex>,
    d: int,
    k: Seq<Simplex>,
)
    requires
        d >= 1,
        midway(adj, weight, levels, k1, d, k, k.len() as int, Seq::<usize>::empty(), 0),
        lists(adj, weight, k, d),
    ensures
        holds_upto(adj, weight, levels, d + 1),
        lists(adj, weight, k1, d + 1),
{
    let none = Seq::<usize>::empty();
    let n = k.len() as int;
    assert forall|s: Seq<Vertex>| clique_path(adj, weight, s) && s.len() == d + 1 implies reached(
        k,
        n,
        none,
        0,
        s,
    ) by {
        lemma_clique_prefix(adj, weight, s, d);
        assert(s.take(d) =~= s.drop_last());
        assert(exactly(adj, weight, d, s.drop_last()));
    }
    assert forall|s: Seq<Vertex>|
        s.len() > 0 && #[trigger] contains_path(levels, s) implies within(adj, weight, d + 1, s) by {
        assert(target(adj, weight, d, k, n, none, 0, s));
    }
    assert forall|s: Seq<Vertex>| #[trigger] within(adj, weight, d + 1, s) implies contains_path(
        levels,
        s,
    ) by {
        assert(target(adj, weight, d, k, n, none, 0, s));
    }
    assert forall|m: int| 0 <= m < k1.len() implies exactly(
        adj,
        weight,
        d + 1,
        (#[trigger] k1[m])@,
    ) by {
        assert(fresh(adj, weight, d, k, n, none, 0, k1[m]@));
    }
    assert forall|s: Seq<Vertex>| #[trigger] exactly(adj, weight, d + 1, s) implies from_earlier(
        k1,
        k1.len() as int,
        s,
    ) by {
        assert(fresh(adj, weight, d, k, n, none, 0, s));
    }
}

} // verus!
