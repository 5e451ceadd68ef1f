//! A prefix tree over sequences of values, stored in an arena.
use vstd::laws_eq::obeys_concrete_eq;
use vstd::prelude::*;

verus! {

/// A trie backed with an arena. Node 0 is the root and stands for the empty
/// sequence; every other node holds one value and spells, with its
/// ancestors, one stored sequence.
pub struct TrieArena<T> {
    arena: Vec<T>,
    // Each value within the arena can have multiple children.
    children: Vec<Vec<usize>>,
    // Each value within the arena has a single parent.
    parent: Vec<usize>,
    // A listing of every node that resides at a certain depth.
    depth: Vec<Vec<usize>>,
}

/// The sequence that node `i` spells: the values on the way from the root
/// down to `i`, given the value and the parent of each node.
pub open spec fn path_of<T>(arena: Seq<T>, parent: Seq<usize>, i: int) -> Seq<T>
    decreases i,
{
    if 0 < i < arena.len() && i < parent.len() && parent[i] < i {
        path_of(arena, parent, parent[i] as int).push(arena[i])
    } else {
        Seq::empty()
    }
}

/// The sequences of length `d + 1`, or none where the trie is not that deep.
pub open spec fn level<T>(levels: Seq<Seq<Seq<T>>>, d: int) -> Seq<Seq<T>> {
    if 0 <= d < levels.len() {
        levels[d]
    } else {
        Seq::empty()
    }
}

/// Whether the sequence `s` is stored. The empty sequence always is.
pub open spec fn contains_path<T>(levels: Seq<Seq<Seq<T>>>, s: Seq<T>) -> bool {
    s.len() == 0 || level(levels, s.len() - 1).contains(s)
}

/// What holds of the levels of every trie: level `d` lists sequences of
/// length `d + 1`, each once, and with a sequence it holds each of its
/// prefixes; there is a first level, and no level after it is empty.
pub open spec fn levels_wf<T>(levels: Seq<Seq<Seq<T>>>) -> bool {
    &&& levels.len() >= 1
    &&& forall|d: int, k: int|
        0 <= d < levels.len() && 0 <= k < levels[d].len() ==> (#[trigger] levels[d][k]).len() == d
            + 1
    &&& forall|d: int| 0 <= d < levels.len() ==> (#[trigger] levels[d]).no_duplicates()
    &&& forall|d: int, k: int|
        0 < d < levels.len() && 0 <= k < levels[d].len() ==> levels[d - 1].contains(
            (#[trigger] levels[d][k]).drop_last(),
        )
    &&& forall|d: int| 1 <= d < levels.len() ==> (#[trigger] levels[d]).len() > 0
}

/// The levels once the sequence `s` and its prefixes are stored: each prefix
/// that was absent is appended to the level of its length.
pub open spec fn inserted<T>(levels: Seq<Seq<Seq<T>>>, s: Seq<T>) -> Seq<Seq<Seq<T>>> {
    Seq::new(
        if levels.len() >= s.len() {
            levels.len()
        } else {
            s.len()
        },
        |d: int| grown(levels, s, d, s.len() as int),
    )
}

/// Level `d` once the first `j` prefixes of `s` are stored.
pub open spec fn grown<T>(levels: Seq<Seq<Seq<T>>>, s: Seq<T>, d: int, j: int) -> Seq<Seq<T>> {
    if d < j && !contains_path(levels, s.take(d + 1)) {
        level(levels, d).push(s.take(d + 1))
    } else {
        level(levels, d)
    }
}

/// Storing a sequence adds the sequence and its non-empty prefixes, and
/// nothing else.
pub proof fn lemma_inserted_contains<T>(levels: Seq<Seq<Seq<T>>>, v: Seq<T>, s: Seq<T>)
    ensures
        contains_path(inserted(levels, v), s) <==> contains_path(levels, s) || (1 <= s.len()
            <= v.len() && s == v.take(s.len() as int)),
{
    if s.len() > 0 {
        let d = s.len() - 1;
        let after = inserted(levels, v);
        if d < after.len() {
            assert(after[d] == grown(levels, v, d, v.len() as int));
            if d < v.len() && !contains_path(levels, v.take(d + 1)) {
                let l = level(levels, d);
                let x = v.take(d + 1);
                if l.push(x).contains(s) {
                    let k = choose|k: int| 0 <= k < l.push(x).len() && l.push(x)[k] == s;
                    if k < l.len() {
                        assert(l[k] == s);
                    }
                }
                if l.contains(s) {
                    let k = choose|k: int| 0 <= k < l.len() && l[k] == s;
                    assert(l.push(x)[k] == s);
                }
                assert(l.push(x)[l.len() as int] == x);
            }
        }
    }
}

/// Storing a sequence makes each level longer by one where the prefix of
/// that length was absent, and leaves the other levels as long as they were.
pub proof fn lemma_inserted_count<T>(levels: Seq<Seq<Seq<T>>>, v: Seq<T>, d: int)
    requires
        0 <= d,
    ensures
        level(inserted(levels, v), d).len() == level(levels, d).len() + if d < v.len()
            && !contains_path(levels, v.take(d + 1)) {
            1int
        } else {
            0int
        },
{
    let after = inserted(levels, v);
    if d < after.len() {
        assert(after[d] == grown(levels, v, d, v.len() as int));
    }
}

/// Number of the first `k` non-empty prefixes of `s` that are not stored.
pub open spec fn fresh_prefixes<T>(levels: Seq<Seq<Seq<T>>>, s: Seq<T>, k: int) -> nat
    decreases k,
{
    if k <= 0 {
        0
    } else {
        fresh_prefixes(levels, s, k - 1) + if contains_path(levels, s.take(k)) {
            0nat
        } else {
            1nat
        }
    }
}

/// What holds of the nodes of every arena, given the value and the parent of
/// each node, the children of each node and the nodes at each depth:
/// the lists have one entry for each node; a parent comes before its
/// children; a node is a child of its parent and of no other node, once; and
/// the list of a depth holds, once each, the nodes whose path has that
/// length.
pub open spec fn layout_wf<T>(
    values: Seq<T>,
    parents: Seq<usize>,
    children: Seq<Seq<usize>>,
    by_depth: Seq<Seq<usize>>,
) -> bool {
    let n = values.len();
    &&& n >= 1
    &&& parents.len() == n
    &&& children.len() == n
    &&& by_depth.len() >= 1
    &&& forall|i: int| 0 < i < n ==> (#[trigger] parents[i]) < i
    &&& forall|p: int, k: int|
        0 <= p < n && 0 <= k < children[p].len() ==> {
            let c = #[trigger] children[p][k];
            0 < c < n && parents[c as int] == p
        }
    &&& forall|c: int|
        0 < c < n ==> children[(#[trigger] parents[c]) as int].contains(c as usize)
    &&& forall|p: int| 0 <= p < n ==> (#[trigger] children[p]).no_duplicates()
    &&& forall|d: int, k: int|
        0 <= d < by_depth.len() && 0 <= k < by_depth[d].len() ==> {
            let c = #[trigger] by_depth[d][k];
            0 < c < n && path_of(values, parents, c as int).len() == d + 1
        }
    &&& forall|c: int|
        0 < c < n ==> {
            let d = (#[trigger] path_of(values, parents, c)).len() - 1;
            d < by_depth.len() && by_depth[d].contains(c as usize)
        }
    &&& forall|d: int| 0 <= d < by_depth.len() ==> (#[trigger] by_depth[d]).no_duplicates()
}

/// A prefix of a sequence is a prefix of what the sequence grows to.
proof fn lemma_prefix_grows<A>(a: Seq<A>, b: Seq<A>, c: Seq<A>)
    requires
        a.is_prefix_of(b),
        b.is_prefix_of(c),
    ensures
        a.is_prefix_of(c),
{
    assert forall|i: int| 0 <= i < a.len() implies a[i] == c.subrange(0, a.len() as int)[i] by {
        assert(a[i] == b.subrange(0, a.len() as int)[i]);
        assert(b[i] == c.subrange(0, b.len() as int)[i]);
    }
}

proof fn lemma_path_frame<T>(arena: Seq<T>, parent: Seq<usize>, longer: Seq<T>, above: Seq<usize>, i: int)
    requires
        parent.len() == arena.len(),
        arena.len() <= longer.len(),
        arena.len() <= above.len(),
        forall|k: int| 0 <= k < arena.len() ==> #[trigger] longer[k] == arena[k],
        forall|k: int| 0 <= k < arena.len() ==> #[trigger] above[k] == parent[k],
        0 <= i < arena.len(),
    ensures
        path_of(longer, above, i) == path_of(arena, parent, i),
    decreases i,
{
    if 0 < i && parent[i] < i {
        lemma_path_frame(arena, parent, longer, above, parent[i] as int);
    }
}

impl<T> View for TrieArena<T> {
    type V = Seq<Seq<Seq<T>>>;

    /// The stored sequences by length: `self@[d]` lists those of length
    /// `d + 1`, in the order in which they were inserted.
    closed spec fn view(&self) -> Seq<Seq<Seq<T>>> {
        Seq::new(
            self.depth@.len(),
            |d: int|
                Seq::new(self.depth@[d]@.len(), |k: int| self.path(self.depth@[d]@[k] as int)),
        )
    }
}

impl<T> TrieArena<T> {
    /// The value of each node, by index. Node 0 is the root.
    pub closed spec fn node_values(&self) -> Seq<T> {
        self.arena@
    }

    /// The parent of each node, by index.
    pub closed spec fn node_parents(&self) -> Seq<usize> {
        self.parent@
    }

    /// The children of each node, by index, in the order in which they were
    /// added.
    pub closed spec fn node_children(&self) -> Seq<Seq<usize>> {
        Seq::new(self.children@.len(), |p: int| self.children@[p]@)
    }

    /// The nodes at each depth, in the order in which they were added: the
    /// list at `d` holds the nodes whose path has `d + 1` values.
    pub closed spec fn nodes_by_depth(&self) -> Seq<Seq<usize>> {
        Seq::new(self.depth@.len(), |d: int| self.depth@[d]@)
    }

    /// The sequence that node `i` spells.
    spec fn path(&self, i: int) -> Seq<T> {
        path_of(self.arena@, self.parent@, i)
    }

    /// Number of nodes, the root among them.
    spec fn nodes(&self) -> int {
        self.arena.len() as int
    }

    spec fn parents_below(&self) -> bool {
        forall|i: int| 0 < i < self.nodes() ==> (#[trigger] self.parent@[i]) < i
    }

    spec fn children_wf(&self) -> bool {
        &&& forall|p: int, k: int|
            0 <= p < self.nodes() && 0 <= k < self.children@[p]@.len() ==> {
                let c = #[trigger] self.children@[p]@[k];
                0 < c < self.nodes() && self.parent@[c as int] == p
            }
        &&& forall|c: int|
            0 < c < self.nodes() ==> self.children@[(#[trigger] self.parent@[c]) as int]@.contains(
                c as usize,
            )
        &&& forall|p: int|
            0 <= p < self.nodes() ==> (#[trigger] self.children@[p])@.no_duplicates()
    }

    spec fn paths_distinct(&self) -> bool {
        forall|i: int, j: int|
            0 <= i < self.nodes() && 0 <= j < self.nodes() && i != j ==> #[trigger] self.path(i)
                != #[trigger] self.path(j)
    }

    spec fn depth_wf(&self) -> bool {
        &&& forall|d: int, k: int|
            0 <= d < self.depth@.len() && 0 <= k < self.depth@[d]@.len() ==> {
                let c = #[trigger] self.depth@[d]@[k];
                0 < c < self.nodes() && self.path(c as int).len() == d + 1
            }
        &&& forall|c: int|
            0 < c < self.nodes() ==> {
                let d = (#[trigger] self.path(c)).len() - 1;
                d < self.depth@.len() && self.depth@[d]@.contains(c as usize)
            }
        &&& forall|d: int| 0 <= d < self.depth@.len() ==> (#[trigger] self.depth@[d])@.no_duplicates()
        &&& forall|d: int| 1 <= d < self.depth@.len() ==> (#[trigger] self.depth@[d])@.len() > 0
    }

    proof fn lemma_path_step(&self, i: int)
        requires
            self.parents_below(),
            self.parent@.len() == self.nodes(),
            0 < i < self.nodes(),
        ensures
            self.path(i) == self.path(self.parent@[i] as int).push(self.arena@[i]),
            self.path(i).len() >= 1,
            self.path(i).drop_last() == self.path(self.parent@[i] as int),
            self.path(i).last() == self.arena@[i],
    {
        let p = self.path(self.parent@[i] as int);
        assert(p.push(self.arena@[i]).drop_last() =~= p);
    }
}

impl<T: PartialEq + Copy + Default> TrieArena<T> {
    /// The invariant of the arena.
    pub closed spec fn wf(&self) -> bool {
        &&& obeys_concrete_eq::<T>()
        &&& self.nodes() >= 1
        &&& self.parent@.len() == self.nodes()
        &&& self.children@.len() == self.nodes()
        &&& self.depth@.len() >= 1
        &&& self.parents_below()
        &&& self.children_wf()
        &&& self.paths_distinct()
        &&& self.depth_wf()
    }

    /// A stored non-empty sequence is the path of a node, and the other way round.
    proof fn lemma_contains_node(&self, s: Seq<T>)
        requires
            self.wf(),
            s.len() > 0,
        ensures
            contains_path(self@, s) <==> exists|c: int|
                0 < c < self.nodes() && #[trigger] self.path(c) == s,
    {
        let d = s.len() - 1;
        if contains_path(self@, s) {
            let k = choose|k: int| 0 <= k < self@[d].len() && self@[d][k] == s;
            let c = self.depth@[d]@[k];
            assert(self.path(c as int) == s);
        }
        if exists|c: int| 0 < c < self.nodes() && #[trigger] self.path(c) == s {
            let c = choose|c: int| 0 < c < self.nodes() && #[trigger] self.path(c) == s;
            assert(self.depth@[d]@.contains(c as usize));
            let k = choose|k: int| 0 <= k < self.depth@[d]@.len() && self.depth@[d]@[k] == c as usize;
            assert(self@[d][k] == s);
        }
    }

    /// Every prefix of a node's path is the path of a node.
    proof fn lemma_ancestor(&self, c: int, m: int) -> (a: int)
        requires
            self.wf(),
            0 <= c < self.nodes(),
            0 <= m <= self.path(c).len(),
        ensures
            0 <= a < self.nodes(),
            self.path(a) == self.path(c).take(m),
            m > 0 ==> a > 0,
        decreases c,
    {
        if m == self.path(c).len() {
            assert(self.path(c).take(m) =~= self.path(c));
            c
        } else {
            self.lemma_path_step(c);
            let p = self.parent@[c] as int;
            assert(self.path(c).take(m) =~= self.path(p).take(m));
            self.lemma_ancestor(p, m)
        }
    }

    /// What the invariant gives of the nodes, and how the levels read off
    /// them: level `d` lists the paths of the nodes at depth `d`, in their
    /// order.
    pub proof fn lemma_layout(&self)
        requires
            self.wf(),
        ensures
            layout_wf(
                self.node_values(),
                self.node_parents(),
                self.node_children(),
                self.nodes_by_depth(),
            ),
            self@.len() == self.nodes_by_depth().len(),
            forall|d: int|
                0 <= d < self@.len() ==> (#[trigger] self@[d]).len() == self.nodes_by_depth()[d].len(),
            forall|d: int, k: int|
                0 <= d < self@.len() && 0 <= k < self@[d].len() ==> #[trigger] self@[d][k]
                    == path_of(
                    self.node_values(),
                    self.node_parents(),
                    self.nodes_by_depth()[d][k] as int,
                ),
    {
        let values = self.node_values();
        let parents = self.node_parents();
        let children = self.node_children();
        let by_depth = self.nodes_by_depth();
        let n = values.len();
        assert forall|i: int| 0 < i < n implies (#[trigger] parents[i]) < i by {
            assert(self.parent@[i] < i);
        }
        assert forall|p: int, k: int| 0 <= p < n && 0 <= k < children[p].len() implies {
            let c = #[trigger] children[p][k];
            0 < c < n && parents[c as int] == p
        } by {
            let c = self.children@[p]@[k];
        }
        assert forall|c: int| 0 < c < n implies children[(#[trigger] parents[c]) as int].contains(
            c as usize,
        ) by {
            let p = self.parent@[c];
            assert(self.children@[p as int]@.contains(c as usize));
        }
        assert forall|p: int| 0 <= p < n implies (#[trigger] children[p]).no_duplicates() by {
            assert(self.children@[p]@.no_duplicates());
        }
        assert forall|d: int, k: int| 0 <= d < by_depth.len() && 0 <= k < by_depth[d].len() implies {
            let c = #[trigger] by_depth[d][k];
            0 < c < n && path_of(values, parents, c as int).len() == d + 1
        } by {
            let c = self.depth@[d]@[k];
        }
        assert forall|c: int| 0 < c < n implies {
            let d = (#[trigger] path_of(values, parents, c)).len() - 1;
            d < by_depth.len() && by_depth[d].contains(c as usize)
        } by {
            let d = self.path(c).len() - 1;
            assert(self.depth@[d]@.contains(c as usize));
        }
        assert forall|d: int| 0 <= d < by_depth.len() implies (#[trigger] by_depth[d]).no_duplicates() by {
            assert(self.depth@[d]@.no_duplicates());
        }
    }

    /// What the levels of a trie always satisfy.
    pub proof fn lemma_levels_wf(&self)
        requires
            self.wf(),
        ensures
            levels_wf(self@),
    {
        let levels = self@;
        assert forall|d: int| 1 <= d < levels.len() implies (#[trigger] levels[d]).len() > 0 by {
            assert(self.depth@[d]@.len() > 0);
        }
        assert forall|d: int| 0 <= d < levels.len() implies (#[trigger] levels[d]).no_duplicates() by {
            assert forall|k1: int, k2: int|
                0 <= k1 < levels[d].len() && 0 <= k2 < levels[d].len() && k1 != k2 implies levels[d][k1]
                != levels[d][k2] by {
                let c1 = self.depth@[d]@[k1];
                let c2 = self.depth@[d]@[k2];
                assert(self.depth@[d]@.no_duplicates());
                assert(c1 != c2);
            }
        }
        assert forall|d: int, k: int|
            0 < d < levels.len() && 0 <= k < levels[d].len() implies levels[d - 1].contains(
            (#[trigger] levels[d][k]).drop_last(),
        ) by {
            let c = self.depth@[d]@[k];
            self.lemma_path_step(c as int);
            let p = self.parent@[c as int];
            assert(self.path(p as int).len() == d);
            assert(p > 0);
            let below = self.depth@[d - 1]@;
            assert(below.contains(p));
            let kp = choose|kp: int| 0 <= kp < below.len() && below[kp] == p;
            assert(levels[d - 1][kp] == self.path(p as int));
        }
    }

    /// What pushing one node under `cur` does: the node spells the path of
    /// `cur` followed by `x`, a sequence that was absent before.
    proof fn lemma_push_node(pre: Self, post: Self, cur: int, x: T, j: int)
        requires
            pre.wf(),
            0 <= cur < pre.nodes(),
            pre.path(cur).len() == j,
            forall|c: int|
                0 < c < pre.nodes() && #[trigger] pre.parent@[c] == cur ==> pre.arena@[c] != x,
            post.arena@ == pre.arena@.push(x),
            post.parent@ == pre.parent@.push(cur as usize),
            post.children@.len() == pre.nodes() + 1,
            post.children@[pre.nodes()]@ == Seq::<usize>::empty(),
            post.children@[cur]@ == pre.children@[cur]@.push(pre.nodes() as usize),
            forall|p: int|
                0 <= p < pre.nodes() && p != cur ==> #[trigger] post.children@[p]
                    == pre.children@[p],
            post.depth@.len() == if pre.depth@.len() > j {
                pre.depth@.len() as int
            } else {
                j + 1
            },
            forall|d: int|
                0 <= d < pre.depth@.len() && d != j ==> #[trigger] post.depth@[d]
                    == pre.depth@[d],
            post.depth@[j]@ == (if j < pre.depth@.len() {
                pre.depth@[j]@
            } else {
                Seq::<usize>::empty()
            }).push(pre.nodes() as usize),
        ensures
            post.wf(),
            post.nodes() == pre.nodes() + 1,
            forall|i: int| 0 <= i < pre.nodes() ==> #[trigger] post.path(i) == pre.path(i),
            post.path(pre.nodes()) == pre.path(cur).push(x),
            !contains_path(pre@, pre.path(cur).push(x)),
            post@.len() == if pre@.len() > j {
                pre@.len() as int
            } else {
                j + 1
            },
            forall|d: int| 0 <= d < post@.len() && d != j ==> #[trigger] post@[d] == level(pre@, d),
            post@[j] == level(pre@, j).push(pre.path(cur).push(x)),
            post.node_values() == pre.node_values().push(x),
            post.node_parents() == pre.node_parents().push(cur as usize),
            post.node_children().len() == pre.node_children().len() + 1,
            forall|p: int|
                0 <= p < pre.node_children().len() ==> pre.node_children()[p].is_prefix_of(
                    #[trigger] post.node_children()[p],
                ),
            post.nodes_by_depth().len() >= pre.nodes_by_depth().len(),
            forall|d: int|
                0 <= d < pre.nodes_by_depth().len() ==> pre.nodes_by_depth()[d].is_prefix_of(
                    #[trigger] post.nodes_by_depth()[d],
                ),
    {
        let n = pre.nodes();
        assert forall|p: int| 0 <= p < pre.node_children().len() implies pre.node_children()[p].is_prefix_of(
            #[trigger] post.node_children()[p],
        ) by {
            if p == cur {
                assert(pre.children@[cur]@ =~= post.children@[cur]@.subrange(
                    0,
                    pre.children@[cur]@.len() as int,
                ));
            } else {
                assert(post.children@[p] == pre.children@[p]);
                assert(pre.children@[p]@ =~= post.children@[p]@.subrange(
                    0,
                    pre.children@[p]@.len() as int,
                ));
            }
        }
        assert forall|d: int| 0 <= d < pre.nodes_by_depth().len() implies pre.nodes_by_depth()[d].is_prefix_of(
            #[trigger] post.nodes_by_depth()[d],
        ) by {
            if d == j {
                assert(pre.depth@[j]@ =~= post.depth@[j]@.subrange(0, pre.depth@[j]@.len() as int));
            } else {
                assert(post.depth@[d] == pre.depth@[d]);
                assert(pre.depth@[d]@ =~= post.depth@[d]@.subrange(0, pre.depth@[d]@.len() as int));
            }
        }
        let s = pre.path(cur).push(x);
        assert(post.nodes() == n + 1);
        assert forall|i: int| 0 <= i < n implies #[trigger] post.path(i) == pre.path(i) by {
            lemma_path_frame(pre.arena@, pre.parent@, post.arena@, post.parent@, i);
        }
        assert(post.path(n) == s) by {
            assert(post.parent@[n] == cur);
            assert(post.arena@[n] == x);
            assert(post.path(cur) == pre.path(cur));
            assert(post.arena@.len() == n + 1);
        }
        assert(post.parents_below());
        // The new sequence was absent.
        assert forall|c: int| 0 <= c < n implies pre.path(c) != s by {
            if c > 0 && pre.path(c) == s {
                pre.lemma_path_step(c);
                assert(s.drop_last() =~= pre.path(cur));
                assert(pre.parent@[c] as int == cur);
                assert(s.last() == x);
            }
        }
        if contains_path(pre@, s) {
            pre.lemma_contains_node(s);
        }
        assert(post.paths_distinct()) by {
            assert forall|a: int, b: int|
                0 <= a < post.nodes() && 0 <= b < post.nodes() && a != b implies #[trigger] post.path(
                a,
            ) != #[trigger] post.path(b) by {
                if a < n && b < n {
                    assert(pre.path(a) != pre.path(b));
                }
            }
        }
        assert(post.children_wf()) by {
            assert forall|p: int, k: int|
                0 <= p < post.nodes() && 0 <= k < post.children@[p]@.len() implies {
                let c = #[trigger] post.children@[p]@[k];
                0 < c < post.nodes() && post.parent@[c as int] == p
            } by {
                if p == cur {
                    if k < pre.children@[cur]@.len() {
                        assert(post.children@[p]@[k] == pre.children@[p]@[k]);
                    }
                } else if p < n {
                    assert(post.children@[p]@[k] == pre.children@[p]@[k]);
                }
            }
            assert forall|c: int| 0 < c < post.nodes() implies post.children@[(
            #[trigger] post.parent@[c]) as int]@.contains(c as usize) by {
                if c < n {
                    let p = pre.parent@[c] as int;
                    assert(pre.children@[p]@.contains(c as usize));
                    let k = choose|k: int|
                        0 <= k < pre.children@[p]@.len() && pre.children@[p]@[k] == c as usize;
                    if p == cur {
                        assert(post.children@[p]@[k] == c as usize);
                    } else {
                        assert(post.children@[p]@[k] == c as usize);
                    }
                } else {
                    assert(post.children@[cur]@[pre.children@[cur]@.len() as int] == n as usize);
                }
            }
            assert forall|p: int| 0 <= p < post.nodes() implies (
            #[trigger] post.children@[p])@.no_duplicates() by {
                if p == cur {
                    assert(pre.children@[cur]@.no_duplicates());
                    assert forall|k: int| 0 <= k < pre.children@[cur]@.len() implies pre.children@[cur]@[k]
                        != n as usize by {
                        let c = pre.children@[cur]@[k];
                    }
                } else if p < n {
                    assert(pre.children@[p]@.no_duplicates());
                }
            }
        }
        assert(post.depth_wf()) by {
            assert forall|d: int, k: int|
                0 <= d < post.depth@.len() && 0 <= k < post.depth@[d]@.len() implies {
                let c = #[trigger] post.depth@[d]@[k];
                0 < c < post.nodes() && post.path(c as int).len() == d + 1
            } by {
                if d != j {
                    assert(post.depth@[d]@[k] == pre.depth@[d]@[k]);
                } else if j < pre.depth@.len() && k < pre.depth@[j]@.len() {
                    assert(post.depth@[d]@[k] == pre.depth@[d]@[k]);
                }
            }
            assert forall|c: int| 0 < c < post.nodes() implies {
                let d = (#[trigger] post.path(c)).len() - 1;
                d < post.depth@.len() && post.depth@[d]@.contains(c as usize)
            } by {
                if c < n {
                    let d = pre.path(c).len() - 1;
                    assert(pre.depth@[d]@.contains(c as usize));
                    let k = choose|k: int|
                        0 <= k < pre.depth@[d]@.len() && pre.depth@[d]@[k] == c as usize;
                    assert(post.depth@[d]@[k] == c as usize);
                } else {
                    let k = post.depth@[j]@.len() - 1;
                    assert(post.depth@[j]@[k] == n as usize);
                }
            }
            assert forall|d: int| 1 <= d < post.depth@.len() implies (
            #[trigger] post.depth@[d])@.len() > 0 by {
                if d != j {
                    assert(post.depth@[d] == pre.depth@[d]);
                }
            }
            assert forall|d: int| 0 <= d < post.depth@.len() implies (
            #[trigger] post.depth@[d])@.no_duplicates() by {
                if d == j {
                    if j < pre.depth@.len() {
                        assert(pre.depth@[j]@.no_duplicates());
                        assert forall|k: int| 0 <= k < pre.depth@[j]@.len() implies pre.depth@[j]@[k]
                            != n as usize by {
                            let c = pre.depth@[j]@[k];
                        }
                    }
                } else {
                    assert(pre.depth@[d]@.no_duplicates());
                }
            }
        }
        assert forall|d: int| 0 <= d < post@.len() && d != j implies #[trigger] post@[d] == level(
            pre@,
            d,
        ) by {
            if d < pre@.len() {
                assert forall|k: int| 0 <= k < post@[d].len() implies post@[d][k] == pre@[d][k] by {
                    let c = pre.depth@[d]@[k];
                }
                assert(post@[d] =~= pre@[d]);
            } else {
                assert(false);
            }
        }
        assert(post@[j] =~= level(pre@, j).push(s)) by {
            assert forall|k: int| 0 <= k < post@[j].len() implies post@[j][k] == level(pre@, j).push(
                s,
            )[k] by {
                if j < pre.depth@.len() && k < pre.depth@[j]@.len() {
                    let c = pre.depth@[j]@[k];
                }
            }
        }
    }

    pub fn new() -> (t: Self)
        requires
            obeys_concrete_eq::<T>(),
        ensures
            t.wf(),
            t@ == seq![Seq::<Seq<T>>::empty()],
            t.node_values().len() == 1,
            call_ensures(T::default, (), t.node_values()[0]),
            t.node_parents() == seq![0usize],
            t.node_children() == seq![Seq::<usize>::empty()],
            t.nodes_by_depth() == seq![Seq::<usize>::empty()],
    {
        let mut t = TrieArena {
            arena: Vec::new(),
            children: Vec::new(),
            parent: Vec::new(),
            depth: Vec::new(),
        };
        // Place the root at position zero.
        t.arena.push(T::default());
        // The root has no parent.
        t.parent.push(0);
        // Push a vector for the children of the root.
        t.children.push(Vec::new());
        t.depth.push(Vec::new());
        proof {
            assert(t@ =~~= seq![Seq::<Seq<T>>::empty()]);
            assert(t.node_parents() =~= seq![0usize]);
            assert(t.node_children() =~~= seq![Seq::<usize>::empty()]);
            assert(t.nodes_by_depth() =~~= seq![Seq::<usize>::empty()]);
        }
        t
    }

    /// The child of `parent` that holds `x`, if there is one.
    fn find_child(&self, parent: usize, x: &T) -> (r: Option<usize>)
        requires
            self.wf(),
            parent < self.nodes(),
        ensures
            match r {
                Some(c) => 0 < c < self.nodes() && self.parent@[c as int] == parent
                    && self.arena@[c as int] == *x,
                None => forall|c: int|
                    0 < c < self.nodes() && #[trigger] self.parent@[c] == parent
                        ==> self.arena@[c] != *x,
            },
    {
        let kids = &self.children[parent];
        let mut k: usize = 0;
        while k < kids.len()
            invariant
                self.wf(),
                parent < self.nodes(),
                kids@ == self.children@[parent as int]@,
                k <= kids@.len(),
                forall|i: int| 0 <= i < k ==> self.arena@[(#[trigger] kids@[i]) as int] != *x,
            decreases kids@.len() - k,
        {
            let c: usize = kids[k];
            assert(self.children@[parent as int]@[k as int] == c);
            proof {
                reveal(obeys_concrete_eq);
            }
            if self.arena[c] == *x {
                return Some(c);
            }
            k += 1;
        }
        proof {
            assert forall|c: int|
                0 < c < self.nodes() && #[trigger] self.parent@[c] == parent implies self.arena@[c]
                != *x by {
                assert(kids@.contains(c as usize));
                let i = choose|i: int| 0 <= i < kids@.len() && kids@[i] == c as usize;
                assert(self.arena@[kids@[i] as int] != *x);
            }
        }
        None
    }

    /// A sequence is absent where, at some point on its way down, the node
    /// reached has no child with the next value.
    proof fn lemma_absent(&self, s: Seq<T>, cur: int, j: int)
        requires
            self.wf(),
            0 <= cur < self.nodes(),
            0 <= j < s.len(),
            self.path(cur) == s.take(j),
            forall|c: int|
                0 < c < self.nodes() && #[trigger] self.parent@[c] == cur ==> self.arena@[c]
                    != s[j],
        ensures
            !contains_path(self@, s),
    {
        self.lemma_contains_node(s);
        if contains_path(self@, s) {
            let c = choose|c: int| 0 < c < self.nodes() && #[trigger] self.path(c) == s;
            let a = self.lemma_ancestor(c, j + 1);
            self.lemma_path_step(a);
            let pa = self.parent@[a] as int;
            assert(s.take(j + 1).drop_last() =~= s.take(j));
            assert(self.path(pa) == self.path(cur));
            assert(pa == cur);
            assert(s.take(j + 1).last() == s[j]);
            assert(false);
        }
    }

    /// Add a value to the trie: the sequence and each of its prefixes. Each
    /// prefix that was absent gets one new node, appended to the arena; the
    /// nodes that were there keep index, value and parent, and each list of
    /// children and each list of a depth only gains entries at its end.
    pub fn add(&mut self, value: &[T])
        requires
            old(self).wf(),
        ensures
            final(self).wf(),
            final(self)@ == inserted(old(self)@, value@),
            old(self).node_values().is_prefix_of(final(self).node_values()),
            old(self).node_parents().is_prefix_of(final(self).node_parents()),
            forall|p: int|
                0 <= p < old(self).node_children().len() ==> old(self).node_children()[p].is_prefix_of(
                    #[trigger] final(self).node_children()[p],
                ),
            forall|d: int|
                0 <= d < old(self).nodes_by_depth().len() ==> old(self).nodes_by_depth()[d].is_prefix_of(
                    #[trigger] final(self).nodes_by_depth()[d],
                ),
            final(self).node_values().len() == old(self).node_values().len() + fresh_prefixes(
                old(self)@,
                value@,
                value@.len() as int,
            ),
    {
        let ghost before = self@;
        let ghost entry = *self;
        proof {
            assert(entry.node_values() =~= entry.node_values().subrange(
                0,
                entry.node_values().len() as int,
            ));
            assert(entry.node_parents() =~= entry.node_parents().subrange(
                0,
                entry.node_parents().len() as int,
            ));
            assert forall|p: int| 0 <= p < entry.node_children().len() implies entry.node_children()[p].is_prefix_of(
                #[trigger] entry.node_children()[p],
            ) by {
                let l = entry.node_children()[p];
                assert(l =~= l.subrange(0, l.len() as int));
            }
            assert forall|d: int| 0 <= d < entry.nodes_by_depth().len() implies entry.nodes_by_depth()[d].is_prefix_of(
                #[trigger] entry.nodes_by_depth()[d],
            ) by {
                let l = entry.nodes_by_depth()[d];
                assert(l =~= l.subrange(0, l.len() as int));
            }
        }
        let mut cur: usize = 0;
        let mut j: usize = 0;
        proof {
            assert(value@.take(0) =~= Seq::<T>::empty());
        }
        while j < value.len()
            invariant
                self.wf(),
                j <= value@.len(),
                cur < self.nodes(),
                self.path(cur as int) == value@.take(j as int),
                before.len() >= 1,
                self@.len() == if before.len() >= j {
                    before.len()
                } else {
                    j as nat
                },
                forall|d: int| 0 <= d < self@.len() ==> #[trigger] self@[d] == grown(before, value@, d, j as int),
                before == entry@,
                entry.node_values().is_prefix_of(self.node_values()),
                entry.node_parents().is_prefix_of(self.node_parents()),
                self.node_children().len() >= entry.node_children().len(),
                forall|p: int|
                    0 <= p < entry.node_children().len() ==> entry.node_children()[p].is_prefix_of(
                        #[trigger] self.node_children()[p],
                    ),
                self.nodes_by_depth().len() >= entry.nodes_by_depth().len(),
                forall|d: int|
                    0 <= d < entry.nodes_by_depth().len() ==> entry.nodes_by_depth()[d].is_prefix_of(
                        #[trigger] self.nodes_by_depth()[d],
                    ),
                self.node_values().len() == entry.node_values().len() + fresh_prefixes(
                    before,
                    value@,
                    j as int,
                ),
            decreases value@.len() - j,
        {
            let x: T = value[j];
            let ghost pre = *self;
            proof {
                assert(value@.take(j + 1) =~= value@.take(j as int).push(x));
            }
            match self.find_child(cur, &x) {
                Some(c) => {
                    proof {
                        self.lemma_path_step(c as int);
                        self.lemma_contains_node(value@.take(j + 1));
                        assert(self@[j as int] == grown(before, value@, j as int, j as int));
                        assert(contains_path(before, value@.take(j + 1)));
                        assert forall|d: int| 0 <= d < self@.len() implies #[trigger] self@[d]
                            == grown(before, value@, d, j + 1) by {
                            assert(self@[d] == grown(before, value@, d, j as int));
                        }
                    }
                    cur = c;
                },
                None => {
                    // Unable to find x; add x to the trie.
                    self.arena.push(x);
                    self.children.push(Vec::new());
                    self.parent.push(cur);
                    let x_index: usize = self.arena.len() - 1;
                    // The current parent has this index as a child now.
                    self.children[cur].push(x_index);
                    if self.depth.len() <= j {
                        self.depth.push(Vec::new());
                    }
                    // x resides in the current depth.
                    self.depth[j].push(x_index);
                    proof {
                        if j > 0 {
                            pre.lemma_contains_node(value@.take(j as int));
                        }
                        Self::lemma_push_node(pre, *self, cur as int, x, j as int);
                        assert(!contains_path(before, value@.take(j + 1))) by {
                            if j < pre@.len() {
                                assert(pre@[j as int] == grown(before, value@, j as int, j as int));
                            }
                        }
                        assert forall|d: int| 0 <= d < self@.len() implies #[trigger] self@[d]
                            == grown(before, value@, d, j + 1) by {
                            if d < pre@.len() {
                                assert(pre@[d] == grown(before, value@, d, j as int));
                            }
                        }
                        let grown_values = pre.node_values().push(x);
                        assert(pre.node_values() =~= grown_values.subrange(
                            0,
                            pre.node_values().len() as int,
                        ));
                        lemma_prefix_grows(entry.node_values(), pre.node_values(), self.node_values());
                        let grown_parents = pre.node_parents().push(cur);
                        assert(pre.node_parents() =~= grown_parents.subrange(
                            0,
                            pre.node_parents().len() as int,
                        ));
                        lemma_prefix_grows(
                            entry.node_parents(),
                            pre.node_parents(),
                            self.node_parents(),
                        );
                        assert forall|p: int| 0 <= p < entry.node_children().len() implies entry.node_children()[p].is_prefix_of(
                            #[trigger] self.node_children()[p],
                        ) by {
                            lemma_prefix_grows(
                                entry.node_children()[p],
                                pre.node_children()[p],
                                self.node_children()[p],
                            );
                        }
                        assert forall|d: int| 0 <= d < entry.nodes_by_depth().len() implies entry.nodes_by_depth()[d].is_prefix_of(
                            #[trigger] self.nodes_by_depth()[d],
                        ) by {
                            lemma_prefix_grows(
                                entry.nodes_by_depth()[d],
                                pre.nodes_by_depth()[d],
                                self.nodes_by_depth()[d],
                            );
                        }
                    }
                    cur = x_index;
                },
            }
            j += 1;
        }
        proof {
            assert(self@ =~= inserted(before, value@));
        }
    }

    /// The sequence that a node spells, read off by walking up to the root.
    fn spell(&self, node: usize) -> (r: Vec<T>)
        requires
            self.wf(),
            node < self.nodes(),
        ensures
            r@ == self.path(node as int),
    {
        let mut index: usize = node;
        let mut upward: Vec<T> = Vec::new();
        proof {
            assert(self.path(node as int) =~= self.path(index as int) + upward@.reverse());
        }
        while index != 0
            invariant
                self.wf(),
                index < self.nodes(),
                self.path(node as int) == self.path(index as int) + upward@.reverse(),
            decreases index,
        {
            proof {
                self.lemma_path_step(index as int);
                let up = upward@;
                let x = self.arena@[index as int];
                let p = self.path(self.parent@[index as int] as int);
                assert(up.push(x).reverse() =~= seq![x] + up.reverse());
                assert(p.push(x) + up.reverse() =~= p + up.push(x).reverse());
            }
            upward.push(self.arena[index]);
            index = self.parent[index];
        }
        let mut r: Vec<T> = Vec::with_capacity(upward.len());
        let mut k: usize = upward.len();
        while k > 0
            invariant
                k <= upward@.len(),
                r@ == upward@.reverse().take(upward@.len() - k),
            decreases k,
        {
            k -= 1;
            r.push(upward[k]);
            proof {
                let rev = upward@.reverse();
                let m = upward@.len() - k;
                assert(rev.take(m) =~= rev.take(m - 1).push(rev[m - 1]));
            }
        }
        proof {
            assert(upward@.reverse().take(upward@.len() as int) =~= upward@.reverse());
            assert(self.path(0) + upward@.reverse() =~= upward@.reverse());
        }
        r
    }

    /// Number of stored sequences of length `d + 1`.
    pub(crate) fn level_len(&self, d: usize) -> (n: usize)
        requires
            self.wf(),
        ensures
            n == level(self@, d as int).len(),
    {
        if d < self.depth.len() {
            self.depth[d].len()
        } else {
            0
        }
    }

    /// The `k`-th stored sequence of length `d + 1`.
    pub(crate) fn level_item(&self, d: usize, k: usize) -> (r: Vec<T>)
        requires
            self.wf(),
            k < level(self@, d as int).len(),
        ensures
            r@ == level(self@, d as int)[k as int],
    {
        let node: usize = self.depth[d][k];
        assert(self.depth@[d as int]@[k as int] == node);
        self.spell(node)
    }

    /// Number of levels.
    pub(crate) fn levels(&self) -> (n: usize)
        requires
            self.wf(),
        ensures
            n == self@.len(),
    {
        self.depth.len()
    }

    pub fn contains(&self, value: &[T]) -> (r: bool)
        requires
            self.wf(),
        ensures
            r == contains_path(self@, value@),
    {
        let mut cur: usize = 0;
        let mut j: usize = 0;
        proof {
            assert(value@.take(0) =~= Seq::<T>::empty());
        }
        while j < value.len()
            invariant
                self.wf(),
                j <= value@.len(),
                cur < self.nodes(),
                self.path(cur as int) == value@.take(j as int),
            decreases value@.len() - j,
        {
            match self.find_child(cur, &value[j]) {
                Some(c) => {
                    proof {
                        self.lemma_path_step(c as int);
                        assert(value@.take(j + 1) =~= value@.take(j as int).push(value@[j as int]));
                    }
                    cur = c;
                    j += 1;
                },
                None => {
                    proof {
                        self.lemma_absent(value@, cur as int, j as int);
                    }
                    return false;
                },
            }
        }
        proof {
            assert(value@.take(j as int) =~= value@);
            if value@.len() > 0 {
                self.lemma_contains_node(value@);
            }
        }
        true
    }
}

} // verus!
