//! The simplex trie: the arena trie on vertices, and the iteration over its
//! simplices.
use crate::simplex::{Simplex, Vertex};
pub use crate::trie_arena::{
    contains_path, fresh_prefixes, grown, inserted, layout_wf, lemma_inserted_contains,
    lemma_inserted_count, level, levels_wf, path_of, TrieArena,
};
use vstd::laws_eq::obeys_concrete_eq;
use vstd::prelude::*;

verus! {

/// What an iteration that stands at position `index` of level `depth` has
/// still to yield: the rest of that level and, unless the iteration is over
/// a single level, the levels after it.
pub open spec fn pending<T>(levels: Seq<Seq<Seq<T>>>, depth: int, index: int, single: bool) -> Seq<
    Seq<T>,
>
    decreases levels.len() - depth,
{
    if depth < 0 || depth >= levels.len() {
        Seq::empty()
    } else if single {
        levels[depth].skip(index)
    } else {
        levels[depth].skip(index) + pending(levels, depth + 1, 0, false)
    }
}

/// The backings that a simplicial complex can have.
pub enum SimplicialComplexBacking {
    SimplexTrieArena,
    SimplexTriePtr,
}

/// The simplex trie: a trie of vertices.
pub struct SimplexTrie(TrieArena<Vertex>);

impl View for SimplexTrie {
    type V = Seq<Seq<Seq<Vertex>>>;

    /// The stored simplices by dimension: `self@[d]` lists the vertex
    /// sequences of the simplices of dimension `d`, in insertion order.
    closed spec fn view(&self) -> Seq<Seq<Seq<Vertex>>> {
        self.0@
    }
}

/// The levels of a trie that holds the `n` singletons `[Vertex(i, 0)]`.
pub open spec fn skeleton(n: nat) -> Seq<Seq<Seq<Vertex>>> {
    seq![Seq::new(n, |i: int| seq![Vertex(i as usize, 0)])]
}

/// A trie of `n` points has `n` simplices of dimension 0 and none above.
pub proof fn lemma_skeleton_counts(n: nat, d: int)
    ensures
        level(skeleton(n), 0).len() == n,
        d > 0 ==> level(skeleton(n), d).len() == 0,
{
}

impl Default for SimplexTrie {
    fn default() -> (t: Self)
        ensures
            t.wf(),
            t@ == skeleton(0),
    {
        Self::new()
    }
}

impl SimplexTrie {
    /// The invariant of the trie.
    pub closed spec fn wf(&self) -> bool {
        self.0.wf()
    }

    /// The arena that holds the nodes of the trie.
    pub closed spec fn arena(&self) -> TrieArena<Vertex> {
        self.0
    }

    /// The trie is its arena: the invariant and the levels are the arena's.
    pub proof fn lemma_arena(&self)
        ensures
            self.wf() == self.arena().wf(),
            self@ == self.arena()@,
    {
    }

    /// What the levels of a trie always satisfy.
    pub proof fn lemma_levels_wf(&self)
        requires
            self.wf(),
        ensures
            levels_wf(self@),
    {
        self.0.lemma_levels_wf();
    }

    /// Create a new, empty SimplexTrie: its arena holds the root only.
    pub fn new() -> (t: Self)
        ensures
            t.wf(),
            t@ == skeleton(0),
            t.arena().node_values() == seq![Vertex(0, 0)],
            t.arena().node_parents() == seq![0usize],
            t.arena().node_children() == seq![Seq::<usize>::empty()],
            t.arena().nodes_by_depth() == seq![Seq::<usize>::empty()],
    {
        proof {
            reveal(obeys_concrete_eq);
        }
        let t = SimplexTrie(TrieArena::new());
        proof {
            assert(t@ =~~= skeleton(0));
            assert(t.arena().node_values() =~= seq![Vertex(0, 0)]);
        }
        t
    }

    /// Create a new SimplexTrie with a 0-skeleton of size 'sz'.
    pub fn new_skel(sz: usize) -> (t: Self)
        ensures
            t.wf(),
            t@ == skeleton(sz as nat),
    {
        let mut st = SimplexTrie::new();
        let mut i: usize = 0;
        while i < sz
            invariant
                i <= sz,
                st.wf(),
                st@ == skeleton(i as nat),
            decreases sz - i,
        {
            let ghost before = st@;
            let single: Vec<Vertex> = vec![Vertex::new(i, 0)];
            st.0.add(single.as_slice());
            proof {
                let s = seq![Vertex(i, 0)];
                assert(single@ =~= s);
                assert(s.take(1) =~= s);
                assert(!before[0].contains(s)) by {
                    if before[0].contains(s) {
                        let k = choose|k: int| 0 <= k < before[0].len() && before[0][k] == s;
                        assert(before[0][k][0] == s[0]);
                    }
                }
                assert(st@ =~~= skeleton((i + 1) as nat));
            }
            i += 1;
        }
        st
    }

    /// Store a simplex and each of its prefixes. Each prefix that was absent
    /// gets one new node, appended to the arena; the nodes that were there
    /// keep index, value and parent, and each list of children and each list
    /// of a depth only gains entries at its end.
    pub fn add_simplex(&mut self, simplex: &Simplex)
        requires
            old(self).wf(),
        ensures
            final(self).wf(),
            final(self)@ == inserted(old(self)@, simplex@),
            old(self).arena().node_values().is_prefix_of(final(self).arena().node_values()),
            old(self).arena().node_parents().is_prefix_of(final(self).arena().node_parents()),
            forall|p: int|
                0 <= p < old(self).arena().node_children().len() ==> old(
                    self,
                ).arena().node_children()[p].is_prefix_of(
                    #[trigger] final(self).arena().node_children()[p],
                ),
            forall|d: int|
                0 <= d < old(self).arena().nodes_by_depth().len() ==> old(
                    self,
                ).arena().nodes_by_depth()[d].is_prefix_of(
                    #[trigger] final(self).arena().nodes_by_depth()[d],
                ),
            final(self).arena().node_values().len() == old(self).arena().node_values().len()
                + fresh_prefixes(old(self)@, simplex@, simplex@.len() as int),
    {
        self.0.add(simplex.vertices());
    }

    pub fn contains_simplex(&self, simplex: &Simplex) -> (r: bool)
        requires
            self.wf(),
        ensures
            r == contains_path(self@, simplex@),
    {
        self.0.contains(simplex.vertices())
    }

    /// An iteration over the simplices of dimension `sz`, in insertion order.
    pub fn iter_dim(&self, sz: usize) -> (it: SimplexTrieIterator<'_>)
        requires
            self.wf(),
        ensures
            it.wf(),
            it.levels() == self@,
            it.remaining() == level(self@, sz as int),
    {
        let it = SimplexTrieIterator(sz, 0, &self.0, true);
        proof {
            assert(level(self@, sz as int).skip(0) =~= level(self@, sz as int));
        }
        it
    }

    /// An iteration over all the stored simplices, by rising dimension and,
    /// within a dimension, in insertion order.
    pub fn into_iter(&self) -> (it: SimplexTrieIterator<'_>)
        requires
            self.wf(),
        ensures
            it.wf(),
            it.levels() == self@,
            it.remaining() == pending(self@, 0, 0, false),
    {
        SimplexTrieIterator(0, 0, &self.0, false)
    }

    /// Number of dimensions that the trie has a level for.
    pub fn levels(&self) -> (n: usize)
        requires
            self.wf(),
        ensures
            n == self@.len(),
    {
        self.0.levels()
    }

    /// Number of simplices of dimension `d`.
    pub fn count_dim(&self, d: usize) -> (n: usize)
        requires
            self.wf(),
        ensures
            n == level(self@, d as int).len(),
    {
        self.0.level_len(d)
    }

    /// The `k`-th simplex of dimension `d`, in insertion order.
    pub fn simplex_at(&self, d: usize, k: usize) -> (s: Simplex)
        requires
            self.wf(),
            k < level(self@, d as int).len(),
        ensures
            s@ == level(self@, d as int)[k as int],
    {
        Simplex::new(self.0.level_item(d, k))
    }
}

// Depth, Index, TrieArena, whether the iteration is over one depth only.
pub struct SimplexTrieIterator<'a>(usize, usize, &'a TrieArena<Vertex>, bool);

impl<'a> SimplexTrieIterator<'a> {
    pub closed spec fn wf(&self) -> bool {
        &&& self.2.wf()
        &&& self.1 <= level(self.2@, self.0 as int).len()
    }

    /// The levels of the trie that is iterated over.
    pub closed spec fn levels(&self) -> Seq<Seq<Seq<Vertex>>> {
        self.2@
    }

    /// The simplices still to come, in the order in which they come.
    pub closed spec fn remaining(&self) -> Seq<Seq<Vertex>> {
        pending(self.2@, self.0 as int, self.1 as int, self.3)
    }

    /// The next simplex, or `None` once the iteration is exhausted.
    pub fn next(&mut self) -> (r: Option<Simplex>)
        requires
            old(self).wf(),
        ensures
            final(self).wf(),
            final(self).levels() == old(self).levels(),
            match r {
                Some(s) => old(self).remaining().len() > 0 && s@ == old(self).remaining()[0]
                    && final(self).remaining() == old(self).remaining().skip(1),
                None => old(self).remaining().len() == 0 && final(self).remaining().len() == 0,
            },
    {
        let ghost levels = self.2@;
        let ghost start = self.remaining();
        loop
            invariant
                self.wf(),
                self.2@ == levels,
                levels == old(self).levels(),
                self.3 == old(self).3,
                self.remaining() == start,
                start == old(self).remaining(),
            decreases levels.len() - self.0,
        {
            // If there's nothing at this depth, the iterator is exhausted.
            if self.0 >= self.2.levels() {
                return None;
            }
            // If we can fetch something at 'index', then we can build a
            // simplex; otherwise, go to the next depth.
            if self.1 < self.2.level_len(self.0) {
                let vertices = self.2.level_item(self.0, self.1);
                proof {
                    let here = levels[self.0 as int];
                    assert(here.skip(self.1 as int)[0] == here[self.1 as int]);
                    assert(here.skip(self.1 as int).skip(1) =~= here.skip(self.1 + 1));
                    if !self.3 {
                        let later = pending(levels, self.0 + 1, 0, false);
                        assert((here.skip(self.1 as int) + later).skip(1) =~= here.skip(self.1 + 1)
                            + later);
                    }
                }
                self.1 = self.1 + 1;
                return Some(Simplex::new(vertices));
            }
            // If it's a dimensional iter, we're done.

            if self.3 {
                return None;
            }
            proof {
                let here = levels[self.0 as int];
                let later = pending(levels, self.0 + 1, 0, false);
                assert(here.skip(self.1 as int) + later =~= later);
                if self.0 + 1 < levels.len() {
                    assert(levels[self.0 + 1].skip(0) =~= levels[self.0 + 1]);
                }
            }
            self.0 = self.0 + 1;
            self.1 = 0;
        }
    }
}

} // verus!
