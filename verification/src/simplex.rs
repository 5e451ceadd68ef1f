//! Vertices and simplices.
use crate::text::{push_decimal, push_vertex, simplex_text, vertex_text, vertices_text};
use std::cmp::Ordering;
use vstd::prelude::*;
use vstd::std_specs::iter::IteratorSpec;
use vstd::string::StringExecFns;

verus! {

/// A vertex: an identity and the scale at which it entered the filtration.
#[derive(Debug, Clone, Copy)]
pub struct Vertex(pub usize, pub usize);

impl PartialEq for Vertex {
    fn eq(&self, other: &Self) -> (r: bool) {
        self.0 == other.0 && self.1 == other.1
    }
}

impl Eq for Vertex {

}

impl vstd::std_specs::cmp::PartialEqSpecImpl for Vertex {
    open spec fn obeys_eq_spec() -> bool {
        true
    }

    open spec fn eq_spec(&self, other: &Self) -> bool {
        self.0 == other.0 && self.1 == other.1
    }
}

impl Vertex {
    pub fn new(id: usize, weight: usize) -> (v: Self)
        ensures
            v == Vertex(id, weight),
    {
        Vertex(id, weight)
    }

    pub fn id(&self) -> (id: usize)
        ensures
            id == self.0,
    {
        self.0
    }

    pub fn weight(&self) -> (w: usize)
        ensures
            w == self.1,
    {
        self.1
    }
}

/// Vertices are ordered by weight first, then by id.
impl PartialOrd for Vertex {
    fn partial_cmp(&self, other: &Self) -> (r: Option<Ordering>) {
        if self.1 < other.1 {
            Some(Ordering::Less)
        } else if self.1 > other.1 {
            Some(Ordering::Greater)
        } else if self.0 < other.0 {
            Some(Ordering::Less)
        } else if self.0 > other.0 {
            Some(Ordering::Greater)
        } else {
            Some(Ordering::Equal)
        }
    }
}

impl vstd::std_specs::cmp::PartialOrdSpecImpl for Vertex {
    open spec fn obeys_partial_cmp_spec() -> bool {
        true
    }

    open spec fn partial_cmp_spec(&self, other: &Self) -> Option<Ordering> {
        if self.1 < other.1 {
            Some(Ordering::Less)
        } else if self.1 > other.1 {
            Some(Ordering::Greater)
        } else if self.0 < other.0 {
            Some(Ordering::Less)
        } else if self.0 > other.0 {
            Some(Ordering::Greater)
        } else {
            Some(Ordering::Equal)
        }
    }
}

impl Vertex {
    /// The vertex as text: `(id, weight)`.
    pub fn to_string(&self) -> (r: String)
        ensures
            r@ == vertex_text(*self),
    {
        let mut out = String::new();
        push_vertex(&mut out, self);
        proof {
            assert(Seq::<char>::empty() + vertex_text(*self) =~= vertex_text(*self));
        }
        out
    }
}

impl Default for Vertex {
    fn default() -> (v: Self)
        ensures
            v == Vertex(0, 0),
    {
        Vertex(0, 0)
    }
}

/// A Simplex consists of a sequence of Vertices, kept in the order in which
/// they were given.
#[derive(Debug)]
pub struct Simplex(Vec<Vertex>);

impl Clone for Simplex {
    fn clone(&self) -> (s: Self)
        ensures
            s@ == self@,
    {
        let mut vertices: Vec<Vertex> = Vec::with_capacity(self.0.len());
        let mut i: usize = 0;
        while i < self.0.len()
            invariant
                i <= self.0@.len(),
                vertices@ == self.0@.take(i as int),
            decreases self.0@.len() - i,
        {
            vertices.push(self.0[i]);
            proof {
                assert(self.0@.take(i + 1) =~= self.0@.take(i as int).push(self.0@[i as int]));
            }
            i += 1;
        }
        proof {
            assert(self.0@.take(i as int) =~= self.0@);
        }
        Simplex(vertices)
    }
}

/// Two simplices are equal where their vertex sequences are: the order of
/// the vertices counts.
impl PartialEq for Simplex {
    fn eq(&self, other: &Self) -> (r: bool) {
        if self.0.len() != other.0.len() {
            return false;
        }
        let mut i: usize = 0;
        while i < self.0.len()
            invariant
                self.0@.len() == other.0@.len(),
                i <= self.0@.len(),
                forall|k: int| 0 <= k < i ==> self.0@[k] == other.0@[k],
            decreases self.0@.len() - i,
        {
            if self.0[i] != other.0[i] {
                return false;
            }
            i += 1;
        }
        proof {
            assert(self.0@ =~= other.0@);
        }
        true
    }
}

impl Eq for Simplex {

}

impl vstd::std_specs::cmp::PartialEqSpecImpl for Simplex {
    open spec fn obeys_eq_spec() -> bool {
        true
    }

    open spec fn eq_spec(&self, other: &Self) -> bool {
        self@ == other@
    }
}

impl View for Simplex {
    type V = Seq<Vertex>;

    closed spec fn view(&self) -> Seq<Vertex> {
        self.0@
    }
}

/// `w` is the largest weight among the vertices of `s`.
pub open spec fn is_max_weight(s: Seq<Vertex>, w: usize) -> bool {
    &&& exists|i: int| 0 <= i < s.len() && (#[trigger] s[i]).1 == w
    &&& forall|i: int| 0 <= i < s.len() ==> (#[trigger] s[i]).1 <= w
}

/// The largest weight among the vertices of a non-empty `s`.
pub open spec fn max_weight(s: Seq<Vertex>) -> usize {
    choose|w: usize| is_max_weight(s, w)
}

/// A sequence of vertices has one largest weight.
pub proof fn lemma_max_weight(s: Seq<Vertex>, w: usize)
    requires
        is_max_weight(s, w),
    ensures
        max_weight(s) == w,
{
    let m = max_weight(s);
    assert(is_max_weight(s, m));
    let i = choose|i: int| 0 <= i < s.len() && (#[trigger] s[i]).1 == w;
    let j = choose|j: int| 0 <= j < s.len() && (#[trigger] s[j]).1 == m;
    assert(s[i].1 <= m);
    assert(s[j].1 <= w);
}

/// `a` is a face of `b`: `b` has at least two vertices, `a` has one fewer,
/// and every vertex of `a` is a vertex of `b`.
pub open spec fn is_face_of(a: Seq<Vertex>, b: Seq<Vertex>) -> bool {
    &&& b.len() >= 2
    &&& a.len() + 1 == b.len()
    &&& forall|i: int| 0 <= i < a.len() ==> b.contains(#[trigger] a[i])
}

impl Simplex {
    pub fn new(vertices: Vec<Vertex>) -> (s: Self)
        ensures
            s@ == vertices@,
    {
        Simplex(vertices)
    }

    /// Return the weight of a Simplex, which is the largest weight of its
    /// vertices.
    pub fn weight(&self) -> (w: usize)
        requires
            self@.len() > 0,
        ensures
            is_max_weight(self@, w),
            w == max_weight(self@),
    {
        let mut w: usize = self.0[0].1;
        let mut i: usize = 1;
        while i < self.0.len()
            invariant
                1 <= i <= self.0@.len(),
                exists|k: int| 0 <= k < i && (#[trigger] self.0@[k]).1 == w,
                forall|k: int| 0 <= k < i ==> (#[trigger] self.0@[k]).1 <= w,
            decreases self.0@.len() - i,
        {
            if self.0[i].1 > w {
                w = self.0[i].1;
            }
            i += 1;
        }
        proof {
            lemma_max_weight(self@, w);
        }
        w
    }

    /// Return the dimension of a Simplex.
    pub fn dim(&self) -> (d: usize)
        requires
            self@.len() > 0,
        ensures
            d == self@.len() - 1,
    {
        self.0.len() - 1
    }

    /// The simplex that has one vertex more, appended at the end.
    pub fn with_vertex(&self, v: Vertex) -> (s: Self)
        ensures
            s@ == self@.push(v),
    {
        let mut s = self.clone();
        s.0.push(v);
        s
    }

    /// The simplex as text: its vertices, then its weight.
    pub fn to_string(&self) -> (r: String)
        requires
            self@.len() > 0,
        ensures
            r@ == simplex_text(self@, max_weight(self@)),
    {
        proof {
            reveal_strlit("Simplex(");
            reveal_strlit(", ");
            reveal_strlit("weight: ");
            reveal_strlit(")");
        }
        let mut out = String::from_str("Simplex(");
        let ghost head = out@;
        let mut i: usize = 0;
        while i < self.0.len()
            invariant
                i <= self.0@.len(),
                out@ == head + vertices_text(self.0@, i as nat),
                ", "@ == seq![',', ' '],
            decreases self.0@.len() - i,
        {
            let ghost before = out@;
            push_vertex(&mut out, &self.0[i]);
            out.append(", ");
            proof {
                assert(out@ =~= head + vertices_text(self.0@, (i + 1) as nat));
            }
            i += 1;
        }
        let w: usize = self.weight();
        out.append("weight: ");
        push_decimal(&mut out, w);
        out.append(")");
        proof {
            assert(out@ =~= simplex_text(self@, w));
        }
        out
    }

    pub fn vertices(&self) -> (v: &[Vertex])
        ensures
            v@ == self@,
    {
        self.0.as_slice()
    }

    /// Return whether this simplex is a face of another simplex. The other
    /// simplex has a vertex; where it has more than one, so has this one.
    pub fn is_face(&self, other: &Self) -> (r: bool)
        requires
            other@.len() > 0,
            other@.len() > 1 ==> self@.len() > 0,
        ensures
            r == is_face_of(self@, other@),
    {
        if other.dim() == 0 {
            return false;
        }
        if self.dim() != other.dim() - 1 {
            return false;
        }
        let mut i: usize = 0;
        while i < self.0.len()
            invariant
                i <= self.0@.len(),
                forall|k: int| 0 <= k < i ==> other.0@.contains(#[trigger] self.0@[k]),
            decreases self.0@.len() - i,
        {
            if !holds(other.vertices(), &self.0[i]) {
                return false;
            }
            i += 1;
        }
        true
    }
}

/// Simplices are ordered by weight. A simplex without vertices has no
/// weight, and compares with none.
impl PartialOrd for Simplex {
    fn partial_cmp(&self, other: &Self) -> (r: Option<Ordering>) {
        if self.0.len() == 0 || other.0.len() == 0 {
            return None;
        }
        let a: usize = self.weight();
        let b: usize = other.weight();
        proof {
            lemma_max_weight(self@, a);
            lemma_max_weight(other@, b);
        }
        if a < b {
            Some(Ordering::Less)
        } else if a > b {
            Some(Ordering::Greater)
        } else {
            Some(Ordering::Equal)
        }
    }
}

impl vstd::std_specs::cmp::PartialOrdSpecImpl for Simplex {
    open spec fn obeys_partial_cmp_spec() -> bool {
        true
    }

    open spec fn partial_cmp_spec(&self, other: &Self) -> Option<Ordering> {
        if self@.len() == 0 || other@.len() == 0 {
            None
        } else if max_weight(self@) < max_weight(other@) {
            Some(Ordering::Less)
        } else if max_weight(self@) > max_weight(other@) {
            Some(Ordering::Greater)
        } else {
            Some(Ordering::Equal)
        }
    }
}

/// An iteration over a simplex yields its vertices, in their order.
impl IntoIterator for Simplex {
    type Item = Vertex;

    type IntoIter = std::vec::IntoIter<Vertex>;

    fn into_iter(self) -> (iter: Self::IntoIter)
        ensures
            iter.remaining() == self@,
            IteratorSpec::decrease(&iter) is Some,
            IteratorSpec::initial_value_relation(&iter, &iter),
    {
        self.0.into_iter()
    }
}

/// An iteration over a borrowed simplex yields references to its vertices,
/// in their order.
impl<'a> IntoIterator for &'a Simplex {
    type Item = &'a Vertex;

    type IntoIter = std::slice::Iter<'a, Vertex>;

    fn into_iter(self) -> (iter: Self::IntoIter)
        ensures
            iter.remaining() == self@.as_ref(),
            IteratorSpec::decrease(&iter) is Some,
            IteratorSpec::initial_value_relation(&iter, &iter),
    {
        self.0.iter()
    }
}

/// Whether `v` occurs among `vertices`.
fn holds(vertices: &[Vertex], v: &Vertex) -> (r: bool)
    ensures
        r == vertices@.contains(*v),
{
    let mut i: usize = 0;
    while i < vertices.len()
        invariant
            i <= vertices@.len(),
            forall|k: int| 0 <= k < i ==> vertices@[k] != *v,
        decreases vertices@.len() - i,
    {
        if vertices[i] == *v {
            return true;
        }
        i += 1;
    }
    false
}

} // verus!
