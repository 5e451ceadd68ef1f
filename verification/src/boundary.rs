//! Producing boundary matrices of a simplicial complex.
use crate::dense::DenseMatrix;
use crate::matrix::Matrix;
use crate::simplex::{is_face_of, Vertex};
use crate::simplex_trie::{level, SimplexTrie};
use vstd::prelude::*;

verus! {

/// The incidence of the simplices of dimension `p - 1` (the rows) in those
/// of dimension `p` (the columns): row `i` has a one in column `j` where the
/// `i`-th simplex is a face of the `j`-th.
pub open spec fn incidence(levels: Seq<Seq<Seq<Vertex>>>, p: int) -> Seq<Seq<bool>> {
    Seq::new(
        level(levels, p - 1).len(),
        |i: int|
            Seq::new(
                level(levels, p).len(),
                |j: int| is_face_of(level(levels, p - 1)[i], level(levels, p)[j]),
            ),
    )
}

/// Return the boundary matrix for the p'th dimension.
pub fn boundary(complex: &SimplexTrie, p: usize) -> (mat: DenseMatrix<usize>)
    requires
        complex.wf(),
        p >= 1,
        level(complex@, p - 1).len() * level(complex@, p as int).len() <= usize::MAX,
    ensures
        mat.wf(),
        mat.rows() == level(complex@, p - 1).len(),
        mat.cols() == level(complex@, p as int).len(),
        forall|i: int, j: int|
            0 <= i < mat.rows() && 0 <= j < mat.cols() ==> #[trigger] mat.cell(i, j) == Some(
                if incidence(complex@, p as int)[i][j] {
                    1usize
                } else {
                    0usize
                },
            ),
{
    // Rows are the number of p-1 simplices; cols p-simplices.
    let rows: usize = complex.count_dim(p - 1);
    let cols: usize = complex.count_dim(p);
    let mut mat = DenseMatrix::<usize>::new(rows, cols);
    let ghost inc = incidence(complex@, p as int);
    proof {
        complex.lemma_levels_wf();
    }
    let mut j: usize = 0;
    while j < cols
        invariant
            complex.wf(),
            p >= 1,
            mat.wf(),
            rows == mat.rows() == level(complex@, p - 1).len(),
            cols == mat.cols() == level(complex@, p as int).len(),
            crate::simplex_trie::levels_wf(complex@),
            inc == incidence(complex@, p as int),
            j <= cols,
            forall|r: int, c: int|
                0 <= r < rows && 0 <= c < cols ==> #[trigger] mat.cell(r, c) == Some(
                    if c < j && inc[r][c] {
                        1usize
                    } else {
                        0usize
                    },
                ),
        decreases cols - j,
    {
        let bigger = complex.simplex_at(p, j);
        let mut i: usize = 0;
        while i < rows
            invariant
                complex.wf(),
                p >= 1,
                mat.wf(),
                rows == mat.rows() == level(complex@, p - 1).len(),
                cols == mat.cols() == level(complex@, p as int).len(),
                crate::simplex_trie::levels_wf(complex@),
                inc == incidence(complex@, p as int),
                j < cols,
                i <= rows,
                bigger@ == level(complex@, p as int)[j as int],
                forall|r: int, c: int|
                    0 <= r < rows && 0 <= c < cols ==> #[trigger] mat.cell(r, c) == Some(
                        if (c < j || (c == j && r < i)) && inc[r][c] {
                            1usize
                        } else {
                            0usize
                        },
                    ),
            decreases rows - i,
        {
            let smaller = complex.simplex_at(p - 1, i);
            proof {
                assert(complex@[p - 1][i as int].len() == p);
                assert(complex@[p as int][j as int].len() == p + 1);
            }
            if smaller.is_face(&bigger) {
                mat.set(i, j, 1);
            }
            i += 1;
        }
        j += 1;
    }
    mat
}

} // verus!
