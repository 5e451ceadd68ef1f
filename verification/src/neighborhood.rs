//! Utilities for computing neighborhood graphs.
use crate::matrix::Matrix;
use crate::sparse::SparseMatrix;
use vstd::prelude::*;

verus! {

/// Compute an adjacency matrix from a distance matrix and a test that says
/// which distances are near: a cell is `true` where the distance is defined
/// and near, and absent elsewhere.
pub fn to_adjacency<T, M: Matrix<T>, F: Fn(&T) -> bool>(dist: &M, near: F) -> (sm: SparseMatrix<
    bool,
>)
    requires
        dist.wf(),
        dist.rows() * dist.cols() <= usize::MAX,
        forall|v: &T| call_requires(near, (v,)),
    ensures
        sm.wf(),
        sm.rows() == dist.rows(),
        sm.cols() == dist.cols(),
        forall|r: int, c: int|
            0 <= r < dist.rows() && 0 <= c < dist.cols() ==> is_adjacency(
                dist.cell(r, c),
                near,
                #[trigger] sm.cell(r, c),
            ),
{
    let (rows, cols) = dist.dim();
    let mut sm = SparseMatrix::new(rows, cols);
    let mut c: usize = 0;
    while c < cols
        invariant
            dist.wf(),
            sm.wf(),
            rows == dist.rows() == sm.rows(),
            cols == dist.cols() == sm.cols(),
            c <= cols,
            forall|v: &T| call_requires(near, (v,)),
            forall|i: int, j: int|
                0 <= i < rows && 0 <= j < cols ==> if j < c {
                    is_adjacency(dist.cell(i, j), near, #[trigger] sm.cell(i, j))
                } else {
                    sm.cell(i, j) is None
                },
        decreases cols - c,
    {
        let mut r: usize = 0;
        while r < rows
            invariant
                dist.wf(),
                sm.wf(),
                rows == dist.rows() == sm.rows(),
                cols == dist.cols() == sm.cols(),
                c < cols,
                r <= rows,
                forall|v: &T| call_requires(near, (v,)),
                forall|i: int, j: int|
                    0 <= i < rows && 0 <= j < cols ==> if j < c || (j == c && i < r) {
                        is_adjacency(dist.cell(i, j), near, #[trigger] sm.cell(i, j))
                    } else {
                        sm.cell(i, j) is None
                    },
            decreases rows - r,
        {
            if let Some(val) = dist.get(r, c) {
                if near(val) {
                    sm.set(r, c, true);
                }
            }
            r += 1;
        }
        c += 1;
    }
    sm
}

/// What the cell of an adjacency matrix holds, given the distance in the
/// cell of the distance matrix: `true` where the distance is defined and the
/// test finds it near, nothing where the test does not.
pub open spec fn is_adjacency<T, F: Fn(&T) -> bool>(
    dist: Option<T>,
    near: F,
    adjacent: Option<bool>,
) -> bool {
    match adjacent {
        Some(b) => b && dist is Some && call_ensures(near, (&dist.unwrap(),), true),
        None => dist is Some ==> call_ensures(near, (&dist.unwrap(),), false),
    }
}

} // verus!
