//! Utilities for producing distance matrices from point cloud data.
use crate::dense::DenseMatrix;
use crate::matrix::Matrix;
use vstd::prelude::*;

verus! {

/// Produce a NxN distance matrix: the cell `(i, j)` holds the distance from
/// the `i`-th point to the `j`-th.
pub fn to_dist_mat<P, T: Default, F: Fn(&P, &P) -> T>(cloud: &[P], dist: F) -> (dm: DenseMatrix<T>)
    requires
        cloud@.len() * cloud@.len() <= usize::MAX,
        forall|a: &P, b: &P| call_requires(dist, (a, b)),
    ensures
        dm.wf(),
        dm.rows() == cloud@.len(),
        dm.cols() == cloud@.len(),
        forall|i: int, j: int|
            0 <= i < cloud@.len() && 0 <= j < cloud@.len() ==> is_distance(
                dist,
                cloud@[i],
                cloud@[j],
                #[trigger] dm.cell(i, j),
            ),
{
    let n: usize = cloud.len();
    let mut dm = DenseMatrix::new(n, n);
    let mut i: usize = 0;
    while i < n
        invariant
            n == cloud@.len(),
            dm.wf(),
            dm.rows() == n,
            dm.cols() == n,
            i <= n,
            forall|a: &P, b: &P| call_requires(dist, (a, b)),
            forall|r: int, c: int|
                0 <= r < i && 0 <= c < n ==> is_distance(
                    dist,
                    cloud@[r],
                    cloud@[c],
                    #[trigger] dm.cell(r, c),
                ),
        decreases n - i,
    {
        let mut j: usize = 0;
        while j < n
            invariant
                n == cloud@.len(),
                dm.wf(),
                dm.rows() == n,
                dm.cols() == n,
                i < n,
                j <= n,
                forall|a: &P, b: &P| call_requires(dist, (a, b)),
                forall|r: int, c: int|
                    0 <= r < n && 0 <= c < n && (r < i || (r == i && c < j)) ==> is_distance(
                        dist,
                        cloud@[r],
                        cloud@[c],
                        #[trigger] dm.cell(r, c),
                    ),
            decreases n - j,
        {
            let d = dist(&cloud[i], &cloud[j]);
            dm.set(i, j, d);
            j += 1;
        }
        i += 1;
    }
    dm
}

/// The cell holds a distance from `a` to `b`, as `dist` computes it.
pub open spec fn is_distance<P, T, F: Fn(&P, &P) -> T>(dist: F, a: P, b: P, cell: Option<T>) -> bool {
    cell is Some && call_ensures(dist, (&a, &b), cell.unwrap())
}

} // verus!
