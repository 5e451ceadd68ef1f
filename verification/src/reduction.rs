//! Transform Matrices into Smith-Normal form.
//! Referenced "Computational Topology An Introduction" by Edelsbrunner and
//! Harer. ISBN 978-0-8218-4925-5
use crate::dense::DenseMatrix;
use crate::gf2::{
    bits_of, cols_cleared, cols_summed, has_pivot, in_block, is_normal, is_pivot, is_within,
    lemma_pivot_unique, lemma_reduce_normal, lemma_sum_reduce_grows, lemma_sum_step_bits,
    lemma_sum_step_grows, lemma_sum_step_nonneg, rows_cleared, rows_summed, smith_reduce,
    smith_step, sum_reduce, sum_step, swap_cols, swap_rows,
};
use crate::matrix::{can_add, col_added, row_added, Matrix, MatrixOps};
use vstd::std_specs::ops::AddSpec;
use vstd::prelude::*;

verus! {

/// Whether a cell holds a value that is one mod 2.
pub open spec fn is_odd(c: Option<usize>) -> bool {
    c matches Some(v) && v % 2 == 1
}

/// The matrix read mod 2.
pub open spec fn parity(m: &DenseMatrix<usize>) -> Seq<Seq<bool>> {
    Seq::new(m.rows(), |i: int| Seq::new(m.cols(), |j: int| is_odd(m.cell(i, j))))
}

/// The values of the cells, row by row.
pub open spec fn values(m: &DenseMatrix<usize>) -> Seq<Seq<int>> {
    Seq::new(m.rows(), |i: int| Seq::new(m.cols(), |j: int| m.cell(i, j).unwrap() as int))
}

/// Every entry is a value that a cell can hold.
pub open spec fn fits(m: Seq<Seq<int>>) -> bool {
    is_within(m, usize::MAX as int)
}

/// The sum of two values, wrapped around at the width of `usize`.
pub open spec fn wrapped_sum(a: usize, b: usize) -> usize {
    vstd::wrapping::usize_specs::wrapping_add(a, b)
}

/// A sum that wraps around keeps the parity of the exact sum: the modulus is
/// even.
pub proof fn lemma_sum_parity(a: usize, b: usize)
    ensures
        (wrapped_sum(a, b) % 2 == 1) == ((a % 2 == 1) != (b % 2 == 1)),
{
    assert(usize::MAX % 2 == 1) by {
        assert(usize::MAX == 0xffff_ffff || usize::MAX == 0xffff_ffff_ffff_ffff);
    }
}

/// Adding a row to another row twice leaves the matrix as it was, mod 2.
pub proof fn lemma_row_add_twice(
    m0: &DenseMatrix<usize>,
    m1: &DenseMatrix<usize>,
    m2: &DenseMatrix<usize>,
    x: int,
    y: int,
)
    requires
        0 <= x < m0.rows(),
        0 <= y < m0.rows(),
        x != y,
        m1.rows() == m0.rows() && m1.cols() == m0.cols(),
        m2.rows() == m0.rows() && m2.cols() == m0.cols(),
        forall|j: int| 0 <= j < m0.cols() ==> can_add(#[trigger] m0.cell(y, j), m0.cell(x, j)),
        row_added(m0, m1, x, y),
        forall|j: int| 0 <= j < m0.cols() ==> can_add(#[trigger] m1.cell(y, j), m1.cell(x, j)),
        row_added(m1, m2, x, y),
    ensures
        parity(m2) == parity(m0),
{
    assert forall|i: int, j: int| 0 <= i < m0.rows() && 0 <= j < m0.cols() implies is_odd(
        m2.cell(i, j),
    ) == is_odd(m0.cell(i, j)) by {
        assert(m1.cell(x, j) == m0.cell(x, j));
        if i == y {
            assert(can_add(m0.cell(y, j), m0.cell(x, j)));
            assert(can_add(m1.cell(y, j), m1.cell(x, j)));
            let a = m0.cell(y, j).unwrap();
            let b = m0.cell(x, j).unwrap();
            assert(m1.cell(y, j) == Some(a.add_spec(b)));
            assert(m2.cell(y, j) == Some(a.add_spec(b).add_spec(b)));
        } else {
            assert(m2.cell(i, j) == m1.cell(i, j));
            assert(m1.cell(i, j) == m0.cell(i, j));
        }
    }
    assert(parity(m2) =~~= parity(m0));
}

/// Adding a column to another column twice leaves the matrix as it was,
/// mod 2.
pub proof fn lemma_col_add_twice(
    m0: &DenseMatrix<usize>,
    m1: &DenseMatrix<usize>,
    m2: &DenseMatrix<usize>,
    x: int,
    y: int,
)
    requires
        0 <= x < m0.cols(),
        0 <= y < m0.cols(),
        x != y,
        m1.rows() == m0.rows() && m1.cols() == m0.cols(),
        m2.rows() == m0.rows() && m2.cols() == m0.cols(),
        forall|i: int| 0 <= i < m0.rows() ==> can_add(#[trigger] m0.cell(i, y), m0.cell(i, x)),
        col_added(m0, m1, x, y),
        forall|i: int| 0 <= i < m0.rows() ==> can_add(#[trigger] m1.cell(i, y), m1.cell(i, x)),
        col_added(m1, m2, x, y),
    ensures
        parity(m2) == parity(m0),
{
    assert forall|i: int, j: int| 0 <= i < m0.rows() && 0 <= j < m0.cols() implies is_odd(
        m2.cell(i, j),
    ) == is_odd(m0.cell(i, j)) by {
        assert(m1.cell(i, x) == m0.cell(i, x));
        if j == y {
            assert(can_add(m0.cell(i, y), m0.cell(i, x)));
            assert(can_add(m1.cell(i, y), m1.cell(i, x)));
            let a = m0.cell(i, y).unwrap();
            let b = m0.cell(i, x).unwrap();
            assert(m1.cell(i, y) == Some(a.add_spec(b)));
            assert(m2.cell(i, y) == Some(a.add_spec(b).add_spec(b)));
        } else {
            assert(m2.cell(i, j) == m1.cell(i, j));
            assert(m1.cell(i, j) == m0.cell(i, j));
        }
    }
    assert(parity(m2) =~~= parity(m0));
}

/// Add row `x` to row `y`, each sum wrapped around: a sum that does not fit
/// keeps its parity, which is all that the reduction reads.
fn add_row_wrapping(mat: &mut DenseMatrix<usize>, x: usize, y: usize)
    requires
        old(mat).wf(),
        x < old(mat).rows(),
        y < old(mat).rows(),
    ensures
        final(mat).wf(),
        final(mat).rows() == old(mat).rows(),
        final(mat).cols() == old(mat).cols(),
        forall|i: int, j: int| #[trigger]
            final(mat).cell(i, j) == if i == y && 0 <= j < old(mat).cols() {
                Some(
                    wrapped_sum(
                        old(mat).cell(y as int, j).unwrap(),
                        old(mat).cell(x as int, j).unwrap(),
                    ),
                )
            } else {
                old(mat).cell(i, j)
            },
{
    let ghost before = *mat;
    let (_, cols) = mat.dim();
    let mut c: usize = 0;
    while c < cols
        invariant
            mat.wf(),
            c <= cols,
            cols == mat.cols() == before.cols(),
            mat.rows() == before.rows(),
            x < mat.rows(),
            y < mat.rows(),
            forall|i: int, j: int| #[trigger]
                mat.cell(i, j) == if i == y && 0 <= j < c {
                    Some(
                        wrapped_sum(
                            before.cell(y as int, j).unwrap(),
                            before.cell(x as int, j).unwrap(),
                        ),
                    )
                } else {
                    before.cell(i, j)
                },
        decreases cols - c,
    {
        let a: usize = *mat.get(x, c).unwrap();
        let b: usize = *mat.get(y, c).unwrap();
        mat.set(y, c, b.wrapping_add(a));
        c += 1;
    }
}

/// Add column `x` to column `y`, each sum wrapped around.
fn add_col_wrapping(mat: &mut DenseMatrix<usize>, x: usize, y: usize)
    requires
        old(mat).wf(),
        x < old(mat).cols(),
        y < old(mat).cols(),
    ensures
        final(mat).wf(),
        final(mat).rows() == old(mat).rows(),
        final(mat).cols() == old(mat).cols(),
        forall|i: int, j: int| #[trigger]
            final(mat).cell(i, j) == if j == y && 0 <= i < old(mat).rows() {
                Some(
                    wrapped_sum(
                        old(mat).cell(i, y as int).unwrap(),
                        old(mat).cell(i, x as int).unwrap(),
                    ),
                )
            } else {
                old(mat).cell(i, j)
            },
{
    let ghost before = *mat;
    let (rows, _) = mat.dim();
    let mut r: usize = 0;
    while r < rows
        invariant
            mat.wf(),
            r <= rows,
            rows == mat.rows() == before.rows(),
            mat.cols() == before.cols(),
            x < mat.cols(),
            y < mat.cols(),
            forall|i: int, j: int| #[trigger]
                mat.cell(i, j) == if j == y && 0 <= i < r {
                    Some(
                        wrapped_sum(
                            before.cell(i, y as int).unwrap(),
                            before.cell(i, x as int).unwrap(),
                        ),
                    )
                } else {
                    before.cell(i, j)
                },
        decreases rows - r,
    {
        let a: usize = *mat.get(r, x).unwrap();
        let b: usize = *mat.get(r, y).unwrap();
        mat.set(r, y, b.wrapping_add(a));
        r += 1;
    }
}

/// Whether the cell `(r, c)` is one mod 2.
fn odd_at(mat: &DenseMatrix<usize>, r: usize, c: usize) -> (b: bool)
    requires
        mat.wf(),
    ensures
        b == is_odd(mat.cell(r as int, c as int)),
{
    if let Some(v) = mat.get(r, c) {
        *v % 2 == 1
    } else {
        false
    }
}

/// The first cell of the block at `x` that is one mod 2, the rows read one
/// after the other.
fn first_odd(mat: &DenseMatrix<usize>, x: usize) -> (r: Option<(usize, usize)>)
    requires
        mat.wf(),
    ensures
        match r {
            Some((k, l)) => is_pivot(parity(mat), x as int, k as int, l as int),
            None => !has_pivot(parity(mat), x as int),
        },
{
    let (rows, cols) = mat.dim();
    let ghost bits = parity(mat);
    let mut k: usize = x;
    while k < rows
        invariant
            mat.wf(),
            rows == mat.rows(),
            cols == mat.cols(),
            bits == parity(mat),
            x <= k,
            forall|k1: int, l1: int|
                in_block(bits, x as int, k1, l1) && k1 < k ==> !(#[trigger] bits[k1][l1]),
        decreases rows - k,
    {
        let mut l: usize = x;
        while l < cols
            invariant
                mat.wf(),
                rows == mat.rows(),
                cols == mat.cols(),
                bits == parity(mat),
                x <= k < rows,
                x <= l,
                forall|k1: int, l1: int|
                    in_block(bits, x as int, k1, l1) && (k1 < k || (k1 == k && l1 < l)) ==> !(
                    #[trigger] bits[k1][l1]),
            decreases cols - l,
        {
            if odd_at(mat, k, l) {
                return Some((k, l));
            }
            l += 1;
        }
        k += 1;
    }
    proof {
        if has_pivot(bits, x as int) {
            let p = choose|p: (int, int)| is_pivot(bits, x as int, p.0, p.1);
            assert(bits[p.0][p.1]);
        }
    }
    None
}

/// Clear the rest of column `x`: add row `x` to each row below it that is
/// odd in column `x`.
fn clear_column(mat: &mut DenseMatrix<usize>, x: usize)
    requires
        old(mat).wf(),
        x < old(mat).rows(),
        x < old(mat).cols(),
    ensures
        final(mat).wf(),
        final(mat).rows() == old(mat).rows(),
        final(mat).cols() == old(mat).cols(),
        parity(final(mat)) == rows_cleared(parity(old(mat)), x as int),
        fits(rows_summed(values(old(mat)), x as int)) ==> values(final(mat)) == rows_summed(
            values(old(mat)),
            x as int,
        ),
        forall|r: int, q: int| 0 <= r <= x ==> #[trigger] final(mat).cell(r, q) == old(mat).cell(r, q),
{
    let (rows, cols) = mat.dim();
    let ghost entry = *mat;
    let ghost b = parity(mat);
    let ghost v = values(mat);
    let ghost target = rows_summed(v, x as int);
    let mut i: usize = x + 1;
    while i < rows
        invariant
            mat.wf(),
            rows == mat.rows() == entry.rows(),
            cols == mat.cols() == entry.cols(),
            x < rows,
            x < cols,
            x < i,
            b == parity(&entry),
            v == values(&entry),
            target == rows_summed(v, x as int),
            forall|r: int, q: int| 0 <= r <= x ==> #[trigger] mat.cell(r, q) == entry.cell(r, q),
            forall|r: int, q: int| i <= r ==> #[trigger] mat.cell(r, q) == entry.cell(r, q),
            forall|r: int, q: int|
                0 <= r < i && 0 <= q < cols ==> is_odd(#[trigger] mat.cell(r, q)) == rows_cleared(
                    b,
                    x as int,
                )[r][q],
            fits(target) ==> forall|r: int, q: int|
                0 <= r < i && 0 <= q < cols ==> (#[trigger] mat.cell(r, q)).unwrap() == target[r][q],
        decreases rows - i,
    {
        if odd_at(mat, i, x) {
            let ghost was = *mat;
            add_row_wrapping(mat, x, i);
            proof {
                assert forall|r: int, q: int| 0 <= r < i + 1 && 0 <= q < cols implies is_odd(
                    #[trigger] mat.cell(r, q),
                ) == rows_cleared(b, x as int)[r][q] by {
                    if r == i {
                        lemma_sum_parity(
                            was.cell(i as int, q).unwrap(),
                            was.cell(x as int, q).unwrap(),
                        );
                    } else {
                        assert(mat.cell(r, q) == was.cell(r, q));
                    }
                }
                if fits(target) {
                    assert forall|r: int, q: int| 0 <= r < i + 1 && 0 <= q < cols implies (
                    #[trigger] mat.cell(r, q)).unwrap() == target[r][q] by {
                        if r == i {
                            assert(0 <= target[i as int][q] <= usize::MAX);
                        } else {
                            assert(mat.cell(r, q) == was.cell(r, q));
                        }
                    }
                }
            }
        } else {
            proof {
                assert forall|q: int| 0 <= q < cols implies is_odd(
                    #[trigger] mat.cell(i as int, q),
                ) == rows_cleared(b, x as int)[i as int][q] by {}
            }
        }
        i += 1;
    }
    proof {
        assert(parity(mat) =~~= rows_cleared(b, x as int));
        if fits(target) {
            assert(values(mat) =~~= target);
        }
    }
}

/// Clear the rest of row `x`: add column `x` to each column right of it that
/// is odd in row `x`.
fn clear_row(mat: &mut DenseMatrix<usize>, x: usize)
    requires
        old(mat).wf(),
        x < old(mat).rows(),
        x < old(mat).cols(),
    ensures
        final(mat).wf(),
        final(mat).rows() == old(mat).rows(),
        final(mat).cols() == old(mat).cols(),
        parity(final(mat)) == cols_cleared(parity(old(mat)), x as int),
        fits(cols_summed(values(old(mat)), x as int)) ==> values(final(mat)) == cols_summed(
            values(old(mat)),
            x as int,
        ),
        forall|r: int, q: int| 0 <= q <= x ==> #[trigger] final(mat).cell(r, q) == old(mat).cell(r, q),
{
    let (rows, cols) = mat.dim();
    let ghost entry = *mat;
    let ghost c = parity(mat);
    let ghost v = values(mat);
    let ghost target = cols_summed(v, x as int);
    let mut j: usize = x + 1;
    while j < cols
        invariant
            mat.wf(),
            rows == mat.rows() == entry.rows(),
            cols == mat.cols() == entry.cols(),
            x < rows,
            x < cols,
            x < j,
            c == parity(&entry),
            v == values(&entry),
            target == cols_summed(v, x as int),
            forall|r: int, q: int| 0 <= q <= x ==> #[trigger] mat.cell(r, q) == entry.cell(r, q),
            forall|r: int, q: int| j <= q ==> #[trigger] mat.cell(r, q) == entry.cell(r, q),
            forall|r: int, q: int|
                0 <= r < rows && 0 <= q < j ==> is_odd(#[trigger] mat.cell(r, q)) == cols_cleared(
                    c,
                    x as int,
                )[r][q],
            fits(target) ==> forall|r: int, q: int|
                0 <= r < rows && 0 <= q < j ==> (#[trigger] mat.cell(r, q)).unwrap() == target[r][q],
        decreases cols - j,
    {
        if odd_at(mat, x, j) {
            let ghost was = *mat;
            add_col_wrapping(mat, x, j);
            proof {
                assert forall|r: int, q: int| 0 <= r < rows && 0 <= q < j + 1 implies is_odd(
                    #[trigger] mat.cell(r, q),
                ) == cols_cleared(c, x as int)[r][q] by {
                    if q == j {
                        lemma_sum_parity(
                            was.cell(r, j as int).unwrap(),
                            was.cell(r, x as int).unwrap(),
                        );
                    } else {
                        assert(mat.cell(r, q) == was.cell(r, q));
                    }
                }
                if fits(target) {
                    assert forall|r: int, q: int| 0 <= r < rows && 0 <= q < j + 1 implies (
                    #[trigger] mat.cell(r, q)).unwrap() == target[r][q] by {
                        if q == j {
                            assert(0 <= target[r][j as int] <= usize::MAX);
                        } else {
                            assert(mat.cell(r, q) == was.cell(r, q));
                        }
                    }
                }
            }
        } else {
            proof {
                assert forall|r: int| 0 <= r < rows implies is_odd(
                    #[trigger] mat.cell(r, j as int),
                ) == cols_cleared(c, x as int)[r][j as int] by {}
            }
        }
        j += 1;
    }
    proof {
        assert(parity(mat) =~~= cols_cleared(c, x as int));
        if fits(target) {
            assert(values(mat) =~~= target);
        }
    }
}

/// The reduction algorithm mod 2: bring the block whose top-left corner is
/// `(x, x)` into Smith-normal form, by swaps and additions of rows and of
/// columns. Every value is read mod 2; the values themselves may grow.
/// Where every sum fits, the cells hold the sums; a sum that does not fit
/// wraps around, which keeps its parity.
pub fn reduce_z2(mat: &mut DenseMatrix<usize>, x: usize)
    requires
        old(mat).wf(),
    ensures
        final(mat).wf(),
        final(mat).rows() == old(mat).rows(),
        final(mat).cols() == old(mat).cols(),
        parity(final(mat)) == smith_reduce(parity(old(mat)), x as int),
        is_normal(parity(final(mat)), x as int),
        fits(sum_reduce(values(old(mat)), x as int)) ==> values(final(mat)) == sum_reduce(
            values(old(mat)),
            x as int,
        ),
        forall|i: int, j: int|
            0 <= i < x && 0 <= j < x ==> #[trigger] final(mat).cell(i, j) == old(mat).cell(i, j),
    decreases old(mat).rows() - x,
{
    let (rows, cols) = mat.dim();
    let ghost bits = parity(mat);
    let ghost v0 = values(mat);
    proof {
        lemma_reduce_normal(bits, cols as nat, x as int);
        assert(bits =~~= bits_of(v0));
    }
    match first_odd(mat, x) {
        None => {},
        Some((k, l)) => {
            let ghost step = sum_step(v0, x as int, k as int, l as int);
            proof {
                lemma_pivot_unique(bits, x as int, k as int, l as int);
                lemma_sum_step_bits(v0, cols as nat, x as int, k as int, l as int);
                if fits(sum_reduce(v0, x as int)) {
                    lemma_sum_step_nonneg(v0, cols as nat, x as int, k as int, l as int);
                    lemma_sum_reduce_grows(step, cols as nat, x + 1, usize::MAX as int);
                    lemma_sum_step_grows(
                        v0,
                        cols as nat,
                        x as int,
                        k as int,
                        l as int,
                        usize::MAX as int,
                    );
                }
            }
            mat.row_swap(x, k);
            mat.col_swap(x, l);
            proof {
                assert(values(mat) =~~= swap_cols(
                    swap_rows(v0, x as int, k as int),
                    x as int,
                    l as int,
                ));
                assert(parity(mat) =~~= swap_cols(
                    swap_rows(bits, x as int, k as int),
                    x as int,
                    l as int,
                ));
            }
            clear_column(mat, x);
            clear_row(mat, x);
            proof {
                assert(parity(mat) == smith_step(bits, x as int, k as int, l as int));
                assert(parity(mat) =~~= bits_of(values(mat)));
            }
            reduce_z2(mat, x + 1);
        },
    }
}

} // verus!
