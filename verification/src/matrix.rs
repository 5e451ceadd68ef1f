//! The capability that every matrix backing shares, and the elementary
//! row and column operations.
use vstd::prelude::*;
use vstd::std_specs::ops::AddSpec;

verus! {

/// An `m x n` matrix of cells that may or may not hold a value.
pub trait Matrix<T>: Sized {
    /// The invariant of the backing.
    spec fn wf(&self) -> bool;

    /// Number of rows.
    spec fn rows(&self) -> nat;

    /// Number of columns.
    spec fn cols(&self) -> nat;

    /// What the cell at row `r`, column `c` holds: `None` where the cell
    /// lies outside the matrix or was never set.
    spec fn cell(&self, r: int, c: int) -> Option<T>;

    fn new(r: usize, c: usize) -> (m: Self)
        requires
            r * c <= usize::MAX,
        ensures
            m.wf(),
            m.rows() == r,
            m.cols() == c,
    ;

    /// Return the (rows, columns) of a Matrix.
    fn dim(&self) -> (d: (usize, usize))
        requires
            self.wf(),
        ensures
            d.0 == self.rows(),
            d.1 == self.cols(),
    ;

    fn set(&mut self, r: usize, c: usize, value: T)
        requires
            old(self).wf(),
            r < old(self).rows(),
            c < old(self).cols(),
        ensures
            final(self).wf(),
            final(self).rows() == old(self).rows(),
            final(self).cols() == old(self).cols(),
            final(self).cell(r as int, c as int) == Some(value),
            forall|i: int, j: int|
                !(i == r && j == c) ==> #[trigger] final(self).cell(i, j) == old(self).cell(i, j),
    ;

    fn get(&self, r: usize, c: usize) -> (v: Option<&T>)
        requires
            self.wf(),
        ensures
            match v {
                Some(x) => self.cell(r as int, c as int) == Some(*x),
                None => self.cell(r as int, c as int) is None,
            },
    ;
}

/// Elementary row and column operations, all in place. Cells are added with
/// the `+` of `T`.
pub trait MatrixOps<T>: Matrix<T> where T: core::ops::Add<Output = T> {
    /// Exchange the columns `x` and `y`.
    fn col_swap(&mut self, x: usize, y: usize)
        requires
            old(self).wf(),
            x < old(self).cols(),
            y < old(self).cols(),
        ensures
            final(self).wf(),
            final(self).rows() == old(self).rows(),
            final(self).cols() == old(self).cols(),
            forall|i: int, j: int| #[trigger]
                final(self).cell(i, j) == old(self).cell(i, swapped(x as int, y as int, j)),
    ;

    /// Exchange the rows `x` and `y`.
    fn row_swap(&mut self, x: usize, y: usize)
        requires
            old(self).wf(),
            x < old(self).rows(),
            y < old(self).rows(),
        ensures
            final(self).wf(),
            final(self).rows() == old(self).rows(),
            final(self).cols() == old(self).cols(),
            forall|i: int, j: int| #[trigger]
                final(self).cell(i, j) == old(self).cell(swapped(x as int, y as int, i), j),
    ;

    /// Add col 'x' to col 'y'. Both columns hold a value in every cell, and
    /// each sum can be formed.
    fn col_add(&mut self, x: usize, y: usize)
        requires
            old(self).wf(),
            x < old(self).cols(),
            y < old(self).cols(),
            forall|i: int|
                0 <= i < old(self).rows() ==> can_add(
                    #[trigger] old(self).cell(i, y as int),
                    old(self).cell(i, x as int),
                ),
        ensures
            final(self).wf(),
            final(self).rows() == old(self).rows(),
            final(self).cols() == old(self).cols(),
            forall|i: int, j: int|
                !(j == y && 0 <= i < old(self).rows()) ==> #[trigger] final(self).cell(i, j) == old(
                    self,
                ).cell(i, j),
            forall|i: int|
                0 <= i < old(self).rows() ==> (#[trigger] final(self).cell(i, y as int)) is Some,
            T::obeys_add_spec() ==> forall|i: int|
                0 <= i < old(self).rows() ==> #[trigger] final(self).cell(i, y as int) == Some(
                    old(self).cell(i, y as int).unwrap().add_spec(
                        old(self).cell(i, x as int).unwrap(),
                    ),
                ),
    ;

    /// Add row 'x' to row 'y'. Both rows hold a value in every cell, and
    /// each sum can be formed.
    fn row_add(&mut self, x: usize, y: usize)
        requires
            old(self).wf(),
            x < old(self).rows(),
            y < old(self).rows(),
            forall|j: int|
                0 <= j < old(self).cols() ==> can_add(
                    #[trigger] old(self).cell(y as int, j),
                    old(self).cell(x as int, j),
                ),
        ensures
            final(self).wf(),
            final(self).rows() == old(self).rows(),
            final(self).cols() == old(self).cols(),
            forall|i: int, j: int|
                !(i == y && 0 <= j < old(self).cols()) ==> #[trigger] final(self).cell(i, j) == old(
                    self,
                ).cell(i, j),
            forall|j: int|
                0 <= j < old(self).cols() ==> (#[trigger] final(self).cell(y as int, j)) is Some,
            T::obeys_add_spec() ==> forall|j: int|
                0 <= j < old(self).cols() ==> #[trigger] final(self).cell(y as int, j) == Some(
                    old(self).cell(y as int, j).unwrap().add_spec(
                        old(self).cell(x as int, j).unwrap(),
                    ),
                ),
    ;
}

/// The index that `i` names once `x` and `y` have changed places.
pub open spec fn swapped(x: int, y: int, i: int) -> int {
    if i == x {
        y
    } else if i == y {
        x
    } else {
        i
    }
}

/// `after` is `before` with the value `v` in the cell `(r, c)`: what `set`
/// makes of a matrix.
pub open spec fn set_to<T, M: Matrix<T>>(before: &M, after: &M, r: int, c: int, v: T) -> bool {
    &&& after.cell(r, c) == Some(v)
    &&& forall|i: int, j: int|
        !(i == r && j == c) ==> #[trigger] after.cell(i, j) == before.cell(i, j)
}

/// `after` is `before` with the columns `x` and `y` exchanged: what
/// `col_swap` makes of a matrix.
pub open spec fn cols_swapped<T, M: Matrix<T>>(before: &M, after: &M, x: int, y: int) -> bool {
    forall|i: int, j: int| #[trigger] after.cell(i, j) == before.cell(i, swapped(x, y, j))
}

/// `after` is `before` with the rows `x` and `y` exchanged: what `row_swap`
/// makes of a matrix.
pub open spec fn rows_swapped<T, M: Matrix<T>>(before: &M, after: &M, x: int, y: int) -> bool {
    forall|i: int, j: int| #[trigger] after.cell(i, j) == before.cell(swapped(x, y, i), j)
}

/// Both cells hold a value, and the sum of the two can be formed.
pub open spec fn can_add<T: core::ops::Add<Output = T>>(a: Option<T>, b: Option<T>) -> bool {
    a is Some && b is Some && a.unwrap().add_req(b.unwrap())
}

/// `after` is `before` with the column `x` added to the column `y`, cell by
/// cell: what `col_add` makes of a matrix whose cells add as their
/// specification says.
pub open spec fn col_added<T: core::ops::Add<Output = T>, M: Matrix<T>>(
    before: &M,
    after: &M,
    x: int,
    y: int,
) -> bool {
    forall|i: int, j: int| #[trigger]
        after.cell(i, j) == if j == y && 0 <= i < before.rows() {
            Some(before.cell(i, y).unwrap().add_spec(before.cell(i, x).unwrap()))
        } else {
            before.cell(i, j)
        }
}

/// `after` is `before` with the row `x` added to the row `y`, cell by cell:
/// what `row_add` makes of a matrix whose cells add as their specification
/// says.
pub open spec fn row_added<T: core::ops::Add<Output = T>, M: Matrix<T>>(
    before: &M,
    after: &M,
    x: int,
    y: int,
) -> bool {
    forall|i: int, j: int| #[trigger]
        after.cell(i, j) == if i == y && 0 <= j < before.cols() {
            Some(before.cell(y, j).unwrap().add_spec(before.cell(x, j).unwrap()))
        } else {
            before.cell(i, j)
        }
}

/// Round trip: a cell that was set holds the value that was written, which
/// is what `get` then returns; every other cell holds what it held.
pub proof fn lemma_set_then_get<T, M: Matrix<T>>(
    before: &M,
    after: &M,
    r: int,
    c: int,
    v: T,
    i: int,
    j: int,
)
    requires
        set_to(before, after, r, c, v),
    ensures
        after.cell(r, c) == Some(v),
        !(i == r && j == c) ==> after.cell(i, j) == before.cell(i, j),
{
}

/// Exchanging two rows twice gives the matrix back.
pub proof fn lemma_row_swap_twice<T, M: Matrix<T>>(m0: &M, m1: &M, m2: &M, x: int, y: int)
    requires
        rows_swapped(m0, m1, x, y),
        rows_swapped(m1, m2, x, y),
    ensures
        forall|i: int, j: int| #[trigger] m2.cell(i, j) == m0.cell(i, j),
{
    assert forall|i: int, j: int| #[trigger] m2.cell(i, j) == m0.cell(i, j) by {
        assert(m2.cell(i, j) == m1.cell(swapped(x, y, i), j));
        assert(m1.cell(swapped(x, y, i), j) == m0.cell(swapped(x, y, swapped(x, y, i)), j));
    }
}

/// Exchanging two columns twice gives the matrix back.
pub proof fn lemma_col_swap_twice<T, M: Matrix<T>>(m0: &M, m1: &M, m2: &M, x: int, y: int)
    requires
        cols_swapped(m0, m1, x, y),
        cols_swapped(m1, m2, x, y),
    ensures
        forall|i: int, j: int| #[trigger] m2.cell(i, j) == m0.cell(i, j),
{
    assert forall|i: int, j: int| #[trigger] m2.cell(i, j) == m0.cell(i, j) by {
        assert(m2.cell(i, j) == m1.cell(i, swapped(x, y, j)));
        assert(m1.cell(i, swapped(x, y, j)) == m0.cell(i, swapped(x, y, swapped(x, y, j))));
    }
}

} // verus!
