//! Dense matrices: a row-major buffer.
use crate::matrix::{can_add, swapped, Matrix, MatrixOps};
use vstd::std_specs::cmp::PartialEqSpec;
use vstd::std_specs::ops::AddSpec;
use vstd::prelude::*;

verus! {

/// A matrix defined as rows, columns, and a backing vector in row-major
/// order: the cell at `(r, c)` is at index `r * cols + c`.
#[derive(Debug)]
pub struct DenseMatrix<T>(usize, usize, Vec<T>);

/// Index of the cell `(r, c)` in a row-major buffer with `cols` columns.
pub open spec fn row_major(cols: nat, r: int, c: int) -> int {
    r * cols + c
}

pub proof fn lemma_row_major_in_range(rows: nat, cols: nat, r: int, c: int)
    requires
        0 <= r < rows,
        0 <= c < cols,
    ensures
        0 <= row_major(cols, r, c) < rows * cols,
{
    assert(r * cols + c < rows * cols) by (nonlinear_arith)
        requires
            0 <= r < rows,
            0 <= c < cols,
    ;
    assert(0 <= r * cols) by (nonlinear_arith)
        requires
            0 <= r,
            0 <= cols,
    ;
}

impl<T> DenseMatrix<T> {
    /// The cells in row-major order.
    pub closed spec fn buf(&self) -> Seq<T> {
        self.2@
    }

    pub closed spec fn spec_rows(&self) -> nat {
        self.0 as nat
    }

    pub closed spec fn spec_cols(&self) -> nat {
        self.1 as nat
    }

    /// Where the cell `(r, c)` lies in the buffer.
    fn offset(&self, r: usize, c: usize) -> (ix: usize)
        requires
            self.2.len() == self.0 * self.1,
            r < self.0,
            c < self.1,
        ensures
            ix == row_major(self.1 as nat, r as int, c as int),
            ix < self.2@.len(),
    {
        proof {
            lemma_row_major_in_range(self.0 as nat, self.1 as nat, r as int, c as int);
            assert(self.1 * r == r * self.1) by (nonlinear_arith);
            assert(0 <= self.1 * r) by (nonlinear_arith);
            assert(self.1 * r + c < self.0 * self.1);
        }
        self.1 * r + c
    }
}

impl<T: Default> Matrix<T> for DenseMatrix<T> {
    closed spec fn wf(&self) -> bool {
        self.2.len() == self.0 * self.1
    }

    open spec fn rows(&self) -> nat {
        self.spec_rows()
    }

    open spec fn cols(&self) -> nat {
        self.spec_cols()
    }

    open spec fn cell(&self, r: int, c: int) -> Option<T> {
        if 0 <= r < self.rows() && 0 <= c < self.cols() {
            Some(self.buf()[row_major(self.cols(), r, c)])
        } else {
            None
        }
    }

    /// A matrix whose cells all hold the default value of `T`.
    fn new(r: usize, c: usize) -> (m: Self)
        ensures
            forall|i: int, j: int|
                0 <= i < r && 0 <= j < c ==> (#[trigger] m.cell(i, j)) is Some && call_ensures(
                    T::default,
                    (),
                    m.cell(i, j).unwrap(),
                ),
    {
        let n: usize = r * c;
        let mut buf: Vec<T> = Vec::with_capacity(n);
        let mut i: usize = 0;
        while i < n
            invariant
                i <= n,
                buf@.len() == i,
                forall|k: int| 0 <= k < i ==> call_ensures(T::default, (), #[trigger] buf@[k]),
            decreases n - i,
        {
            buf.push(T::default());
            i += 1;
        }
        let m = DenseMatrix(r, c, buf);
        proof {
            assert forall|i: int, j: int| 0 <= i < r && 0 <= j < c implies (#[trigger] m.cell(
                i,
                j,
            )) is Some && call_ensures(T::default, (), m.cell(i, j).unwrap()) by {
                lemma_row_major_in_range(r as nat, c as nat, i, j);
            }
        }
        m
    }

    fn dim(&self) -> (d: (usize, usize)) {
        (self.0, self.1)
    }

    fn set(&mut self, r: usize, c: usize, value: T) {
        let ghost before = *self;
        let ix: usize = self.offset(r, c);
        self.2.set(ix, value);
        proof {
            assert forall|i: int, j: int| !(i == r && j == c) implies #[trigger] self.cell(i, j)
                == before.cell(i, j) by {
                if 0 <= i < self.0 && 0 <= j < self.1 {
                    lemma_row_major_in_range(self.0 as nat, self.1 as nat, i, j);
                    if row_major(self.1 as nat, i, j) == row_major(self.1 as nat, r as int, c as int) {
                        lemma_row_major_injective(self.1 as nat, i, j, r as int, c as int);
                    }
                }
            }
        }
    }

    fn get(&self, r: usize, c: usize) -> (v: Option<&T>) {
        if r < self.0 && c < self.1 {
            let ix: usize = self.offset(r, c);
            Some(&self.2[ix])
        } else {
            None
        }
    }
}

impl<T: core::ops::Add<Output = T> + Copy + Default> MatrixOps<T> for DenseMatrix<T> {
    fn col_swap(&mut self, x: usize, y: usize) {
        let ghost before = *self;
        let rows: usize = self.0;
        let mut r: usize = 0;
        while r < rows
            invariant
                self.wf(),
                r <= rows,
                rows == self.rows() == before.rows(),
                self.cols() == before.cols(),
                x < self.cols(),
                y < self.cols(),
                forall|i: int, j: int| #[trigger]
                    self.cell(i, j) == if i < r {
                        before.cell(i, swapped(x as int, y as int, j))
                    } else {
                        before.cell(i, j)
                    },
            decreases rows - r,
        {
            let a: T = *self.get(r, x).unwrap();
            let b: T = *self.get(r, y).unwrap();
            self.set(r, x, b);
            self.set(r, y, a);
            r += 1;
        }
    }

    fn row_swap(&mut self, x: usize, y: usize) {
        let ghost before = *self;
        let cols: usize = self.1;
        let mut c: usize = 0;
        while c < cols
            invariant
                self.wf(),
                c <= cols,
                cols == self.cols() == before.cols(),
                self.rows() == before.rows(),
                x < self.rows(),
                y < self.rows(),
                forall|i: int, j: int| #[trigger]
                    self.cell(i, j) == if j < c {
                        before.cell(swapped(x as int, y as int, i), j)
                    } else {
                        before.cell(i, j)
                    },
            decreases cols - c,
        {
            let a: T = *self.get(x, c).unwrap();
            let b: T = *self.get(y, c).unwrap();
            self.set(x, c, b);
            self.set(y, c, a);
            c += 1;
        }
    }

    fn col_add(&mut self, x: usize, y: usize) {
        let ghost before = *self;
        let rows: usize = self.0;
        let mut r: usize = 0;
        while r < rows
            invariant
                self.wf(),
                r <= rows,
                rows == self.rows() == before.rows(),
                self.cols() == before.cols(),
                x < self.cols(),
                y < self.cols(),
                forall|i: int|
                    0 <= i < rows ==> can_add(
                        #[trigger] before.cell(i, y as int),
                        before.cell(i, x as int),
                    ),
                forall|i: int, j: int|
                    !(j == y && 0 <= i < r) ==> #[trigger] self.cell(i, j) == before.cell(i, j),
                T::obeys_add_spec() ==> forall|i: int|
                    0 <= i < r ==> #[trigger] self.cell(i, y as int) == Some(
                        before.cell(i, y as int).unwrap().add_spec(
                            before.cell(i, x as int).unwrap(),
                        ),
                    ),
            decreases rows - r,
        {
            assert(can_add(before.cell(r as int, y as int), before.cell(r as int, x as int)));
            let a: T = *self.get(r, x).unwrap();
            let b: T = *self.get(r, y).unwrap();
            self.set(r, y, b + a);
            r += 1;
        }
    }

    fn row_add(&mut self, x: usize, y: usize) {
        let ghost before = *self;
        let cols: usize = self.1;
        let mut c: usize = 0;
        while c < cols
            invariant
                self.wf(),
                c <= cols,
                cols == self.cols() == before.cols(),
                self.rows() == before.rows(),
                x < self.rows(),
                y < self.rows(),
                forall|j: int|
                    0 <= j < cols ==> can_add(
                        #[trigger] before.cell(y as int, j),
                        before.cell(x as int, j),
                    ),
                forall|i: int, j: int|
                    !(i == y && 0 <= j < c) ==> #[trigger] self.cell(i, j) == before.cell(i, j),
                T::obeys_add_spec() ==> forall|j: int|
                    0 <= j < c ==> #[trigger] self.cell(y as int, j) == Some(
                        before.cell(y as int, j).unwrap().add_spec(
                            before.cell(x as int, j).unwrap(),
                        ),
                    ),
            decreases cols - c,
        {
            assert(can_add(before.cell(y as int, c as int), before.cell(x as int, c as int)));
            let a: T = *self.get(x, c).unwrap();
            let b: T = *self.get(y, c).unwrap();
            self.set(y, c, b + a);
            c += 1;
        }
    }
}

/// Two dense matrices are equal where they have the same shape and hold the
/// same values.
impl<T: PartialEq> PartialEq for DenseMatrix<T> {
    fn eq(&self, other: &Self) -> (r: bool) {
        self.0 == other.0 && self.1 == other.1 && self.2 == other.2
    }
}

impl<T: Eq> Eq for DenseMatrix<T> {

}

impl<T: PartialEq> vstd::std_specs::cmp::PartialEqSpecImpl for DenseMatrix<T> {
    open spec fn obeys_eq_spec() -> bool {
        T::obeys_eq_spec()
    }

    open spec fn eq_spec(&self, other: &Self) -> bool {
        &&& self.spec_rows() == other.spec_rows()
        &&& self.spec_cols() == other.spec_cols()
        &&& self.buf().len() == other.buf().len()
        &&& forall|i: int|
            0 <= i < self.buf().len() ==> (#[trigger] self.buf()[i]).eq_spec(&other.buf()[i])
    }
}

pub proof fn lemma_row_major_injective(cols: nat, r1: int, c1: int, r2: int, c2: int)
    requires
        0 <= c1 < cols,
        0 <= c2 < cols,
        row_major(cols, r1, c1) == row_major(cols, r2, c2),
    ensures
        r1 == r2,
        c1 == c2,
{
    if r1 < r2 {
        assert(r1 * cols + cols <= r2 * cols) by (nonlinear_arith)
            requires
                r1 + 1 <= r2,
                0 <= cols,
        ;
    } else if r2 < r1 {
        assert(r2 * cols + cols <= r1 * cols) by (nonlinear_arith)
            requires
                r2 + 1 <= r1,
                0 <= cols,
        ;
    }
}

} // verus!
