//! Sparse matrices: a map from cell positions to values.
use crate::dense::{lemma_row_major_in_range, lemma_row_major_injective, row_major};
use crate::matrix::Matrix;
use std::collections::HashMap;
use vstd::prelude::*;

verus! {

broadcast use vstd::std_specs::hash::group_hash_axioms;

/// A matrix defined as rows, columns, and a backing hashmap, keyed by the
/// row-major position `r * cols + c` of a cell. A cell that was never set is
/// absent from the map.
pub struct SparseMatrix<T>(usize, usize, HashMap<usize, T>);

impl<T> SparseMatrix<T> {
    /// The cells that were set, by row-major position.
    pub closed spec fn entries(&self) -> Map<usize, T> {
        self.2@
    }

    pub closed spec fn spec_rows(&self) -> nat {
        self.0 as nat
    }

    pub closed spec fn spec_cols(&self) -> nat {
        self.1 as nat
    }

    /// The key of the cell `(r, c)`.
    fn key(&self, r: usize, c: usize) -> (k: usize)
        requires
            self.0 * self.1 <= usize::MAX,
            r < self.0,
            c < self.1,
        ensures
            k == row_major(self.1 as nat, r as int, c as int),
    {
        proof {
            lemma_row_major_in_range(self.0 as nat, self.1 as nat, r as int, c as int);
            assert(self.1 * r == r * self.1) by (nonlinear_arith);
            assert(0 <= self.1 * r) by (nonlinear_arith);
            assert(self.1 * r + c < self.0 * self.1);
        }
        self.1 * r + c
    }
}

impl<T> Matrix<T> for SparseMatrix<T> {
    closed spec fn wf(&self) -> bool {
        self.0 * self.1 <= usize::MAX
    }

    open spec fn rows(&self) -> nat {
        self.spec_rows()
    }

    open spec fn cols(&self) -> nat {
        self.spec_cols()
    }

    open spec fn cell(&self, r: int, c: int) -> Option<T> {
        let k = row_major(self.cols(), r, c);
        if 0 <= r < self.rows() && 0 <= c < self.cols() && self.entries().contains_key(k as usize) {
            Some(self.entries()[k as usize])
        } else {
            None
        }
    }

    fn new(rows: usize, cols: usize) -> (m: Self)
        ensures
            forall|i: int, j: int| (#[trigger] m.cell(i, j)) is None,
    {
        SparseMatrix(rows, cols, HashMap::new())
    }

    fn dim(&self) -> (d: (usize, usize)) {
        (self.0, self.1)
    }

    fn set(&mut self, r: usize, c: usize, val: T) {
        let ghost before = *self;
        let k: usize = self.key(r, c);
        self.2.insert(k, val);
        proof {
            assert forall|i: int, j: int| !(i == r && j == c) implies #[trigger] self.cell(i, j)
                == before.cell(i, j) by {
                if 0 <= i < self.0 && 0 <= j < self.1 {
                    lemma_row_major_in_range(self.0 as nat, self.1 as nat, i, j);
                    if row_major(self.1 as nat, i, j) == row_major(
                        self.1 as nat,
                        r as int,
                        c as int,
                    ) {
                        lemma_row_major_injective(self.1 as nat, i, j, r as int, c as int);
                    }
                }
            }
        }
    }

    fn get(&self, r: usize, c: usize) -> (v: Option<&T>) {
        if r < self.0 && c < self.1 {
            let k: usize = self.key(r, c);
            self.2.get(&k)
        } else {
            None
        }
    }
}

} // verus!
