//! Matrices over the field with two elements, and their reduction to
//! Smith-normal form by elementary row and column operations.
use crate::matrix::swapped;
use vstd::prelude::*;

verus! {

/// Every row of `m` has `cols` entries.
pub open spec fn is_rect<A>(m: Seq<Seq<A>>, cols: nat) -> bool {
    forall|i: int| 0 <= i < m.len() ==> (#[trigger] m[i]).len() == cols
}

/// `m` with the rows `a` and `b` exchanged.
pub open spec fn swap_rows<A>(m: Seq<Seq<A>>, a: int, b: int) -> Seq<Seq<A>> {
    Seq::new(m.len(), |i: int| m[swapped(a, b, i)])
}

/// `m` with the columns `a` and `b` exchanged.
pub open spec fn swap_cols<A>(m: Seq<Seq<A>>, a: int, b: int) -> Seq<Seq<A>> {
    Seq::new(m.len(), |i: int| Seq::new(m[i].len(), |j: int| m[i][swapped(a, b, j)]))
}

/// `m` with the row `x` added to each row below it that has a one in
/// column `x`.
pub open spec fn rows_cleared(m: Seq<Seq<bool>>, x: int) -> Seq<Seq<bool>> {
    Seq::new(
        m.len(),
        |i: int| Seq::new(m[i].len(), |j: int| m[i][j] != (i > x && m[i][x] && m[x][j])),
    )
}

/// `m` with the column `x` added to each column right of it that has a one
/// in row `x`.
pub open spec fn cols_cleared(m: Seq<Seq<bool>>, x: int) -> Seq<Seq<bool>> {
    Seq::new(
        m.len(),
        |i: int| Seq::new(m[i].len(), |j: int| m[i][j] != (j > x && m[x][j] && m[i][x])),
    )
}

/// The cell `(k, l)` lies in the block whose top-left corner is `(x, x)`.
pub open spec fn in_block(m: Seq<Seq<bool>>, x: int, k: int, l: int) -> bool {
    x <= k < m.len() && x <= l < m[k].len()
}

/// The cell `(k1, l1)` comes before `(k, l)` when the rows are read one
/// after the other.
pub open spec fn comes_before(k1: int, l1: int, k: int, l: int) -> bool {
    k1 < k || (k1 == k && l1 < l)
}

/// `(k, l)` is the first cell of the block at `x` that holds a one.
pub open spec fn is_pivot(m: Seq<Seq<bool>>, x: int, k: int, l: int) -> bool {
    &&& in_block(m, x, k, l)
    &&& m[k][l]
    &&& forall|k1: int, l1: int|
        in_block(m, x, k1, l1) && comes_before(k1, l1, k, l) ==> !(#[trigger] m[k1][l1])
}

/// The block at `x` holds a one.
pub open spec fn has_pivot(m: Seq<Seq<bool>>, x: int) -> bool {
    exists|p: (int, int)| is_pivot(m, x, p.0, p.1)
}

/// The first cell of the block at `x` that holds a one.
pub open spec fn pivot(m: Seq<Seq<bool>>, x: int) -> (int, int) {
    choose|p: (int, int)| is_pivot(m, x, p.0, p.1)
}

/// One round of the reduction: the one at `(k, l)` is brought to `(x, x)`,
/// then the rest of column `x` and of row `x` is cleared.
pub open spec fn smith_step(m: Seq<Seq<bool>>, x: int, k: int, l: int) -> Seq<Seq<bool>> {
    cols_cleared(rows_cleared(swap_cols(swap_rows(m, x, k), x, l), x), x)
}

/// The reduction of the block at `x`: while the block holds a one, a round
/// on its first one, then the same on the block at `x + 1`.
pub open spec fn smith_reduce(m: Seq<Seq<bool>>, x: int) -> Seq<Seq<bool>>
    decreases m.len() - x,
{
    if 0 <= x < m.len() && has_pivot(m, x) {
        let p = pivot(m, x);
        smith_reduce(smith_step(m, x, p.0, p.1), x + 1)
    } else {
        m
    }
}

/// The block at `x` is in Smith-normal form with `r` ones: ones on its
/// diagonal in the first `r` places, and zeros elsewhere.
pub open spec fn is_normal_with(m: Seq<Seq<bool>>, x: int, r: int) -> bool {
    forall|i: int, j: int|
        in_block(m, x, i, j) ==> (#[trigger] m[i][j]) == (i == j && i < x + r)
}

/// The block at `x` is in Smith-normal form.
pub open spec fn is_normal(m: Seq<Seq<bool>>, x: int) -> bool {
    exists|r: int| 0 <= r && #[trigger] is_normal_with(m, x, r)
}

/// Row `x` and column `x` hold zeros after the diagonal.
pub open spec fn cross_clear(m: Seq<Seq<bool>>, x: int) -> bool {
    &&& forall|i: int| x < i < m.len() && x < m[i].len() ==> !(#[trigger] m[i][x])
    &&& forall|j: int| 0 <= x < m.len() && x < j < m[x].len() ==> !(#[trigger] m[x][j])
}

/// Number of ones among the first `n` places of the diagonal.
pub open spec fn diag_ones(m: Seq<Seq<bool>>, n: nat) -> nat
    decreases n,
{
    if n == 0 {
        0
    } else {
        let j = n - 1;
        diag_ones(m, j as nat) + if j < m.len() && j < m[j].len() && m[j][j] {
            1nat
        } else {
            0nat
        }
    }
}

/// A block that holds a one has a first one.
pub proof fn lemma_first_one(m: Seq<Seq<bool>>, cols: nat, x: int, k: int, l: int)
    requires
        is_rect(m, cols),
        0 <= x,
        in_block(m, x, k, l),
        m[k][l],
    ensures
        has_pivot(m, x),
    decreases k, l,
{
    if is_pivot(m, x, k, l) {
        assert(is_pivot(m, x, (k, l).0, (k, l).1));
    } else {
        let (k1, l1) = choose|k1: int, l1: int|
            in_block(m, x, k1, l1) && comes_before(k1, l1, k, l) && #[trigger] m[k1][l1];
        lemma_first_one(m, cols, x, k1, l1);
    }
}

/// A block has one first one at most.
pub proof fn lemma_pivot_unique(m: Seq<Seq<bool>>, x: int, k: int, l: int)
    requires
        is_pivot(m, x, k, l),
    ensures
        has_pivot(m, x),
        pivot(m, x) == (k, l),
{
    assert(is_pivot(m, x, (k, l).0, (k, l).1));
    let p = pivot(m, x);
    assert(is_pivot(m, x, p.0, p.1));
    if comes_before(p.0, p.1, k, l) {
        assert(!m[p.0][p.1]);
    }
    if comes_before(k, l, p.0, p.1) {
        assert(!m[k][l]);
    }
}

/// A round keeps the shape of the matrix.
pub proof fn lemma_step_rect(m: Seq<Seq<bool>>, cols: nat, x: int, k: int, l: int)
    requires
        is_rect(m, cols),
        0 <= x <= k < m.len(),
    ensures
        is_rect(smith_step(m, x, k, l), cols),
        smith_step(m, x, k, l).len() == m.len(),
{
}

/// A round leaves a one at `(x, x)` and zeros in the rest of row `x` and of
/// column `x`.
pub proof fn lemma_step_clears(m: Seq<Seq<bool>>, cols: nat, x: int, k: int, l: int)
    requires
        is_rect(m, cols),
        0 <= x,
        in_block(m, x, k, l),
        m[k][l],
    ensures
        smith_step(m, x, k, l)[x][x],
        cross_clear(smith_step(m, x, k, l), x),
{
    let a = swap_rows(m, x, k);
    let b = swap_cols(a, x, l);
    assert(b[x][x] == m[k][l]);
    let c = rows_cleared(b, x);
    let d = cols_cleared(c, x);
    assert(c[x][x]);
    assert forall|i: int| x < i < d.len() && x < d[i].len() implies !(#[trigger] d[i][x]) by {
        assert(!c[i][x]);
    }
    assert forall|j: int| 0 <= x < d.len() && x < j < d[x].len() implies !(#[trigger] d[x][j]) by {
        assert(c[x][j] == b[x][j]);
    }
}

/// A round on the block at `y` leaves alone a row and a column above and
/// left of the block that are clear after the diagonal.
pub proof fn lemma_step_keeps_cross(m: Seq<Seq<bool>>, cols: nat, x: int, y: int, k: int, l: int)
    requires
        is_rect(m, cols),
        0 <= x < y,
        in_block(m, y, k, l),
        cross_clear(m, x),
    ensures
        cross_clear(smith_step(m, y, k, l), x),
        x < m.len() && x < cols ==> smith_step(m, y, k, l)[x][x] == m[x][x],
{
    let a = swap_rows(m, y, k);
    let b = swap_cols(a, y, l);
    let c = rows_cleared(b, y);
    let d = cols_cleared(c, y);
    assert(cross_clear(a, x)) by {
        assert forall|i: int| x < i < a.len() && x < a[i].len() implies !(#[trigger] a[i][x]) by {
            assert(!m[swapped(y, k, i)][x]);
        }
        assert forall|j: int| 0 <= x < a.len() && x < j < a[x].len() implies !(
        #[trigger] a[x][j]) by {
            assert(!m[x][j]);
        }
    }
    assert(cross_clear(b, x)) by {
        assert forall|i: int| x < i < b.len() && x < b[i].len() implies !(#[trigger] b[i][x]) by {
            assert(!a[i][x]);
        }
        assert forall|j: int| 0 <= x < b.len() && x < j < b[x].len() implies !(
        #[trigger] b[x][j]) by {
            assert(!a[x][swapped(y, l, j)]);
        }
    }
    assert(cross_clear(c, x)) by {
        assert forall|i: int| x < i < c.len() && x < c[i].len() implies !(#[trigger] c[i][x]) by {
            assert(!b[i][x]);
            assert(!b[y][x]);
        }
        assert forall|j: int| 0 <= x < c.len() && x < j < c[x].len() implies !(
        #[trigger] c[x][j]) by {
            assert(!b[x][j]);
        }
    }
    assert(cross_clear(d, x)) by {
        assert forall|i: int| x < i < d.len() && x < d[i].len() implies !(#[trigger] d[i][x]) by {
            assert(!c[i][x]);
        }
        assert forall|j: int| 0 <= x < d.len() && x < j < d[x].len() implies !(
        #[trigger] d[x][j]) by {
            assert(!c[x][j]);
            assert(!c[x][y]);
        }
    }
}

/// The reduction keeps the shape of the matrix.
pub proof fn lemma_reduce_rect(m: Seq<Seq<bool>>, cols: nat, x: int)
    requires
        is_rect(m, cols),
        0 <= x,
    ensures
        is_rect(smith_reduce(m, x), cols),
        smith_reduce(m, x).len() == m.len(),
    decreases m.len() - x,
{
    if x < m.len() && has_pivot(m, x) {
        let p = pivot(m, x);
        lemma_step_rect(m, cols, x, p.0, p.1);
        lemma_reduce_rect(smith_step(m, x, p.0, p.1), cols, x + 1);
    }
}

/// The reduction of the block at `y` leaves alone a row and a column above
/// and left of the block that are clear after the diagonal.
pub proof fn lemma_reduce_keeps_cross(m: Seq<Seq<bool>>, cols: nat, x: int, y: int)
    requires
        is_rect(m, cols),
        0 <= x < y,
        cross_clear(m, x),
    ensures
        cross_clear(smith_reduce(m, y), x),
        x < m.len() && x < cols ==> smith_reduce(m, y)[x][x] == m[x][x],
    decreases m.len() - y,
{
    if y < m.len() && has_pivot(m, y) {
        let p = pivot(m, y);
        lemma_step_rect(m, cols, y, p.0, p.1);
        lemma_step_keeps_cross(m, cols, x, y, p.0, p.1);
        lemma_reduce_keeps_cross(smith_step(m, y, p.0, p.1), cols, x, y + 1);
    }
}

/// The reduction ends in Smith-normal form.
pub proof fn lemma_reduce_normal(m: Seq<Seq<bool>>, cols: nat, x: int)
    requires
        is_rect(m, cols),
        0 <= x,
    ensures
        is_normal(smith_reduce(m, x), x),
    decreases m.len() - x,
{
    let out = smith_reduce(m, x);
    if x < m.len() && has_pivot(m, x) {
        let p = pivot(m, x);
        let s = smith_step(m, x, p.0, p.1);
        lemma_step_rect(m, cols, x, p.0, p.1);
        lemma_step_clears(m, cols, x, p.0, p.1);
        lemma_reduce_normal(s, cols, x + 1);
        lemma_reduce_keeps_cross(s, cols, x, x + 1);
        lemma_reduce_rect(s, cols, x + 1);
        let y = x + 1;
        let r = choose|r: int| 0 <= r && #[trigger] is_normal_with(out, y, r);
        assert(is_normal_with(out, x, r + 1)) by {
            assert forall|i: int, j: int| in_block(out, x, i, j) implies (#[trigger] out[i][j]) == (i
                == j && i < x + r + 1) by {
                if i > x && j > x {
                    assert(in_block(out, x + 1, i, j));
                }
            }
        }
    } else {
        assert(is_normal_with(out, x, 0)) by {
            assert forall|i: int, j: int| in_block(out, x, i, j) implies (#[trigger] out[i][j]) == (i
                == j && i < x + 0) by {
                if out[i][j] {
                    lemma_first_one(m, cols, x, i, j);
                }
            }
        }
    }
}

/// The reduction leaves a matrix in Smith-normal form as it is.
pub proof fn lemma_reduce_fixes_normal(m: Seq<Seq<bool>>, cols: nat, x: int)
    requires
        is_rect(m, cols),
        0 <= x,
        is_normal(m, x),
    ensures
        smith_reduce(m, x) == m,
    decreases m.len() - x,
{
    if x < m.len() && has_pivot(m, x) {
        let r = choose|r: int| 0 <= r && #[trigger] is_normal_with(m, x, r);
        let p = pivot(m, x);
        assert(m[p.0][p.1]);
        assert(p.0 == p.1 && p.0 < x + r);
        assert(in_block(m, x, x, x));
        assert(m[x][x]);
        if p.0 != x {
            assert(comes_before(x, x, p.0, p.1));
        }
        let a = swap_rows(m, x, x);
        assert(a =~= m);
        let b = swap_cols(a, x, x);
        assert(b =~~= m);
        let c = rows_cleared(b, x);
        assert(c =~~= m) by {
            assert forall|i: int, j: int| 0 <= i < m.len() && 0 <= j < cols implies c[i][j]
                == m[i][j] by {
                if i > x {
                    assert(in_block(m, x, i, x));
                    assert(!m[i][x]);
                }
            }
        }
        let d = cols_cleared(c, x);
        assert(d =~~= m) by {
            assert forall|i: int, j: int| 0 <= i < m.len() && 0 <= j < cols implies d[i][j]
                == m[i][j] by {
                if j > x {
                    assert(in_block(m, x, x, j));
                    assert(!m[x][j]);
                }
            }
        }
        assert(smith_step(m, x, p.0, p.1) == m);
        assert(is_normal_with(m, x + 1, r - 1)) by {
            assert forall|i: int, j: int| in_block(m, x + 1, i, j) implies (#[trigger] m[i][j]) == (i
                == j && i < x + 1 + (r - 1)) by {
                assert(in_block(m, x, i, j));
            }
        }
        lemma_reduce_fixes_normal(m, cols, x + 1);
    }
}

/// Reducing twice gives what reducing once gives.
pub proof fn lemma_reduce_idempotent(m: Seq<Seq<bool>>, cols: nat, x: int)
    requires
        is_rect(m, cols),
        0 <= x,
    ensures
        smith_reduce(smith_reduce(m, x), x) == smith_reduce(m, x),
{
    lemma_reduce_rect(m, cols, x);
    lemma_reduce_normal(m, cols, x);
    lemma_reduce_fixes_normal(smith_reduce(m, x), cols, x);
}

/// A matrix of numbers read mod 2.
pub open spec fn bits_of(m: Seq<Seq<int>>) -> Seq<Seq<bool>> {
    Seq::new(m.len(), |i: int| Seq::new(m[i].len(), |j: int| m[i][j] % 2 == 1))
}

/// `m` with the row `x` added to each row below it that is odd in column
/// `x`.
pub open spec fn rows_summed(m: Seq<Seq<int>>, x: int) -> Seq<Seq<int>> {
    Seq::new(
        m.len(),
        |i: int|
            Seq::new(
                m[i].len(),
                |j: int|
                    m[i][j] + if i > x && m[i][x] % 2 == 1 {
                        m[x][j]
                    } else {
                        0
                    },
            ),
    )
}

/// `m` with the column `x` added to each column right of it that is odd in
/// row `x`.
pub open spec fn cols_summed(m: Seq<Seq<int>>, x: int) -> Seq<Seq<int>> {
    Seq::new(
        m.len(),
        |i: int|
            Seq::new(
                m[i].len(),
                |j: int|
                    m[i][j] + if j > x && m[x][j] % 2 == 1 {
                        m[i][x]
                    } else {
                        0
                    },
            ),
    )
}

/// One round of the reduction on numbers: the round of `smith_step`, with
/// sums in place of the additions mod 2.
pub open spec fn sum_step(m: Seq<Seq<int>>, x: int, k: int, l: int) -> Seq<Seq<int>> {
    cols_summed(rows_summed(swap_cols(swap_rows(m, x, k), x, l), x), x)
}

/// The reduction on numbers: that of `smith_reduce`, with sums in place of
/// the additions mod 2.
pub open spec fn sum_reduce(m: Seq<Seq<int>>, x: int) -> Seq<Seq<int>>
    decreases m.len() - x,
{
    if 0 <= x < m.len() && has_pivot(bits_of(m), x) {
        let p = pivot(bits_of(m), x);
        sum_reduce(sum_step(m, x, p.0, p.1), x + 1)
    } else {
        m
    }
}

/// No entry of `m` is negative.
pub open spec fn is_nonneg(m: Seq<Seq<int>>) -> bool {
    forall|i: int, j: int| 0 <= i < m.len() && 0 <= j < m[i].len() ==> 0 <= #[trigger] m[i][j]
}

/// No entry of `m` is negative, and none is above `bound`.
pub open spec fn is_within(m: Seq<Seq<int>>, bound: int) -> bool {
    forall|i: int, j: int|
        0 <= i < m.len() && 0 <= j < m[i].len() ==> 0 <= #[trigger] m[i][j] <= bound
}

/// Read mod 2, a round on numbers is the round over the field with two
/// elements.
pub proof fn lemma_sum_step_bits(m: Seq<Seq<int>>, cols: nat, x: int, k: int, l: int)
    requires
        is_rect(m, cols),
        0 <= x,
        in_block(bits_of(m), x, k, l),
    ensures
        bits_of(sum_step(m, x, k, l)) == smith_step(bits_of(m), x, k, l),
        is_rect(sum_step(m, x, k, l), cols),
        sum_step(m, x, k, l).len() == m.len(),
{
    let a = swap_rows(m, x, k);
    let b = swap_cols(a, x, l);
    let c = rows_summed(b, x);
    let d = cols_summed(c, x);
    let eb = swap_cols(swap_rows(bits_of(m), x, k), x, l);
    assert(bits_of(b) =~~= eb);
    assert(bits_of(c) =~~= rows_cleared(eb, x));
    assert(bits_of(d) =~~= cols_cleared(rows_cleared(eb, x), x));
}

/// Read mod 2, the reduction on numbers is the reduction over the field with
/// two elements.
pub proof fn lemma_sum_reduce_bits(m: Seq<Seq<int>>, cols: nat, x: int)
    requires
        is_rect(m, cols),
        0 <= x,
    ensures
        bits_of(sum_reduce(m, x)) == smith_reduce(bits_of(m), x),
    decreases m.len() - x,
{
    if x < m.len() && has_pivot(bits_of(m), x) {
        let p = pivot(bits_of(m), x);
        lemma_sum_step_bits(m, cols, x, p.0, p.1);
        lemma_sum_reduce_bits(sum_step(m, x, p.0, p.1), cols, x + 1);
    }
}

/// A round makes no entry smaller: where the matrix after the round is
/// within a bound, so are the matrix before it and the matrix between the
/// additions of rows and those of columns.
pub proof fn lemma_sum_step_grows(m: Seq<Seq<int>>, cols: nat, x: int, k: int, l: int, bound: int)
    requires
        is_rect(m, cols),
        0 <= x,
        in_block(bits_of(m), x, k, l),
        is_nonneg(m),
        is_within(sum_step(m, x, k, l), bound),
    ensures
        is_within(m, bound),
        is_within(rows_summed(swap_cols(swap_rows(m, x, k), x, l), x), bound),
{
    let a = swap_rows(m, x, k);
    let b = swap_cols(a, x, l);
    let c = rows_summed(b, x);
    let d = cols_summed(c, x);
    assert forall|i: int, j: int| 0 <= i < b.len() && 0 <= j < b[i].len() implies 0 <= #[trigger] b[i][j] by {
        assert(b[i][j] == m[swapped(x, k, i)][swapped(x, l, j)]);
    }
    assert forall|i: int, j: int| 0 <= i < c.len() && 0 <= j < c[i].len() implies 0 <= #[trigger] c[i][j]
        <= bound by {
        assert(0 <= b[i][j]);
        assert(0 <= b[x][j]);
        assert(0 <= c[i][x]) by {
            assert(0 <= b[i][x]);
            assert(0 <= b[x][x]);
        }
        assert(d[i][j] <= bound);
    }
    assert forall|i: int, j: int| 0 <= i < m.len() && 0 <= j < m[i].len() implies 0 <= #[trigger] m[i][j]
        <= bound by {
        let i2 = swapped(x, k, i);
        let j2 = swapped(x, l, j);
        assert(b[i2][j2] == m[i][j]);
        assert(0 <= b[x][j2]);
        assert(b[i2][j2] <= c[i2][j2]);
        assert(c[i2][j2] <= bound);
    }
}

/// The reduction makes no entry smaller: where its result is within a
/// bound, so is the matrix that it starts from.
pub proof fn lemma_sum_reduce_grows(m: Seq<Seq<int>>, cols: nat, x: int, bound: int)
    requires
        is_rect(m, cols),
        0 <= x,
        is_nonneg(m),
        is_within(sum_reduce(m, x), bound),
    ensures
        is_within(m, bound),
    decreases m.len() - x,
{
    if x < m.len() && has_pivot(bits_of(m), x) {
        let p = pivot(bits_of(m), x);
        let s = sum_step(m, x, p.0, p.1);
        lemma_sum_step_bits(m, cols, x, p.0, p.1);
        lemma_sum_step_nonneg(m, cols, x, p.0, p.1);
        lemma_sum_reduce_grows(s, cols, x + 1, bound);
        lemma_sum_step_grows(m, cols, x, p.0, p.1, bound);
    }
}

/// A round keeps the entries from being negative.
pub proof fn lemma_sum_step_nonneg(m: Seq<Seq<int>>, cols: nat, x: int, k: int, l: int)
    requires
        is_rect(m, cols),
        0 <= x,
        in_block(bits_of(m), x, k, l),
        is_nonneg(m),
    ensures
        is_nonneg(sum_step(m, x, k, l)),
{
    let a = swap_rows(m, x, k);
    let b = swap_cols(a, x, l);
    let c = rows_summed(b, x);
    let d = cols_summed(c, x);
    assert forall|i: int, j: int| 0 <= i < b.len() && 0 <= j < b[i].len() implies 0 <= #[trigger] b[i][j] by {
        assert(b[i][j] == m[swapped(x, k, i)][swapped(x, l, j)]);
    }
    assert forall|i: int, j: int| 0 <= i < c.len() && 0 <= j < c[i].len() implies 0 <= #[trigger] c[i][j] by {
        assert(0 <= b[i][j]);
        assert(0 <= b[x][j]);
    }
    assert forall|i: int, j: int| 0 <= i < d.len() && 0 <= j < d[i].len() implies 0 <= #[trigger] d[i][j] by {
        assert(0 <= c[i][j]);
        assert(0 <= c[i][x]);
    }
}

} // verus!
