//! Left kernels over the field with two elements: which combinations of the
//! rows of a matrix add up to zero, and what that says of the rank.
use crate::gf2::{
    cols_cleared, diag_ones, has_pivot, is_pivot, is_rect, lemma_first_one,
    lemma_reduce_keeps_cross, lemma_reduce_rect, lemma_step_clears, lemma_step_rect, pivot,
    rows_cleared, smith_reduce, smith_step, swap_cols, swap_rows,
};
use crate::matrix::swapped;
use vstd::prelude::*;

verus! {

/// The sum over the field with two elements of `f[i]` for `x <= i < k`.
pub open spec fn xsum(f: Seq<bool>, x: int, k: int) -> bool
    decreases k - x,
{
    if k <= x {
        false
    } else {
        xsum(f, x, k - 1) != f[k - 1]
    }
}

/// Sums of equal terms are equal.
pub proof fn lemma_xsum_same(f: Seq<bool>, g: Seq<bool>, x: int, k: int)
    requires
        forall|i: int| x <= i < k ==> #[trigger] f[i] == g[i],
    ensures
        xsum(f, x, k) == xsum(g, x, k),
    decreases k - x,
{
    if k > x {
        lemma_xsum_same(f, g, x, k - 1);
    }
}

/// A sum of zeros is zero.
pub proof fn lemma_xsum_none(f: Seq<bool>, x: int, k: int)
    requires
        forall|i: int| x <= i < k ==> !#[trigger] f[i],
    ensures
        !xsum(f, x, k),
    decreases k - x,
{
    if k > x {
        lemma_xsum_none(f, x, k - 1);
    }
}

/// The sum of sums is the sum of the sums.
pub proof fn lemma_xsum_add(
    f: Seq<bool>,
    g: Seq<bool>,
    h: Seq<bool>,
    x: int,
    k: int,
)
    requires
        forall|i: int| x <= i < k ==> #[trigger] h[i] == (f[i] != g[i]),
    ensures
        xsum(h, x, k) == (xsum(f, x, k) != xsum(g, x, k)),
    decreases k - x,
{
    if k > x {
        lemma_xsum_add(f, g, h, x, k - 1);
    }
}

/// A factor that all terms share can be taken out of the sum.
pub proof fn lemma_xsum_scale(
    f: Seq<bool>,
    h: Seq<bool>,
    c: bool,
    x: int,
    k: int,
)
    requires
        forall|i: int| x <= i < k ==> #[trigger] h[i] == (c && f[i]),
    ensures
        xsum(h, x, k) == (c && xsum(f, x, k)),
    decreases k - x,
{
    if k > x {
        lemma_xsum_scale(f, h, c, x, k - 1);
    }
}

/// A sum is its first term and the sum of the rest.
pub proof fn lemma_xsum_first(f: Seq<bool>, x: int, k: int)
    requires
        x < k,
    ensures
        xsum(f, x, k) == (f[x] != xsum(f, x + 1, k)),
    decreases k - x,
{
    if k > x + 1 {
        lemma_xsum_first(f, x, k - 1);
        assert(xsum(f, x + 1, k) == (xsum(f, x + 1, k - 1) != f[k - 1]));
    } else {
        assert(!xsum(f, x, x));
        assert(!xsum(f, x + 1, k));
    }
}

/// Where one term changes, the sum changes by the change of the term.
pub proof fn lemma_xsum_update(
    f: Seq<bool>,
    g: Seq<bool>,
    a: int,
    x: int,
    k: int,
)
    requires
        x <= a < k,
        forall|i: int| x <= i < k && i != a ==> #[trigger] f[i] == g[i],
    ensures
        xsum(g, x, k) == (xsum(f, x, k) != (f[a] != g[a])),
    decreases k - x,
{
    if k - 1 == a {
        lemma_xsum_same(f, g, x, k - 1);
    } else {
        lemma_xsum_update(f, g, a, x, k - 1);
    }
}

/// Where two terms change places, the sum stays.
pub proof fn lemma_xsum_swap(
    f: Seq<bool>,
    g: Seq<bool>,
    a: int,
    b: int,
    x: int,
    k: int,
)
    requires
        x <= a < k,
        x <= b < k,
        0 <= x,
        k <= f.len(),
        forall|i: int| x <= i < k ==> #[trigger] g[i] == f[swapped(a, b, i)],
    ensures
        xsum(g, x, k) == xsum(f, x, k),
{
    if a == b {
        lemma_xsum_same(f, g, x, k);
    } else {
        let h = f.update(a, f[b]);
        lemma_xsum_update(f, h, a, x, k);
        lemma_xsum_update(h, g, b, x, k);
    }
}

/// The terms of a combination of the rows of `m` in column `j`: row `i`
/// counts where `s[i]` holds.
pub open spec fn terms(m: Seq<Seq<bool>>, s: Seq<bool>, j: int) -> Seq<bool> {
    Seq::new(m.len(), |i: int| s[i] && m[i][j])
}

/// The entry in column `j` of the sum of the rows from `x` on that `s`
/// picks.
pub open spec fn row_sum(m: Seq<Seq<bool>>, s: Seq<bool>, j: int, x: int) -> bool {
    xsum(terms(m, s, j), x, m.len() as int)
}

/// The rows from `x` on that `s` picks add up to zero in every column from
/// `x` on.
pub open spec fn kills(m: Seq<Seq<bool>>, cols: nat, s: Seq<bool>, x: int) -> bool {
    forall|j: int| x <= j < cols ==> !#[trigger] row_sum(m, s, j, x)
}

/// From `x` on, `s` picks all rows or none.
pub open spec fn constant_from(s: Seq<bool>, x: int) -> bool {
    forall|i: int| x <= i < s.len() ==> #[trigger] s[i] == s[x]
}

/// In the block at `x`, the rows that add up to zero are all the rows
/// together, and no other choice of rows but the empty one: the rows hang
/// together as the vertices of one connected graph do in its incidence
/// matrix.
pub open spec fn one_component(m: Seq<Seq<bool>>, cols: nat, x: int) -> bool {
    forall|s: Seq<bool>|
        s.len() == m.len() ==> (#[trigger] kills(m, cols, s, x) <==> constant_from(s, x))
}

/// A choice of rows, after two rows have changed places.
pub open spec fn swapped_choice(s: Seq<bool>, a: int, b: int) -> Seq<bool> {
    Seq::new(s.len(), |i: int| s[swapped(a, b, i)])
}

/// Exchanging rows and columns of the block keeps the rows hanging together.
pub proof fn lemma_swaps_keep_component(m: Seq<Seq<bool>>, cols: nat, x: int, k: int, l: int)
    requires
        is_rect(m, cols),
        0 <= x <= k < m.len(),
        x <= l < cols,
        one_component(m, cols, x),
    ensures
        one_component(swap_cols(swap_rows(m, x, k), x, l), cols, x),
{
    let b = swap_cols(swap_rows(m, x, k), x, l);
    let n = m.len() as int;
    assert forall|s: Seq<bool>| s.len() == b.len() implies (#[trigger] kills(b, cols, s, x)
        <==> constant_from(s, x)) by {
        let sp = swapped_choice(s, x, k);
        assert forall|j: int| x <= j < cols implies row_sum(b, s, j, x) == row_sum(
            m,
            sp,
            swapped(x, l, j),
            x,
        ) by {
            let f = terms(m, sp, swapped(x, l, j));
            let g = terms(b, s, j);
            assert forall|i: int| x <= i < n implies #[trigger] g[i] == f[swapped(x, k, i)] by {
                let i2 = swapped(x, k, i);
                assert(b[i][j] == m[i2][swapped(x, l, j)]);
                assert(sp[i2] == s[swapped(x, k, i2)]);
            }
            lemma_xsum_swap(f, g, x, k, x, n);
        }
        assert(kills(m, cols, sp, x) <==> constant_from(sp, x));
        if kills(b, cols, s, x) {
            assert forall|j: int| x <= j < cols implies !#[trigger] row_sum(m, sp, j, x) by {
                let j2 = swapped(x, l, j);
                assert(!row_sum(b, s, j2, x));
                assert(swapped(x, l, j2) == j);
            }
        }
        if kills(m, cols, sp, x) {
            assert forall|j: int| x <= j < cols implies !#[trigger] row_sum(b, s, j, x) by {
                assert(!row_sum(m, sp, swapped(x, l, j), x));
            }
        }
        if constant_from(s, x) {
            assert forall|i: int| x <= i < sp.len() implies #[trigger] sp[i] == sp[x] by {
                assert(s[swapped(x, k, i)] == s[x]);
                assert(s[swapped(x, k, x)] == s[x]);
            }
        }
        if constant_from(sp, x) {
            assert forall|i: int| x <= i < s.len() implies #[trigger] s[i] == s[x] by {
                assert(sp[swapped(x, k, i)] == sp[x]);
                assert(sp[swapped(x, k, x)] == sp[x]);
            }
        }
    }
}

/// The choice of rows of the matrix before the clearing of column `x` that
/// adds up to what `s` picks after it: row `x` is picked once more for each
/// picked row that it was added to.
pub open spec fn choice_before(b: Seq<Seq<bool>>, s: Seq<bool>, x: int) -> Seq<bool> {
    s.update(x, s[x] != xsum(terms(b, s, x), x + 1, b.len() as int))
}

/// What a choice of rows adds up to after the clearing of column `x`.
pub proof fn lemma_row_clear_sum(b: Seq<Seq<bool>>, cols: nat, x: int, s: Seq<bool>, j: int)
    requires
        is_rect(b, cols),
        0 <= x < b.len(),
        x < cols,
        0 <= j < cols,
        s.len() == b.len(),
    ensures
        row_sum(rows_cleared(b, x), s, j, x) == row_sum(b, choice_before(b, s, x), j, x),
{
    let n = b.len() as int;
    let cc = rows_cleared(b, x);
    let hat = choice_before(b, s, x);
    let big = xsum(terms(b, s, x), x + 1, n);
    let tc = terms(cc, s, j);
    let tb = terms(b, s, j);
    let tx = terms(b, s, x);
    let th = terms(b, hat, j);
    let scaled = Seq::new(b.len(), |i: int| b[x][j] && tx[i]);
    lemma_xsum_first(tc, x, n);
    lemma_xsum_first(th, x, n);
    assert forall|i: int| x + 1 <= i < n implies #[trigger] tc[i] == (tb[i] != scaled[i]) by {
        assert(cc[i][j] == (b[i][j] != (i > x && b[i][x] && b[x][j])));
    }
    lemma_xsum_add(tb, scaled, tc, x + 1, n);
    lemma_xsum_scale(tx, scaled, b[x][j], x + 1, n);
    assert forall|i: int| x + 1 <= i < n implies #[trigger] th[i] == tb[i] by {
        assert(hat[i] == s[i]);
    }
    lemma_xsum_same(th, tb, x + 1, n);
    assert(tc[x] == (s[x] && b[x][j])) by {
        assert(cc[x][j] == b[x][j]);
    }
    assert(th[x] == ((s[x] != big) && b[x][j]));
}

/// A round's clearing of column `x` and of row `x` keeps the rows hanging
/// together: those of the block at `x + 1` do after it, where those of the
/// block at `x` did before.
pub proof fn lemma_clear_keeps_component(b: Seq<Seq<bool>>, cols: nat, x: int)
    requires
        is_rect(b, cols),
        0 <= x,
        x + 2 <= b.len(),
        x < cols,
        b[x][x],
        one_component(b, cols, x),
    ensures
        one_component(cols_cleared(rows_cleared(b, x), x), cols, x + 1),
{
    let n = b.len() as int;
    let cc = rows_cleared(b, x);
    let d = cols_cleared(cc, x);
    let y = x + 1;
    // Below row `x`, column `x` is clear.
    assert forall|i: int| x < i < n implies !#[trigger] cc[i][x] by {
        assert(cc[i][x] == (b[i][x] != (i > x && b[i][x] && b[x][x])));
    }
    assert forall|s: Seq<bool>| s.len() == d.len() implies (#[trigger] kills(d, cols, s, y)
        <==> constant_from(s, y)) by {
        // From row `x + 1` on, the clearing of row `x` changes nothing.
        assert forall|j: int| y <= j < cols implies row_sum(d, s, j, y) == row_sum(cc, s, j, y) by {
            let td = terms(d, s, j);
            let tc = terms(cc, s, j);
            assert forall|i: int| y <= i < n implies #[trigger] td[i] == tc[i] by {
                assert(d[i][j] == (cc[i][j] != (j > x && cc[x][j] && cc[i][x])));
            }
            lemma_xsum_same(td, tc, y, n);
        }
        if kills(d, cols, s, y) {
            let s0 = s.update(x, false);
            assert forall|j: int| x <= j < cols implies !#[trigger] row_sum(cc, s0, j, x) by {
                let t0 = terms(cc, s0, j);
                let tc = terms(cc, s, j);
                lemma_xsum_first(t0, x, n);
                assert forall|i: int| y <= i < n implies #[trigger] t0[i] == tc[i] by {
                    assert(s0[i] == s[i]);
                }
                lemma_xsum_same(t0, tc, y, n);
                if j == x {
                    assert forall|i: int| y <= i < n implies !#[trigger] tc[i] by {
                        assert(!cc[i][x]);
                    }
                    lemma_xsum_none(tc, y, n);
                } else {
                    assert(!row_sum(d, s, j, y));
                }
            }
            assert forall|j: int| x <= j < cols implies !#[trigger] row_sum(
                b,
                choice_before(b, s0, x),
                j,
                x,
            ) by {
                lemma_row_clear_sum(b, cols, x, s0, j);
                assert(!row_sum(cc, s0, j, x));
            }
            let hat = choice_before(b, s0, x);
            assert(kills(b, cols, hat, x));
            assert(constant_from(hat, x));
            assert forall|i: int| y <= i < s.len() implies #[trigger] s[i] == s[y] by {
                assert(hat[i] == hat[x]);
                assert(hat[y] == hat[x]);
                assert(hat[i] == s[i]);
                assert(hat[y] == s[y]);
            }
        }
        if constant_from(s, y) {
            assert forall|j: int| y <= j < cols implies !#[trigger] row_sum(d, s, j, y) by {
                let tc = terms(cc, s, j);
                if !s[y] {
                    assert forall|i: int| y <= i < n implies !#[trigger] tc[i] by {
                        assert(s[i] == s[y]);
                    }
                    lemma_xsum_none(tc, y, n);
                } else {
                    let all = Seq::new(b.len(), |i: int| true);
                    assert(constant_from(all, x));
                    assert(kills(b, cols, all, x));
                    let ax = terms(b, all, x);
                    let aj = terms(b, all, j);
                    assert(!row_sum(b, all, x, x));
                    assert(!row_sum(b, all, j, x));
                    lemma_xsum_first(ax, x, n);
                    lemma_xsum_first(aj, x, n);
                    assert(ax[x] == b[x][x]);
                    assert(aj[x] == b[x][j]);
                    // The rows below `x` that are odd in column `x` are odd in
                    // number, and the rows below `x` add up to row `x`.
                    assert(xsum(ax, y, n));
                    assert(xsum(aj, y, n) == b[x][j]);
                    let scaled = Seq::new(b.len(), |i: int| b[x][j] && ax[i]);
                    assert forall|i: int| y <= i < n implies #[trigger] tc[i] == (aj[i]
                        != scaled[i]) by {
                        assert(s[i] == s[y]);
                        assert(cc[i][j] == (b[i][j] != (i > x && b[i][x] && b[x][j])));
                    }
                    lemma_xsum_add(aj, scaled, tc, y, n);
                    lemma_xsum_scale(ax, scaled, b[x][j], y, n);
                }
            }
        }
    }
}

/// The choice of the one row `x`.
pub open spec fn only_row(n: nat, x: int) -> Seq<bool> {
    Seq::new(n, |i: int| i == x)
}

/// What the one row `x` adds up to is the row itself.
proof fn lemma_only_row_sum(m: Seq<Seq<bool>>, x: int, j: int)
    requires
        0 <= x < m.len(),
    ensures
        row_sum(m, only_row(m.len(), x), j, x) == m[x][j],
{
    let n = m.len() as int;
    let t = terms(m, only_row(m.len(), x), j);
    lemma_xsum_first(t, x, n);
    lemma_xsum_none(t, x + 1, n);
}

/// Rows that hang together, two or more of them, are not all zero: the
/// block holds a one.
pub proof fn lemma_component_has_pivot(m: Seq<Seq<bool>>, cols: nat, x: int)
    requires
        is_rect(m, cols),
        0 <= x,
        x + 2 <= m.len(),
        one_component(m, cols, x),
    ensures
        has_pivot(m, x),
        x < cols,
{
    let s = only_row(m.len(), x);
    assert(!constant_from(s, x)) by {
        assert(s[x + 1] != s[x]);
    }
    assert(!kills(m, cols, s, x));
    let j = choose|j: int| x <= j < cols && #[trigger] row_sum(m, s, j, x);
    lemma_only_row_sum(m, x, j);
    lemma_first_one(m, cols, x, x, j);
}

/// A single row that hangs together is zero: the block holds no one.
pub proof fn lemma_component_ends(m: Seq<Seq<bool>>, cols: nat, x: int)
    requires
        is_rect(m, cols),
        0 <= x,
        x + 1 == m.len(),
        one_component(m, cols, x),
    ensures
        !has_pivot(m, x),
{
    let s = only_row(m.len(), x);
    assert(constant_from(s, x));
    assert(kills(m, cols, s, x));
    if has_pivot(m, x) {
        let p = choose|p: (int, int)| is_pivot(m, x, p.0, p.1);
        assert(p.0 == x);
        assert(!row_sum(m, s, p.1, x));
        lemma_only_row_sum(m, x, p.1);
    }
}

/// Where the rows of the block at `x` hang together, the reduction leaves a
/// one in every place of the diagonal from `x` on but the last row's.
pub proof fn lemma_component_diagonal(m: Seq<Seq<bool>>, cols: nat, x: int)
    requires
        is_rect(m, cols),
        0 <= x < m.len(),
        x <= cols,
        one_component(m, cols, x),
    ensures
        m.len() - 1 <= cols,
        forall|j: int|
            x <= j < m.len() && j < cols ==> #[trigger] smith_reduce(m, x)[j][j] == (j < m.len()
                - 1),
    decreases m.len() - x,
{
    let n = m.len() as int;
    let out = smith_reduce(m, x);
    if x + 1 == n {
        lemma_component_ends(m, cols, x);
        if x < cols {
            lemma_only_row_sum(m, x, x);
            assert(kills(m, cols, only_row(m.len(), x), x)) by {
                assert(constant_from(only_row(m.len(), x), x));
            }
            assert(!row_sum(m, only_row(m.len(), x), x, x));
        }
    } else {
        lemma_component_has_pivot(m, cols, x);
        let p = pivot(m, x);
        let k = p.0;
        let l = p.1;
        assert(is_pivot(m, x, k, l));
        let b = swap_cols(swap_rows(m, x, k), x, l);
        let step = smith_step(m, x, k, l);
        lemma_swaps_keep_component(m, cols, x, k, l);
        assert(b[x][x] == m[k][l]);
        assert(is_rect(b, cols));
        lemma_clear_keeps_component(b, cols, x);
        lemma_step_rect(m, cols, x, k, l);
        lemma_step_clears(m, cols, x, k, l);
        lemma_component_diagonal(step, cols, x + 1);
        lemma_reduce_keeps_cross(step, cols, x, x + 1);
        assert forall|j: int| x <= j < n && j < cols implies #[trigger] out[j][j] == (j < n
            - 1) by {
            if j > x {
                assert(smith_reduce(step, x + 1)[j][j] == (j < n - 1));
            }
        }
    }
}

/// The count of the ones on a diagonal that holds a one in every place but
/// the last row's.
proof fn lemma_diagonal_count(out: Seq<Seq<bool>>, cols: nat, t: nat)
    requires
        is_rect(out, cols),
        out.len() >= 1,
        t <= cols,
        forall|j: int| 0 <= j < out.len() && j < cols ==> #[trigger] out[j][j] == (j < out.len() - 1),
    ensures
        diag_ones(out, t) == if t <= out.len() - 1 {
            t as int
        } else {
            out.len() - 1
        },
    decreases t,
{
    if t > 0 {
        lemma_diagonal_count(out, cols, (t - 1) as nat);
        let j = t - 1;
        if j < out.len() {
            assert(out[j][j] == (j < out.len() - 1));
        }
    }
}

/// The rank of a matrix whose rows hang together is one less than the
/// number of its rows: the reduction leaves that many ones on the diagonal.
pub proof fn lemma_component_rank(m: Seq<Seq<bool>>, cols: nat)
    requires
        is_rect(m, cols),
        m.len() >= 1,
        one_component(m, cols, 0),
    ensures
        diag_ones(smith_reduce(m, 0), cols) == m.len() - 1,
{
    lemma_component_diagonal(m, cols, 0);
    lemma_reduce_rect(m, cols, 0);
    lemma_diagonal_count(smith_reduce(m, 0), cols, cols);
}

} // verus!
