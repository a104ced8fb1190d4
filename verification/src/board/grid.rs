//! The mathematical model of a position: a square grid of cell codes, sums of
//! per-cell weights over it, and what a single cell update does to such sums.

use vstd::prelude::*;

verus! {

/// A position as a sequence of columns: `g[x][y]` is the code of the cell at `(x, y)`.
pub type Grid = Seq<Seq<usize>>;

/// A weight given to the cell at `(x, y)` when it holds the value `v`.
pub type Weight<T> = spec_fn(int, int, T) -> int;

/// Whether `g` has exactly `n` columns of `n` cells each.
pub open spec fn is_square<T>(g: Seq<Seq<T>>, n: int) -> bool {
    &&& g.len() == n
    &&& forall|x: int| 0 <= x < n ==> (#[trigger] g[x]).len() == n
}

/// Whether `(x, y)` names a cell of a square grid with `n` columns.
pub open spec fn in_range(n: int, x: int, y: int) -> bool {
    0 <= x < n && 0 <= y < n
}

/// The grid `g` with the cell at `(x, y)` replaced by `v`.
pub open spec fn set_cell<T>(g: Seq<Seq<T>>, x: int, y: int, v: T) -> Seq<Seq<T>> {
    g.update(x, g[x].update(y, v))
}

/// Sum of the weights of the first `n` cells of column `x`.
pub open spec fn column_sum<T>(col: Seq<T>, x: int, w: Weight<T>, n: nat) -> int
    decreases n,
{
    if n == 0 {
        0
    } else {
        column_sum(col, x, w, (n - 1) as nat) + w(x, n - 1, col[n - 1])
    }
}

/// Sum of the weights of all cells in the first `m` columns.
pub open spec fn grid_sum_upto<T>(g: Seq<Seq<T>>, w: Weight<T>, m: nat) -> int
    decreases m,
{
    if m == 0 {
        0
    } else {
        grid_sum_upto(g, w, (m - 1) as nat) + column_sum(g[m - 1], m - 1, w, g[m - 1].len())
    }
}

/// Sum of the weights of all cells of the grid.
pub open spec fn grid_sum<T>(g: Seq<Seq<T>>, w: Weight<T>) -> int {
    grid_sum_upto(g, w, g.len())
}

/// The weight that counts cells holding the code `c`.
pub open spec fn count_weight(c: usize) -> Weight<usize> {
    |x: int, y: int, v: usize| if v == c { 1int } else { 0int }
}

/// Number of cells of `g` that hold the code `c`.
pub open spec fn count_cells(g: Grid, c: usize) -> int {
    grid_sum(g, count_weight(c))
}

/// Replacing one cell changes a column sum by the difference of the two weights,
/// if the cell lies within the summed prefix.
pub proof fn lemma_column_sum_update<T>(col: Seq<T>, x: int, w: Weight<T>, n: nat, y: int, v: T)
    requires
        0 <= y < col.len(),
        n <= col.len(),
    ensures
        column_sum(col.update(y, v), x, w, n) == column_sum(col, x, w, n) + (if y < n {
            w(x, y, v) - w(x, y, col[y])
        } else {
            0
        }),
    decreases n,
{
    if n > 0 {
        lemma_column_sum_update(col, x, w, (n - 1) as nat, y, v);
    }
}

/// Replacing one cell changes a grid sum by the difference of the two weights,
/// if the cell lies within the summed columns.
pub proof fn lemma_grid_sum_upto_set_cell<T>(
    g: Seq<Seq<T>>,
    w: Weight<T>,
    m: nat,
    x: int,
    y: int,
    v: T,
)
    requires
        0 <= x < g.len(),
        0 <= y < g[x].len(),
        m <= g.len(),
    ensures
        grid_sum_upto(set_cell(g, x, y, v), w, m) == grid_sum_upto(g, w, m) + (if x < m {
            w(x, y, v) - w(x, y, g[x][y])
        } else {
            0
        }),
    decreases m,
{
    if m > 0 {
        lemma_grid_sum_upto_set_cell(g, w, (m - 1) as nat, x, y, v);
        if x == m - 1 {
            lemma_column_sum_update(g[x], x, w, g[x].len(), y, v);
        }
    }
}

/// Replacing one cell changes the sum over the whole grid by the difference of
/// the two weights.
pub proof fn lemma_grid_sum_set_cell<T>(g: Seq<Seq<T>>, w: Weight<T>, x: int, y: int, v: T)
    requires
        0 <= x < g.len(),
        0 <= y < g[x].len(),
    ensures
        grid_sum(set_cell(g, x, y, v), w) == grid_sum(g, w) + w(x, y, v) - w(x, y, g[x][y]),
{
    lemma_grid_sum_upto_set_cell(g, w, g.len(), x, y, v);
}

/// A column sum lies between `n` times the least and `n` times the greatest weight.
pub proof fn lemma_column_sum_bounds<T>(
    col: Seq<T>,
    x: int,
    w: Weight<T>,
    n: nat,
    lo: int,
    hi: int,
)
    requires
        n <= col.len(),
        forall|y: int| 0 <= y < n ==> lo <= #[trigger] w(x, y, col[y]) <= hi,
    ensures
        n * lo <= column_sum(col, x, w, n) <= n * hi,
    decreases n,
{
    if n > 0 {
        lemma_column_sum_bounds(col, x, w, (n - 1) as nat, lo, hi);
        assert(lo <= w(x, n - 1, col[n - 1]) <= hi);
        assert((n - 1) * lo + lo == n * lo) by (nonlinear_arith);
        assert((n - 1) * hi + hi == n * hi) by (nonlinear_arith);
    } else {
        assert(n * lo == 0 && n * hi == 0) by (nonlinear_arith)
            requires
                n == 0,
        ;
    }
}

/// The sum over the first `m` columns of a square grid with `n` columns lies
/// between `m * n` times the least and `m * n` times the greatest weight.
pub proof fn lemma_grid_sum_bounds<T>(
    g: Seq<Seq<T>>,
    w: Weight<T>,
    m: nat,
    n: nat,
    lo: int,
    hi: int,
)
    requires
        is_square(g, n as int),
        m <= n,
        forall|x: int, y: int| 0 <= x < m && 0 <= y < n ==> lo <= #[trigger] w(x, y, g[x][y]) <= hi,
    ensures
        m * n * lo <= grid_sum_upto(g, w, m) <= m * n * hi,
    decreases m,
{
    if m > 0 {
        lemma_grid_sum_bounds(g, w, (m - 1) as nat, n, lo, hi);
        let x = m - 1;
        assert forall|y: int| 0 <= y < n implies lo <= #[trigger] w(x, y, g[x][y]) <= hi by {}
        lemma_column_sum_bounds(g[x], x, w, n, lo, hi);
        assert((m - 1) * n * lo + n * lo == m * n * lo) by (nonlinear_arith);
        assert((m - 1) * n * hi + n * hi == m * n * hi) by (nonlinear_arith);
    } else {
        assert(m * n * lo == 0 && m * n * hi == 0) by (nonlinear_arith)
            requires
                m == 0,
        ;
    }
}

} // verus!
