//! What holds of every position that play can reach.

use vstd::prelude::*;
use crate::board::action::Action;
use crate::board::grid::{
    column_sum, count_cells, count_weight, Grid, grid_sum_upto, in_range, is_square, Weight,
};
use crate::board::rules::{
    action_in_range, apply_move, initial_grid, is_legal, lemma_apply_move_square,
    lemma_legal_move_lands_on_empty, lemma_move_keeps_counts, lemma_revert_restores, revert_move,
    valid_position, winner,
};
use crate::constants::{BLUE, EMPTY, RED};

verus! {

/// The position after the moves of `line` have been made one after another.
pub open spec fn play(g: Grid, line: Seq<Action>) -> Grid
    decreases line.len(),
{
    if line.len() == 0 {
        g
    } else {
        apply_move(play(g, line.drop_last()), line.last())
    }
}

/// Whether each move of `line` is legal, in the position it is made in, for the
/// side whose piece it moves.
pub open spec fn is_line(g: Grid, line: Seq<Action>) -> bool
    decreases line.len(),
{
    line.len() == 0 || {
        let h = play(g, line.drop_last());
        let a = line.last();
        &&& is_line(g, line.drop_last())
        &&& action_in_range(h.len() as int, a)
        &&& h[a.from_x as int][a.from_y as int] != EMPTY
        &&& is_legal(h, h[a.from_x as int][a.from_y as int], a)
    }
}

/// Whether play can reach `g` from the opening position on `n` columns.
pub open spec fn reachable(g: Grid, n: int) -> bool {
    exists|line: Seq<Action>| is_line(initial_grid(n), line) && #[trigger] play(
        initial_grid(n),
        line,
    ) == g
}

/// A column whose cells weigh one between `lo` and `hi` and nothing elsewhere
/// sums to the number of its first `m` cells that lie between `lo` and `hi`.
proof fn lemma_column_block(col: Seq<usize>, x: int, w: Weight<usize>, lo: int, hi: int, m: nat)
    requires
        m <= col.len(),
        0 <= lo <= hi,
        forall|y: int|
            0 <= y < m ==> #[trigger] w(x, y, col[y]) == if lo <= y < hi {
                1int
            } else {
                0int
            },
    ensures
        column_sum(col, x, w, m) == if m <= lo {
            0
        } else if m <= hi {
            m - lo
        } else {
            hi - lo
        },
    decreases m,
{
    if m > 0 {
        lemma_column_block(col, x, w, lo, hi, (m - 1) as nat);
        assert(w(x, m - 1, col[m - 1]) == if lo <= m - 1 < hi {
            1int
        } else {
            0int
        });
    }
}

/// A grid whose cells weigh one inside a rectangle and nothing outside sums,
/// over its first `m` columns, to the number of cells of the rectangle in them.
proof fn lemma_grid_block(
    g: Grid,
    w: Weight<usize>,
    n: nat,
    x0: int,
    x1: int,
    y0: int,
    y1: int,
    m: nat,
)
    requires
        is_square(g, n as int),
        m <= n,
        0 <= x0 <= x1 <= n,
        0 <= y0 <= y1 <= n,
        forall|x: int, y: int|
            0 <= x < n && 0 <= y < n ==> #[trigger] w(x, y, g[x][y]) == if x0 <= x < x1 && y0
                <= y < y1 {
                1int
            } else {
                0int
            },
    ensures
        grid_sum_upto(g, w, m) == if m <= x0 {
            0
        } else if m <= x1 {
            (m - x0) * (y1 - y0)
        } else {
            (x1 - x0) * (y1 - y0)
        },
    decreases m,
{
    if m > 0 {
        lemma_grid_block(g, w, n, x0, x1, y0, y1, (m - 1) as nat);
        let x = m - 1;
        if x0 <= x < x1 {
            assert forall|y: int| 0 <= y < n implies #[trigger] w(x, y, g[x][y]) == if y0 <= y
                < y1 {
                1int
            } else {
                0int
            } by {}
            lemma_column_block(g[x], x, w, y0, y1, n);
            assert((m - 1 - x0) * (y1 - y0) + (y1 - y0) == (m - x0) * (y1 - y0))
                by (nonlinear_arith);
        } else {
            assert forall|y: int| 0 <= y < n implies #[trigger] w(x, y, g[x][y]) == if n <= y
                < n {
                1int
            } else {
                0int
            } by {}
            lemma_column_block(g[x], x, w, n as int, n as int, n);
        }
        if m <= x0 {
        } else if m - 1 <= x0 {
            assert((m - x0) * (y1 - y0) == y1 - y0) by (nonlinear_arith)
                requires
                    m - x0 == 1,
            ;
        }
    }
}

/// The opening position on eight or more columns is a position of the game:
/// square, with sixteen pieces a side and nothing else on the board.
pub proof fn lemma_initial_valid(n: int)
    requires
        8 <= n <= 256,
    ensures
        valid_position(initial_grid(n), n),
{
    let g = initial_grid(n);
    let red = count_weight(RED);
    let blue = count_weight(BLUE);
    assert(is_square(g, n));
    assert forall|x: int, y: int| 0 <= x < n && 0 <= y < n implies #[trigger] red(x, y, g[x][y])
        == if 0 <= x < 4 && 0 <= y < 4 {
        1int
    } else {
        0int
    } by {}
    lemma_grid_block(g, red, n as nat, 0, 4, 0, 4, n as nat);
    assert forall|x: int, y: int| 0 <= x < n && 0 <= y < n implies #[trigger] blue(
        x,
        y,
        g[x][y],
    ) == if n - 4 <= x < n && n - 4 <= y < n {
        1int
    } else {
        0int
    } by {}
    lemma_grid_block(g, blue, n as nat, n - 4, n, n - 4, n, n as nat);
}

/// Nobody has won in the opening position.
pub proof fn lemma_initial_not_over(n: int)
    requires
        4 <= n <= 256,
    ensures
        winner(initial_grid(n)) is None,
{
    let g = initial_grid(n);
    if n == 4 {
        assert(g[0][0] == BLUE);
        assert(g[3][3] == RED);
    } else {
        assert(g[n - 1][n - 1] == BLUE);
        assert(g[0][0] == RED);
    }
}

/// A legal move keeps a position of the game a position of the game.
pub proof fn lemma_legal_move_keeps_valid(g: Grid, n: int, player: usize, a: Action)
    requires
        valid_position(g, n),
        is_legal(g, player, a),
    ensures
        valid_position(apply_move(g, a), n),
{
    lemma_legal_move_lands_on_empty(g, player, a);
    lemma_apply_move_square(g, n, a);
    lemma_move_keeps_counts(g, n, a, RED);
    lemma_move_keeps_counts(g, n, a, BLUE);
    let h = apply_move(g, a);
    assert forall|x: int, y: int| in_range(n, x, y) implies (#[trigger] h[x][y]) == EMPTY
        || h[x][y] == RED || h[x][y] == BLUE by {
        assert(g[x][y] == EMPTY || g[x][y] == RED || g[x][y] == BLUE);
        assert(g[a.from_x as int][a.from_y as int] == EMPTY || g[a.from_x as int][a.from_y as int]
            == RED || g[a.from_x as int][a.from_y as int] == BLUE);
    }
}

/// Every position that a line of legal moves leads to from a position of the
/// game is a position of the game.
pub proof fn lemma_line_keeps_valid(g: Grid, n: int, line: Seq<Action>)
    requires
        valid_position(g, n),
        is_line(g, line),
    ensures
        valid_position(play(g, line), n),
    decreases line.len(),
{
    if line.len() > 0 {
        lemma_line_keeps_valid(g, n, line.drop_last());
        let h = play(g, line.drop_last());
        let a = line.last();
        lemma_legal_move_keeps_valid(h, n, h[a.from_x as int][a.from_y as int], a);
    }
}

/// Piece count: in every position that play can reach from the opening position
/// on eight or more columns, each side has exactly sixteen pieces.
pub proof fn lemma_reachable_piece_counts(g: Grid, n: int)
    requires
        8 <= n <= 256,
        reachable(g, n),
    ensures
        count_cells(g, RED) == 16,
        count_cells(g, BLUE) == 16,
        valid_position(g, n),
{
    let line = choose|line: Seq<Action>| is_line(initial_grid(n), line) && #[trigger] play(
        initial_grid(n),
        line,
    ) == g;
    lemma_initial_valid(n);
    lemma_line_keeps_valid(initial_grid(n), n, line);
}

/// Moves land on empty cells and can be taken back: in every position that play
/// can reach, the destination of a legal move is empty before the move is made,
/// and taking the move back afterwards restores the position cell for cell.
pub proof fn lemma_reachable_moves_undo(g: Grid, n: int, player: usize, a: Action)
    requires
        8 <= n <= 256,
        reachable(g, n),
        is_legal(g, player, a),
    ensures
        g[a.to_x as int][a.to_y as int] == EMPTY,
        revert_move(apply_move(g, a), a) == g,
{
    lemma_reachable_piece_counts(g, n);
    lemma_legal_move_lands_on_empty(g, player, a);
    lemma_revert_restores(g, n, a);
}

} // verus!
