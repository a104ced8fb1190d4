use vstd::prelude::*;
use crate::board::action::Action;
use crate::board::board::Board;
use crate::board::grid::{Grid, in_range, is_square};
use crate::board::rules::{
    adjacent, apply_move, clear_of_blue, codes_ok, hop, hops, is_jump_move, is_legal, is_step_move,
    separable, wins,
};
use crate::constants::{BLUE, EMPTY, RED};
use crate::evaluation::manhattan::ManhattanEvaluation;
use crate::solver::alpha_beta_solver::AlphaBetaSolver;
use crate::solver::brute_force_search_solver::{BruteForceSearchSolver, can_win_within, extract};
use crate::solver::minimax::{move_value, negamax};
use crate::solver::solver::{MaybeSolver, Solver};

verus! {

/// Number of moves that the forced-win search looks ahead.
pub const FORCED_WIN_DEPTH: usize = 4;

/// Number of plies that the minimax search looks ahead.
pub const MINIMAX_DEPTH: usize = 5;

/// Picks the forced-win search where the two sides cannot meet any more and it
/// finds a win, and the minimax search with the distance heuristic otherwise.
pub struct MixSolver;

/// Whether the forced-win search decides the move: the two sides cannot meet
/// any more, and `player`, moving alone on a board cleared of the other side's
/// pieces, can win within `FORCED_WIN_DEPTH` moves.
pub open spec fn forced_win(g: Grid, player: usize) -> bool {
    separable(g) && can_win_within(extract(g, player), player, FORCED_WIN_DEPTH as nat)
}

impl Default for MixSolver {
    fn default() -> Self {
        MixSolver
    }
}

/// In a position in which the two sides cannot meet, no piece of one side
/// stands next to a piece of the other.
pub proof fn lemma_separable_sides_apart(g: Grid, x1: int, y1: int, x2: int, y2: int)
    requires
        separable(g),
        in_range(g.len() as int, x1, y1),
        in_range(g.len() as int, x2, y2),
        adjacent(x1, y1, x2, y2),
        g[x1][y1] == RED || g[x1][y1] == BLUE,
        g[x2][y2] == RED || g[x2][y2] == BLUE,
    ensures
        g[x1][y1] == g[x2][y2],
{
    if g[x1][y1] == RED && g[x2][y2] == BLUE {
        assert(clear_of_blue(g, x1, y1));
    } else if g[x1][y1] == BLUE && g[x2][y2] == RED {
        assert(clear_of_blue(g, x2, y2));
    }
}

/// In a position in which the two sides cannot meet, a chain of hops that a
/// piece of `player` can make with the other side's pieces taken off the board
/// is a chain of hops on the board as it is.
pub proof fn lemma_own_hops_are_hops(
    g: Grid,
    n: int,
    player: usize,
    px: int,
    py: int,
    qx: int,
    qy: int,
    steps: nat,
)
    requires
        is_square(g, n),
        codes_ok(g),
        separable(g),
        player == RED || player == BLUE,
        hops(extract(g, player), px, py, qx, qy, steps),
    ensures
        hops(g, px, py, qx, qy, steps),
    decreases steps,
{
    let own = extract(g, player);
    assert(own.len() == g.len());
    if hop(own, px, py, qx, qy) {
        lemma_own_hop_is_hop(g, n, player, px, py, qx, qy);
    } else {
        let (rx, ry) = choose|rx: int, ry: int|
            hops(own, px, py, rx, ry, (steps - 1) as nat) && #[trigger] hop(own, rx, ry, qx, qy);
        lemma_own_hops_are_hops(g, n, player, px, py, rx, ry, (steps - 1) as nat);
        lemma_own_hop_is_hop(g, n, player, rx, ry, qx, qy);
    }
}

/// In a position in which the two sides cannot meet, a hop over a piece of
/// `player` onto a cell that holds none of its pieces is a hop on the board as
/// it is: the landing cell, next to that piece, holds no piece of the other side.
pub proof fn lemma_own_hop_is_hop(g: Grid, n: int, player: usize, px: int, py: int, qx: int, qy: int)
    requires
        is_square(g, n),
        codes_ok(g),
        separable(g),
        player == RED || player == BLUE,
        hop(extract(g, player), px, py, qx, qy),
    ensures
        hop(g, px, py, qx, qy),
{
    let own = extract(g, player);
    let mx = (px + qx) / 2;
    let my = (py + qy) / 2;
    assert(own[mx][my] != EMPTY);
    assert(g[mx][my] == player);
    assert(own[qx][qy] == EMPTY);
    assert(g[qx][qy] == EMPTY || g[qx][qy] == RED || g[qx][qy] == BLUE);
    if g[qx][qy] != EMPTY {
        lemma_separable_sides_apart(g, mx, my, qx, qy);
    }
}

/// In a position in which the two sides cannot meet, a move that is legal for
/// `player` with the other side's pieces taken off the board is legal on the
/// board as it is.
pub proof fn lemma_own_move_is_legal(g: Grid, n: int, player: usize, a: Action)
    requires
        is_square(g, n),
        codes_ok(g),
        separable(g),
        player == RED || player == BLUE,
        is_legal(extract(g, player), player, a),
    ensures
        is_legal(g, player, a),
{
    let own = extract(g, player);
    assert(own.len() == g.len());
    let fx = a.from_x as int;
    let fy = a.from_y as int;
    let tx = a.to_x as int;
    let ty = a.to_y as int;
    assert(own[fx][fy] == player);
    assert(g[fx][fy] == player);
    if is_step_move(own, a) {
        assert(own[tx][ty] == EMPTY);
        assert(g[tx][ty] == EMPTY || g[tx][ty] == RED || g[tx][ty] == BLUE);
        if g[tx][ty] != EMPTY {
            lemma_separable_sides_apart(g, fx, fy, tx, ty);
        }
        assert(is_step_move(g, a));
    } else {
        let steps = choose|steps: nat| #[trigger] hops(own, fx, fy, tx, ty, steps);
        lemma_own_hops_are_hops(g, n, player, fx, fy, tx, ty, steps);
        assert(is_jump_move(g, a));
    }
}

impl Solver for MixSolver {
    /// The solver needs a position whose cells hold the three cell codes only
    /// and that the player to move has not won yet.
    open spec fn ready(&self, g: Grid, player: usize) -> bool {
        codes_ok(g) && !wins(g, player)
    }

    /// Picks a move for `next_player`.
    ///
    /// Where the two sides cannot meet any more and `next_player`, moving alone
    /// on a board cleared of the other side's pieces, can win within four moves,
    /// the move is the first of such a line. Otherwise its value, five plies
    /// deep by the distance heuristic, is the minimax value of the position.
    fn solve(&self, board: &Board, next_player: usize) -> (action: Action)
        ensures
            forced_win(board@, next_player) ==> is_legal(
                extract(board@, next_player),
                next_player,
                action,
            ) && can_win_within(
                apply_move(extract(board@, next_player), action),
                next_player,
                (FORCED_WIN_DEPTH - 1) as nat,
            ),
            !forced_win(board@, next_player) ==> move_value(
                &ManhattanEvaluation,
                board@,
                next_player,
                MINIMAX_DEPTH as nat,
                action,
            ) == negamax(&ManhattanEvaluation, board@, next_player, MINIMAX_DEPTH as nat),
    {
        if board.is_separable() {
            let bf_solver = BruteForceSearchSolver::new(FORCED_WIN_DEPTH);
            let result = bf_solver.solve(board, next_player);
            if let Some(x) = result {
                proof {
                    lemma_own_move_is_legal(board@, board.size as int, next_player, x);
                }
                return x;
            }
        }
        let ab_solver = AlphaBetaSolver::new(ManhattanEvaluation, MINIMAX_DEPTH);
        ab_solver.solve(board, next_player)
    }
}

} // verus!
