//! What the solvers return where a single move decides the game.

use vstd::prelude::*;
use crate::board::action::Action;
use crate::board::grid::{Grid, is_square};
use crate::board::rules::{apply_move, is_legal, lemma_apply_move_square, winner, wins};
use crate::constants::{BLUE, RED, spec_opponent};
use crate::evaluation::evaluation::SCORE_INF;
use crate::evaluation::manhattan::{lemma_score_decided, ManhattanEvaluation};
use crate::solver::brute_force_search_solver::can_win_within;
use crate::solver::minimax::{lemma_best_value_dominates, move_value, move_values, negamax};

verus! {

/// The only completing move, found by a forced-win search of one move: where
/// exactly one legal move of `player` wins at once, a search that returns a
/// move if and only if `player` can win within one move, and then a legal move
/// that leaves a won position, returns that move.
pub proof fn lemma_forced_win_in_one(g: Grid, player: usize, a: Action, found: Option<Action>)
    requires
        !wins(g, player),
        is_legal(g, player, a),
        wins(apply_move(g, a), player),
        forall|b: Action| #[trigger]
            is_legal(g, player, b) && wins(apply_move(g, b), player) ==> b == a,
        found is Some <==> can_win_within(g, player, 1),
        found matches Some(x) ==> is_legal(g, player, x) && can_win_within(
            apply_move(g, x),
            player,
            0,
        ),
    ensures
        found == Some(a),
{
    assert(can_win_within(apply_move(g, a), player, 0));
    assert(can_win_within(g, player, 1));
}

/// The only completing move, found by a minimax search of one ply with the
/// distance heuristic: where exactly one legal move of `player` leaves a
/// position that `player` has won, every legal move whose value is the minimax
/// value of the position is that move.
pub proof fn lemma_minimax_in_one(g: Grid, n: int, player: usize, a: Action, x: Action)
    requires
        is_square(g, n),
        4 <= n <= 256,
        player == RED || player == BLUE,
        is_legal(g, player, a),
        winner(apply_move(g, a)) == Some(player),
        forall|b: Action| #[trigger]
            is_legal(g, player, b) && winner(apply_move(g, b)) == Some(player) ==> b == a,
        is_legal(g, player, x),
        move_value(&ManhattanEvaluation, g, player, 1, x) == negamax(
            &ManhattanEvaluation,
            g,
            player,
            1,
        ),
    ensures
        x == a,
{
    let e = &ManhattanEvaluation;
    let other = spec_opponent(player);
    lemma_apply_move_square(g, n, a);
    lemma_apply_move_square(g, n, x);
    lemma_score_decided(apply_move(g, a), n, other);
    lemma_score_decided(apply_move(g, x), n, other);
    lemma_best_value_dominates(g, player, move_values(e, g, player, 1), a);
    assert(move_value(e, g, player, 1, a) == -negamax(e, apply_move(g, a), other, 0));
    assert(move_value(e, g, player, 1, x) == -negamax(e, apply_move(g, x), other, 0));
    assert(negamax(e, apply_move(g, a), other, 0) == -SCORE_INF);
    assert(negamax(e, apply_move(g, x), other, 0) == -SCORE_INF);
    assert(winner(apply_move(g, x)) == Some(player));
}

} // verus!
