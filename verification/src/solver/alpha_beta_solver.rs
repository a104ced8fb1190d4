use vstd::prelude::*;
use crate::board::action::Action;
use crate::board::board::Board;
use crate::board::grid::Grid;
use crate::board::rules::{
    is_legal, legal_for, lemma_legal_move_lands_on_empty, lemma_revert_restores, lists_exactly,
};
use crate::constants::{BLUE, opponent, RED, spec_opponent};
use crate::evaluation::evaluation::{Evaluation, SCORE_INF};
use crate::evaluation::manhattan::ManhattanEvaluation;
use crate::solver::minimax::{
    clamp, is_best_move, lemma_best_move_exists, lemma_best_value_bounded,
    lemma_best_value_dominates, lemma_best_value_is, lemma_negamax_in_range, move_value,
    move_values, negamax, search_finds, search_value,
};
use crate::solver::solver::{has_move, Solver};

verus! {

/// A search that looks a fixed number of plies ahead, scores the positions at
/// that depth with an evaluator and backs the scores up by minimax, cutting off
/// the branches that cannot change the result.
pub struct AlphaBetaSolver<E: Evaluation> {
    pub evaluator: E,
    pub max_depth: usize,
}

impl Default for AlphaBetaSolver<ManhattanEvaluation> {
    /// The distance heuristic, six plies deep.
    fn default() -> (solver: Self)
        ensures
            solver.max_depth == 6,
    {
        AlphaBetaSolver { evaluator: ManhattanEvaluation, max_depth: 6 }
    }
}

impl<E: Evaluation> AlphaBetaSolver<E> {
    /// Builds a solver that scores with `eval` and looks `max_depth` plies ahead.
    pub fn new(eval: E, max_depth: usize) -> (solver: Self)
        ensures
            solver.evaluator == eval,
            solver.max_depth == max_depth,
    {
        Self { evaluator: eval, max_depth }
    }

    /// Searches `depth` plies ahead for `next_player` within the window from
    /// `alpha` to `beta`, and leaves the board as it found it.
    ///
    /// At depth 0 the result is the evaluator's score. Deeper, it is the minimax
    /// value of the position cut to the window. Where that lies above `alpha`,
    /// `best_move` is set to a legal move whose own value, cut to the window, is
    /// the result; else `best_move` is left as it was.
    ///
    /// Where the window is empty, `beta` being no more than `alpha`, the result
    /// is `beta` and `best_move` a legal move if the search cuts off, and `alpha`
    /// with `best_move` left as it was if not.
    #[verifier::rlimit(40)]
    pub fn ab_search(
        &self,
        board: &mut Board,
        next_player: usize,
        depth: usize,
        alpha: i64,
        beta: i64,
        best_move: &mut Action,
    ) -> (value: i64)
        requires
            self.evaluator.valid(),
            old(board).wf(),
            next_player == RED || next_player == BLUE,
            -SCORE_INF <= alpha <= SCORE_INF,
            -SCORE_INF <= beta <= SCORE_INF,
        ensures
            final(board).wf(),
            final(board).size == old(board).size,
            final(board)@ == old(board)@,
            -SCORE_INF <= value <= SCORE_INF,
            value == search_value(
                &self.evaluator,
                old(board)@,
                next_player,
                depth as nat,
                alpha as int,
                beta as int,
            ),
            depth == 0 ==> value == self.evaluator.score(old(board)@, next_player),
            search_finds(
                &self.evaluator,
                old(board)@,
                next_player,
                depth as nat,
                alpha as int,
                beta as int,
            ) ==> {
                &&& is_legal(old(board)@, next_player, *final(best_move))
                &&& alpha < beta ==> value == clamp(
                    move_value(
                        &self.evaluator,
                        old(board)@,
                        next_player,
                        depth as nat,
                        *final(best_move),
                    ),
                    alpha as int,
                    beta as int,
                )
                &&& alpha >= beta && depth == 1 ==> move_value(
                    &self.evaluator,
                    old(board)@,
                    next_player,
                    depth as nat,
                    *final(best_move),
                ) >= beta
            },
            !search_finds(
                &self.evaluator,
                old(board)@,
                next_player,
                depth as nat,
                alpha as int,
                beta as int,
            ) ==> *final(best_move) == *old(best_move),
        decreases depth,
    {
        let ghost g = board@;
        let ghost e = &self.evaluator;
        let ghost n = board.size as int;
        if depth == 0 {
            proof {
                self.evaluator.lemma_score_in_range(g, n, next_player);
            }
            let v = self.evaluator.evaluate(board, next_player);
            return v;
        }
        let ghost d = depth as nat;
        let ghost f = move_values(e, g, next_player, d);
        let ghost first = *best_move;
        let mut low = alpha;
        let actions = board.generate_actions_all(next_player);
        let other = opponent(next_player);
        let mut i: usize = 0;
        while i < actions.len()
            invariant
                self.evaluator.valid(),
                e == &self.evaluator,
                board.wf(),
                board@ == g,
                board.size == n,
                g == old(board)@,
                n == old(board).size,
                first == *old(best_move),
                next_player == RED || next_player == BLUE,
                other == spec_opponent(next_player),
                depth > 0,
                d == depth,
                f == move_values(e, g, next_player, d),
                -SCORE_INF <= alpha <= low <= SCORE_INF,
                -SCORE_INF <= beta <= SCORE_INF,
                alpha < beta ==> low < beta,
                alpha >= beta ==> low == alpha && (i == 0 || depth == 1),
                lists_exactly(actions@, legal_for(g, next_player, false)),
                i <= actions@.len(),
                alpha < beta ==> forall|j: int| 0 <= j < i ==> f(#[trigger] actions@[j]) <= low,
                alpha >= beta ==> forall|j: int| 0 <= j < i ==> f(#[trigger] actions@[j]) < beta,
                low > alpha ==> is_legal(g, next_player, *best_move) && f(*best_move) == low,
                low == alpha ==> *best_move == first,
            decreases actions@.len() - i,
        {
            let action = actions[i];
            proof {
                assert(actions@.contains(action));
                assert(legal_for(g, next_player, false)(action));
                lemma_legal_move_lands_on_empty(g, next_player, action);
                lemma_revert_restores(g, n, action);
            }
            board.perform_action(action);
            let mut ph = Action::from_usize(0, 0, 0, 0);
            let reply = self.ab_search(board, other, depth - 1, -beta, -low, &mut ph);
            let value = -reply;
            board.undo_action(action);
            proof {
                assert(board@ == g);
                assert(f(action) == move_value(e, g, next_player, d, action));
                if depth == 1 {
                    assert(value == f(action));
                } else if low < beta {
                    assert(value == clamp(f(action), low as int, beta as int));
                } else {
                    assert(value == low || value == beta);
                }
            }
            if value >= beta {
                *best_move = action;
                proof {
                    if alpha < beta || depth == 1 {
                        lemma_best_value_dominates(g, next_player, f, action);
                    }
                    assert(has_move(g, next_player));
                }
                return beta;
            }
            if value > low {
                *best_move = action;
                low = value;
            }
            i += 1;
        }
        proof {
            assert forall|b: Action| #[trigger] is_legal(g, next_player, b) implies f(b) <= (
            if alpha < beta {
                low as int
            } else {
                beta - 1
            }) by {
                assert(legal_for(g, next_player, false)(b));
                assert(actions@.contains(b));
            }
            if alpha < beta {
                if low > alpha {
                    assert(is_best_move(g, next_player, f, *best_move));
                    lemma_best_value_is(g, next_player, f, *best_move);
                } else {
                    lemma_best_value_bounded(g, next_player, f, low as int);
                }
            } else if has_move(g, next_player) {
                let some = choose|a: Action| is_legal(g, next_player, a);
                assert(legal_for(g, next_player, false)(some));
                assert(actions@.contains(some));
                assert(depth == 1);
                lemma_best_move_exists(g, next_player, f);
            }
        }
        low
    }
}

impl<E: Evaluation> Solver for AlphaBetaSolver<E> {
    /// The solver needs an evaluator with valid parameters.
    open spec fn ready(&self, g: Grid, player: usize) -> bool {
        self.evaluator.valid()
    }

    /// Picks a move whose value, `max_depth` plies deep, is the minimax value of
    /// the position.
    fn solve(&self, board: &Board, next_player: usize) -> (action: Action)
        ensures
            self.max_depth > 0 ==> move_value(
                &self.evaluator,
                board@,
                next_player,
                self.max_depth as nat,
                action,
            ) == negamax(&self.evaluator, board@, next_player, self.max_depth as nat),
    {
        let all_actions = board.generate_actions_all(next_player);
        proof {
            assert(has_move(board@, next_player));
            let some = choose|a: Action| is_legal(board@, next_player, a);
            assert(legal_for(board@, next_player, false)(some));
            assert(all_actions@.contains(some));
            assert(all_actions@.contains(all_actions@[0]));
            assert(legal_for(board@, next_player, false)(all_actions@[0]));
        }
        let mut action = all_actions[0];
        let mut b = board.clone();
        let value = self.ab_search(
            &mut b,
            next_player,
            self.max_depth,
            -SCORE_INF,
            SCORE_INF,
            &mut action,
        );
        proof {
            if self.max_depth > 0 {
                let d = self.max_depth as nat;
                lemma_negamax_in_range(&self.evaluator, board@, board.size as int, next_player, d);
                lemma_best_value_dominates(
                    board@,
                    next_player,
                    move_values(&self.evaluator, board@, next_player, d),
                    action,
                );
                assert(-SCORE_INF <= move_value(&self.evaluator, board@, next_player, d, action));
            }
        }
        action
    }
}

} // verus!
