use vstd::prelude::*;
use crate::board::action::Action;
use crate::board::board::Board;
use crate::board::rules::{apply_move, codes_ok, is_legal, legal_for, valid_position, winner};
use crate::constants::{BLUE, RED};
use crate::error::EngineError;
use crate::evaluation::manhattan::ManhattanEvaluation;
use crate::solver::brute_force_search_solver::{can_win_within, extract};
use crate::solver::minimax::{move_value, negamax};
use crate::solver::mix_solver::{forced_win, FORCED_WIN_DEPTH, MINIMAX_DEPTH, MixSolver};
use crate::solver::solver::{has_move, Solver};

verus! {

/// Whether a move can be asked for: the board holds a position of the game, the
/// player is one of the two sides, nobody has won, and the player has a move.
pub open spec fn can_solve(board: Board, next_player: usize) -> bool {
    &&& board.wf()
    &&& valid_position(board@, board.size as int)
    &&& (next_player == RED || next_player == BLUE)
    &&& winner(board@) is None
    &&& has_move(board@, next_player)
}

/// What is wrong with a request for a move, if anything: the board, by its
/// validation; else a player that is neither side; else a position that is won
/// already or in which the player has no move.
pub open spec fn request_check(board: Board, next_player: usize) -> Result<(), EngineError> {
    match board.spec_validate() {
        Err(e) => Err(e),
        Ok(_) => if !(next_player == RED || next_player == BLUE) {
            Err(EngineError::BadPlayer)
        } else if winner(board@) is Some || !has_move(board@, next_player) {
            Err(EngineError::NoLegalMove)
        } else {
            Ok(())
        },
    }
}

/// Checks that a move can be asked for.
///
/// A board that is no position of the game is turned down with the error that
/// its validation gives; after that, a player that is neither side with
/// `BadPlayer`; after that, a position that is won already, or in which the
/// player has no move, with `NoLegalMove`.
pub fn check_request(board: &Board, next_player: usize) -> (checked: Result<(), EngineError>)
    ensures
        checked == request_check(*board, next_player),
        checked is Ok <==> can_solve(*board, next_player),
{
    match board.validate() {
        Err(e) => {
            return Err(e);
        },
        Ok(_) => {},
    }
    if next_player != RED && next_player != BLUE {
        return Err(EngineError::BadPlayer);
    }
    if board.is_game_over().is_some() {
        return Err(EngineError::NoLegalMove);
    }
    let moves = board.generate_actions_all(next_player);
    if moves.len() == 0 {
        proof {
            assert forall|a: Action| !is_legal(board@, next_player, a) by {
                if is_legal(board@, next_player, a) {
                    assert(legal_for(board@, next_player, false)(a));
                    assert(moves@.contains(a));
                }
            }
        }
        return Err(EngineError::NoLegalMove);
    }
    proof {
        assert(moves@.contains(moves@[0]));
        assert(legal_for(board@, next_player, false)(moves@[0]));
        assert(is_legal(board@, next_player, moves@[0]));
    }
    Ok(())
}

/// Checks the board and the player as `check_request` does, and picks a move
/// for `next_player` by the mixed strategy.
///
/// Where the two sides cannot meet any more and `next_player`, moving alone on a
/// board cleared of the other side's pieces, can win within four moves, the
/// move is the first of such a line. Otherwise its value, five plies deep by the
/// distance heuristic, is the minimax value of the position.
pub fn chess1_solve(board: &Board, next_player: usize) -> (picked: Result<Action, EngineError>)
    ensures
        picked is Ok <==> can_solve(*board, next_player),
        picked matches Err(e) ==> request_check(*board, next_player) == Err::<(), EngineError>(e),
        picked matches Ok(action) ==> {
            &&& is_legal(board@, next_player, action)
            &&& forced_win(board@, next_player) ==> is_legal(
                extract(board@, next_player),
                next_player,
                action,
            ) && can_win_within(
                apply_move(extract(board@, next_player), action),
                next_player,
                (FORCED_WIN_DEPTH - 1) as nat,
            )
            &&& !forced_win(board@, next_player) ==> move_value(
                &ManhattanEvaluation,
                board@,
                next_player,
                MINIMAX_DEPTH as nat,
                action,
            ) == negamax(&ManhattanEvaluation, board@, next_player, MINIMAX_DEPTH as nat)
        },
{
    match check_request(board, next_player) {
        Err(e) => Err(e),
        Ok(_) => {
            let solver = MixSolver;
            Ok(solver.solve(board, next_player))
        },
    }
}

} // verus!
