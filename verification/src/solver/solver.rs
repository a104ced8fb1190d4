use vstd::prelude::*;
use crate::board::action::Action;
use crate::board::board::Board;
use crate::board::grid::Grid;
use crate::board::rules::is_legal;
use crate::constants::{BLUE, RED};

verus! {

/// Whether `player` has a legal move in the position `g`.
pub open spec fn has_move(g: Grid, player: usize) -> bool {
    exists|a: Action| is_legal(g, player, a)
}

/// A strategy that picks a move for the player to move, who must have one.
pub trait Solver {
    /// What the strategy needs of the position beyond a well-formed board.
    spec fn ready(&self, g: Grid, player: usize) -> bool;

    /// Picks a legal move for `next_player`.
    fn solve(&self, board: &Board, next_player: usize) -> (action: Action)
        requires
            board.wf(),
            next_player == RED || next_player == BLUE,
            has_move(board@, next_player),
            self.ready(board@, next_player),
        ensures
            is_legal(board@, next_player, action),
    ;
}

/// A strategy that looks for a move within some bound and may find none.
pub trait MaybeSolver {
    /// What the strategy needs of the position beyond a well-formed board.
    spec fn ready(&self, g: Grid, player: usize) -> bool;

    /// Looks for a move for `next_player`; `None` says that none was found
    /// within the bound, not that none exists.
    fn solve(&self, board: &Board, next_player: usize) -> (found: Option<Action>)
        requires
            board.wf(),
            next_player == RED || next_player == BLUE,
            self.ready(board@, next_player),
    ;
}

} // verus!
