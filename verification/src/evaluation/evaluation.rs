use vstd::prelude::*;
use crate::board::board::Board;
use crate::board::grid::{Grid, is_square};

verus! {

/// The score that stands for a won position; its negation stands for a lost one.
/// Every score lies between the two.
pub const SCORE_INF: i64 = 9223372036854775807;

/// A heuristic that scores a position from the point of view of one player:
/// the higher, the better for that player.
pub trait Evaluation {
    /// Whether the evaluator's parameters keep every score in range.
    spec fn valid(&self) -> bool;

    /// The score of the position `g` for `player`.
    spec fn score(&self, g: Grid, player: usize) -> int;

    /// Every score of a square position lies between `-SCORE_INF` and `SCORE_INF`.
    proof fn lemma_score_in_range(&self, g: Grid, n: int, player: usize)
        requires
            self.valid(),
            is_square(g, n),
            4 <= n <= 256,
        ensures
            -SCORE_INF <= self.score(g, player) <= SCORE_INF,
    ;

    /// Scores the position for `next_player`.
    fn evaluate(&self, board: &Board, next_player: usize) -> (score: i64)
        requires
            self.valid(),
            board.wf(),
        ensures
            score == self.score(board@, next_player),
    ;
}

} // verus!
