use vstd::prelude::*;
use crate::board::board::Board;
use crate::board::grid::Grid;
use crate::constants::{BLUE, RED};
use crate::evaluation::evaluation::{Evaluation, SCORE_INF};

verus! {

/// Scores a position by the pieces that each side has in the corner block it
/// heads for, ring by ring: ring 0 is the corner cell of the board, ring `k` the
/// cells of the block that lie `k` cells from the board's edge on one axis and
/// no more than `k` on the other. A piece in ring `k` is worth `score<k>`.
pub struct NaiveBonusEvaluation {
    pub score0: usize,
    pub score1: usize,
    pub score2: usize,
    pub score3: usize,
}

/// The cell that lies `dx` and `dy` cells inside the high corner of a board
/// with `n` columns, or inside its low corner.
pub open spec fn corner_cell(n: int, high: bool, dx: int, dy: int) -> (int, int) {
    if high {
        (n - 1 - dx, n - 1 - dy)
    } else {
        (dx, dy)
    }
}

/// `points` if the cell that lies `dx` and `dy` cells inside the corner holds
/// the code `code`, else nothing.
pub open spec fn worth(g: Grid, high: bool, code: usize, dx: int, dy: int, points: int) -> int {
    let cell = corner_cell(g.len() as int, high, dx, dy);
    if g[cell.0][cell.1] == code {
        points
    } else {
        0
    }
}

/// What the first `m` cells of each of the two arms of ring `k` are worth.
pub open spec fn arms_value(g: Grid, high: bool, code: usize, k: int, m: nat, points: int) -> int
    decreases m,
{
    if m == 0 {
        0
    } else {
        arms_value(g, high, code, k, (m - 1) as nat, points) + worth(
            g,
            high,
            code,
            m - 1,
            k,
            points,
        ) + worth(g, high, code, k, m - 1, points)
    }
}

/// What ring `k` of a corner is worth: its two arms and the cell where they meet.
pub open spec fn ring_value(g: Grid, high: bool, code: usize, k: int, points: int) -> int {
    arms_value(g, high, code, k, k as nat, points) + worth(g, high, code, k, k, points)
}

/// What the rings 0 to 3 of a corner are worth together.
pub open spec fn corner_value(g: Grid, high: bool, code: usize, e: NaiveBonusEvaluation) -> int {
    ring_value(g, high, code, 0, e.score0 as int) + ring_value(g, high, code, 1, e.score1 as int)
        + ring_value(g, high, code, 2, e.score2 as int) + ring_value(
        g,
        high,
        code,
        3,
        e.score3 as int,
    )
}

/// The arms of a ring are worth no more than two pieces a cell of one arm.
proof fn lemma_arms_bounds(g: Grid, high: bool, code: usize, k: int, m: nat, points: int)
    requires
        0 <= points,
    ensures
        0 <= arms_value(g, high, code, k, m, points) <= 2 * m * points,
    decreases m,
{
    if m > 0 {
        lemma_arms_bounds(g, high, code, k, (m - 1) as nat, points);
        assert(2 * (m - 1) * points + 2 * points == 2 * m * points) by (nonlinear_arith);
    } else {
        assert(2 * m * points == 0) by (nonlinear_arith)
            requires
                m == 0,
        ;
    }
}

/// A corner is worth no more than all of its sixteen cells taken.
proof fn lemma_corner_bounds(g: Grid, high: bool, code: usize, e: NaiveBonusEvaluation)
    ensures
        0 <= corner_value(g, high, code, e) <= e.score0 + 3 * e.score1 + 5 * e.score2 + 7
            * e.score3,
{
    lemma_arms_bounds(g, high, code, 0, 0, e.score0 as int);
    lemma_arms_bounds(g, high, code, 1, 1, e.score1 as int);
    lemma_arms_bounds(g, high, code, 2, 2, e.score2 as int);
    lemma_arms_bounds(g, high, code, 3, 3, e.score3 as int);
    assert(2 * 1nat * (e.score1 as int) == 2 * e.score1) by (nonlinear_arith);
    assert(2 * 2nat * (e.score2 as int) == 4 * e.score2) by (nonlinear_arith);
    assert(2 * 3nat * (e.score3 as int) == 6 * e.score3) by (nonlinear_arith);
}

impl Default for NaiveBonusEvaluation {
    /// The weights 20, 5, 2 and 1 for the rings 0 to 3.
    fn default() -> (e: Self)
        ensures
            e.score0 == 20,
            e.score1 == 5,
            e.score2 == 2,
            e.score3 == 1,
            e.valid(),
    {
        NaiveBonusEvaluation { score0: 20, score1: 5, score2: 2, score3: 1 }
    }
}

impl NaiveBonusEvaluation {
    /// Whether what a whole block is worth fits the machine word.
    pub open spec fn fits(&self) -> bool {
        self.spec_total_score() <= usize::MAX
    }

    /// What all sixteen cells of a corner block are worth together.
    pub open spec fn spec_total_score(&self) -> int {
        self.score0 + 3 * self.score1 + 5 * self.score2 + 7 * self.score3
    }

    /// What the `RED` pieces in the high block are worth.
    pub open spec fn spec_red_score(&self, g: Grid) -> int {
        corner_value(g, true, RED, *self)
    }

    /// What the `BLUE` pieces in the low block are worth.
    pub open spec fn spec_blue_score(&self, g: Grid) -> int {
        corner_value(g, false, BLUE, *self)
    }

    /// Builds the evaluator with the weights for the rings 0 to 3.
    pub fn new(scores: (usize, usize, usize, usize)) -> (e: NaiveBonusEvaluation)
        ensures
            e.score0 == scores.0,
            e.score1 == scores.1,
            e.score2 == scores.2,
            e.score3 == scores.3,
    {
        NaiveBonusEvaluation {
            score0: scores.0,
            score1: scores.1,
            score2: scores.2,
            score3: scores.3,
        }
    }

    /// Returns what all sixteen cells of a corner block are worth together.
    pub fn total_score(&self) -> (total: usize)
        requires
            self.fits(),
        ensures
            total == self.spec_total_score(),
    {
        self.score0 + 3 * self.score1 + 5 * self.score2 + 7 * self.score3
    }

    /// Returns `points` if the cell that lies `dx` and `dy` cells inside the
    /// corner holds `code`, else nothing.
    fn cell_worth(board: &Board, high: bool, code: usize, dx: usize, dy: usize, points: usize) -> (w:
        usize)
        requires
            board.wf(),
            dx < 4,
            dy < 4,
        ensures
            w == worth(board@, high, code, dx as int, dy as int, points as int),
    {
        let n = board.size;
        let held = if high {
            board.cell(n - 1 - dx, n - 1 - dy)
        } else {
            board.cell(dx, dy)
        };
        if held == code {
            points
        } else {
            0
        }
    }

    /// Adds up what the pieces of `code` in ring `k` of a corner are worth.
    fn ring(board: &Board, high: bool, code: usize, k: usize, points: usize) -> (value: usize)
        requires
            board.wf(),
            k < 4,
            (2 * k + 1) * points <= usize::MAX,
        ensures
            value == ring_value(board@, high, code, k as int, points as int),
    {
        let ghost g = board@;
        let mut value: usize = 0;
        let mut i: usize = 0;
        while i < k
            invariant
                board.wf(),
                g == board@,
                k < 4,
                i <= k,
                (2 * k + 1) * points <= usize::MAX,
                value == arms_value(g, high, code, k as int, i as nat, points as int),
            decreases k - i,
        {
            proof {
                lemma_arms_bounds(g, high, code, k as int, i as nat, points as int);
                assert(2 * i * points + 2 * points <= (2 * k + 1) * points) by (nonlinear_arith)
                    requires
                        i < k,
                        0 <= points,
                ;
            }
            value += Self::cell_worth(board, high, code, i, k, points);
            value += Self::cell_worth(board, high, code, k, i, points);
            i += 1;
        }
        proof {
            lemma_arms_bounds(g, high, code, k as int, k as nat, points as int);
            assert(2 * k * points + points == (2 * k + 1) * points) by (nonlinear_arith);
        }
        value += Self::cell_worth(board, high, code, k, k, points);
        value
    }

    /// Adds up what the pieces of `code` in a corner block are worth.
    fn corner(&self, board: &Board, high: bool, code: usize) -> (value: usize)
        requires
            self.fits(),
            board.wf(),
        ensures
            value == corner_value(board@, high, code, *self),
            value <= self.spec_total_score(),
    {
        proof {
            lemma_corner_bounds(board@, high, code, *self);
            lemma_arms_bounds(board@, high, code, 0, 0, self.score0 as int);
            lemma_arms_bounds(board@, high, code, 1, 1, self.score1 as int);
            lemma_arms_bounds(board@, high, code, 2, 2, self.score2 as int);
            lemma_arms_bounds(board@, high, code, 3, 3, self.score3 as int);
            assert((2 * 0 + 1) * self.score0 == self.score0) by (nonlinear_arith);
            assert((2 * 1 + 1) * self.score1 == 3 * self.score1) by (nonlinear_arith);
            assert((2 * 2 + 1) * self.score2 == 5 * self.score2) by (nonlinear_arith);
            assert((2 * 3 + 1) * self.score3 == 7 * self.score3) by (nonlinear_arith);
            assert(2 * 1nat * (self.score1 as int) == 2 * self.score1) by (nonlinear_arith);
            assert(2 * 2nat * (self.score2 as int) == 4 * self.score2) by (nonlinear_arith);
            assert(2 * 3nat * (self.score3 as int) == 6 * self.score3) by (nonlinear_arith);
        }
        let mut score: usize = 0;
        score += Self::ring(board, high, code, 0, self.score0);
        score += Self::ring(board, high, code, 1, self.score1);
        score += Self::ring(board, high, code, 2, self.score2);
        score += Self::ring(board, high, code, 3, self.score3);
        score
    }

    /// Adds up what the `BLUE` pieces in the low block are worth.
    pub fn get_blue_score(&self, board: &Board) -> (score: usize)
        requires
            self.fits(),
            board.wf(),
        ensures
            score == self.spec_blue_score(board@),
            score <= self.spec_total_score(),
    {
        self.corner(board, false, BLUE)
    }

    /// Adds up what the `RED` pieces in the high block are worth.
    pub fn get_red_score(&self, board: &Board) -> (score: usize)
        requires
            self.fits(),
            board.wf(),
        ensures
            score == self.spec_red_score(board@),
            score <= self.spec_total_score(),
    {
        self.corner(board, true, RED)
    }
}

impl Evaluation for NaiveBonusEvaluation {
    /// The weights are valid if a whole block is worth less than `SCORE_INF` and
    /// its worth fits the machine word.
    open spec fn valid(&self) -> bool {
        &&& self.spec_total_score() < SCORE_INF
        &&& self.fits()
    }

    /// The worth of the player's own pieces in the block they head for, less
    /// that of the other side's. Any player other than `RED` is scored as `BLUE`.
    open spec fn score(&self, g: Grid, player: usize) -> int {
        if player == RED {
            self.spec_red_score(g) - self.spec_blue_score(g)
        } else {
            self.spec_blue_score(g) - self.spec_red_score(g)
        }
    }

    proof fn lemma_score_in_range(&self, g: Grid, n: int, player: usize) {
        lemma_corner_bounds(g, true, RED, *self);
        lemma_corner_bounds(g, false, BLUE, *self);
    }

    /// Scores the position by the pieces in the corner blocks.
    fn evaluate(&self, board: &Board, next_player: usize) -> (score: i64) {
        let red_score = self.get_red_score(board) as i64;
        let blue_score = self.get_blue_score(board) as i64;
        if next_player == RED {
            red_score - blue_score
        } else {
            blue_score - red_score
        }
    }
}

} // verus!
