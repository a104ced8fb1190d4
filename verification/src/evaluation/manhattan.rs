use vstd::prelude::*;
use crate::board::board::Board;
use crate::board::grid::{
    column_sum, Grid, grid_sum, grid_sum_upto, is_square, lemma_grid_sum_bounds, Weight,
};
use crate::board::rules::winner;
use crate::constants::{BLUE, RED};
use crate::evaluation::evaluation::{Evaluation, SCORE_INF};

verus! {

/// Scores a position by how far each side still has to go, with a bonus for
/// pieces on the rim of the corner block they head for.
pub struct ManhattanEvaluation;

/// The four sums over the cells of a board that the distance heuristic uses.
#[derive(Clone, Copy)]
enum Measure {
    /// Steps that `RED` pieces outside the high block are short of it.
    RedSteps,
    /// Steps that `BLUE` pieces outside the low block are short of it.
    BlueSteps,
    /// Twice the distance of `RED` pieces from the middle of the high block.
    RedTwice,
    /// Twice the distance of `BLUE` pieces from the middle of the low block.
    BlueTwice,
}

/// The absolute value of `i`.
pub open spec fn abs(i: int) -> int {
    if i < 0 {
        -i
    } else {
        i
    }
}

/// For a `RED` piece outside the high block of a board with `n` columns: the
/// number of steps, along both axes, that it is short of the block.
pub open spec fn red_steps_weight(n: int) -> Weight<usize> {
    |x: int, y: int, v: usize|
        if v == RED && !(x >= n - 4 && y >= n - 4) {
            (if x < n - 4 {
                n - 4 - x
            } else {
                0
            }) + (if y < n - 4 {
                n - 4 - y
            } else {
                0
            })
        } else {
            0
        }
}

/// For a `BLUE` piece outside the low block: the number of steps, along both
/// axes, that it is short of the block.
pub open spec fn blue_steps_weight() -> Weight<usize> {
    |x: int, y: int, v: usize|
        if v == BLUE && !(x < 4 && y < 4) {
            (if x >= 4 {
                x - 3
            } else {
                0
            }) + (if y >= 4 {
                y - 3
            } else {
                0
            })
        } else {
            0
        }
}

/// For a `RED` piece: twice its distance, along both axes, from the middle of
/// the high block, which lies two and a half cells inside the board's edge.
pub open spec fn red_twice_weight(n: int) -> Weight<usize> {
    |x: int, y: int, v: usize|
        if v == RED {
            abs(2 * (n - y) - 5) + abs(2 * (n - x) - 5)
        } else {
            0
        }
}

/// For a `BLUE` piece: twice its distance, along both axes, from the middle of
/// the low block, which lies at one and a half on both axes.
pub open spec fn blue_twice_weight() -> Weight<usize> {
    |x: int, y: int, v: usize|
        if v == BLUE {
            abs(2 * x - 3) + abs(2 * y - 3)
        } else {
            0
        }
}

/// Total number of steps that `RED` pieces outside the high block are short of it.
pub open spec fn spec_dis_red(g: Grid) -> int {
    grid_sum(g, red_steps_weight(g.len() as int))
}

/// Total number of steps that `BLUE` pieces outside the low block are short of it.
pub open spec fn spec_dis_blue(g: Grid) -> int {
    grid_sum(g, blue_steps_weight())
}

/// Total distance of the `RED` pieces from the middle of the high block,
/// rounded down.
pub open spec fn spec_dis_red2(g: Grid) -> int {
    grid_sum(g, red_twice_weight(g.len() as int)) / 2
}

/// Total distance of the `BLUE` pieces from the middle of the low block,
/// rounded down.
pub open spec fn spec_dis_blue2(g: Grid) -> int {
    grid_sum(g, blue_twice_weight()) / 2
}

/// One if the cell at `(x, y)` holds the code `c`, else nothing.
pub open spec fn holds(g: Grid, x: int, y: int, c: usize) -> int {
    if g[x][y] == c {
        1
    } else {
        0
    }
}

/// Bonus for `RED` pieces on the rim of the high block: three for the corner
/// cell of the board, two for each other corner of the block, one for each
/// other cell of its rim.
pub open spec fn spec_bonus_red(g: Grid) -> int {
    let n = g.len() as int;
    3 * holds(g, n - 1, n - 1, RED) + 2 * (holds(g, n - 4, n - 1, RED) + holds(
        g,
        n - 4,
        n - 4,
        RED,
    ) + holds(g, n - 1, n - 4, RED)) + holds(g, n - 2, n - 1, RED) + holds(g, n - 3, n - 1, RED)
        + holds(g, n - 1, n - 2, RED) + holds(g, n - 1, n - 3, RED) + holds(g, n - 4, n - 2, RED)
        + holds(g, n - 4, n - 3, RED) + holds(g, n - 2, n - 4, RED) + holds(g, n - 3, n - 4, RED)
}

/// Bonus for `BLUE` pieces on the rim of the low block: three for the corner
/// cell of the board, two for each other corner of the block, one for each
/// other cell of its rim.
pub open spec fn spec_bonus_blue(g: Grid) -> int {
    3 * holds(g, 0, 0, BLUE) + 2 * (holds(g, 0, 3, BLUE) + holds(g, 3, 3, BLUE) + holds(
        g,
        3,
        0,
        BLUE,
    )) + holds(g, 1, 0, BLUE) + holds(g, 2, 0, BLUE) + holds(g, 0, 1, BLUE) + holds(g, 0, 2, BLUE)
        + holds(g, 3, 1, BLUE) + holds(g, 3, 2, BLUE) + holds(g, 1, 3, BLUE) + holds(g, 2, 3, BLUE)
}

/// The score of the distance heuristic: `SCORE_INF` if `player` has won,
/// `-SCORE_INF` if the other side has; else the other side's distance less the
/// player's own, plus the player's bonus less the other side's. Any player
/// other than `RED` is scored as `BLUE`.
pub open spec fn manhattan_score(g: Grid, player: usize) -> int {
    match winner(g) {
        Some(side) => if side == player {
            SCORE_INF as int
        } else {
            -SCORE_INF
        },
        None => if player == RED {
            spec_dis_blue2(g) - spec_dis_red2(g) + spec_bonus_red(g) - spec_bonus_blue(g)
        } else {
            spec_dis_red2(g) - spec_dis_blue2(g) + spec_bonus_blue(g) - spec_bonus_red(g)
        },
    }
}

impl Measure {
    /// The weight that the measure gives to a cell of a board with `n` columns.
    spec fn weight(self, n: int) -> Weight<usize> {
        match self {
            Measure::RedSteps => red_steps_weight(n),
            Measure::BlueSteps => blue_steps_weight(),
            Measure::RedTwice => red_twice_weight(n),
            Measure::BlueTwice => blue_twice_weight(),
        }
    }

    /// Computes the weight of the cell at `(x, y)` that holds the code `v`.
    fn of_cell(self, n: usize, x: usize, y: usize, v: usize) -> (w: usize)
        requires
            4 <= n <= 256,
            x < n,
            y < n,
        ensures
            w == self.weight(n as int)(x as int, y as int, v),
            w <= 1024,
    {
        match self {
            Measure::RedSteps => {
                if v == RED && !(x >= n - 4 && y >= n - 4) {
                    let along_x = if x < n - 4 {
                        n - 4 - x
                    } else {
                        0
                    };
                    let along_y = if y < n - 4 {
                        n - 4 - y
                    } else {
                        0
                    };
                    along_x + along_y
                } else {
                    0
                }
            },
            Measure::BlueSteps => {
                if v == BLUE && !(x < 4 && y < 4) {
                    let along_x = if x >= 4 {
                        x - 3
                    } else {
                        0
                    };
                    let along_y = if y >= 4 {
                        y - 3
                    } else {
                        0
                    };
                    along_x + along_y
                } else {
                    0
                }
            },
            Measure::RedTwice => {
                if v == RED {
                    let along_y = if 2 * (n - y) >= 5 {
                        2 * (n - y) - 5
                    } else {
                        5 - 2 * (n - y)
                    };
                    let along_x = if 2 * (n - x) >= 5 {
                        2 * (n - x) - 5
                    } else {
                        5 - 2 * (n - x)
                    };
                    along_y + along_x
                } else {
                    0
                }
            },
            Measure::BlueTwice => {
                if v == BLUE {
                    let along_x = if 2 * x >= 3 {
                        2 * x - 3
                    } else {
                        3 - 2 * x
                    };
                    let along_y = if 2 * y >= 3 {
                        2 * y - 3
                    } else {
                        3 - 2 * y
                    };
                    along_x + along_y
                } else {
                    0
                }
            },
        }
    }

    /// Sums the measure over all cells of the board.
    fn total(self, board: &Board) -> (sum: usize)
        requires
            board.wf(),
        ensures
            sum == grid_sum(board@, self.weight(board.size as int)),
            sum <= 256 * 256 * 1024,
    {
        let n = board.size;
        let ghost g = board@;
        let ghost w = self.weight(n as int);
        let mut sum: usize = 0;
        let mut x: usize = 0;
        while x < n
            invariant
                board.wf(),
                n == board.size,
                g == board@,
                w == self.weight(n as int),
                x <= n,
                sum == grid_sum_upto(g, w, x as nat),
                sum <= x * 256 * 1024,
            decreases n - x,
        {
            let ghost base = sum;
            let mut y: usize = 0;
            while y < n
                invariant
                    board.wf(),
                    n == board.size,
                    g == board@,
                    w == self.weight(n as int),
                    x < n,
                    y <= n,
                    base <= x * 256 * 1024,
                    base == grid_sum_upto(g, w, x as nat),
                    sum == base + column_sum(g[x as int], x as int, w, y as nat),
                    sum <= base + y * 1024,
                decreases n - y,
            {
                let v = board.cell(x, y);
                let cell_weight = self.of_cell(n, x, y, v);
                sum += cell_weight;
                y += 1;
            }
            x += 1;
        }
        sum
    }
}

impl ManhattanEvaluation {
    /// Adds up, over the `RED` pieces outside the high block, the steps that
    /// each is short of the block along both axes.
    pub fn dis_red(&self, board: &Board) -> (distance: usize)
        requires
            board.wf(),
        ensures
            distance == spec_dis_red(board@),
    {
        Measure::RedSteps.total(board)
    }

    /// Adds up, over the `BLUE` pieces outside the low block, the steps that
    /// each is short of the block along both axes.
    pub fn dis_blue(&self, board: &Board) -> (distance: usize)
        requires
            board.wf(),
        ensures
            distance == spec_dis_blue(board@),
    {
        Measure::BlueSteps.total(board)
    }

    /// Adds up the distances of the `RED` pieces from the middle of the high
    /// block along both axes, and rounds the sum down.
    pub fn dis_red2(&self, board: &Board) -> (distance: usize)
        requires
            board.wf(),
        ensures
            distance == spec_dis_red2(board@),
    {
        Measure::RedTwice.total(board) / 2
    }

    /// Adds up the distances of the `BLUE` pieces from the middle of the low
    /// block along both axes, and rounds the sum down.
    pub fn dis_blue2(&self, board: &Board) -> (distance: usize)
        requires
            board.wf(),
        ensures
            distance == spec_dis_blue2(board@),
    {
        Measure::BlueTwice.total(board) / 2
    }

    /// Returns `points` if the cell at `(x, y)` holds `code`, else nothing.
    fn rim(board: &Board, x: usize, y: usize, code: usize, points: usize) -> (bonus: usize)
        requires
            board.wf(),
            x < board.size,
            y < board.size,
        ensures
            bonus == points * holds(board@, x as int, y as int, code),
    {
        if board.cell(x, y) == code {
            points
        } else {
            0
        }
    }

    /// Adds up the bonus for `RED` pieces on the rim of the high block.
    pub fn bonus_red(&self, board: &Board) -> (bonus: usize)
        requires
            board.wf(),
        ensures
            bonus == spec_bonus_red(board@),
            bonus <= 17,
    {
        let n = board.size;
        let mut ans: usize = 0;
        ans += Self::rim(board, n - 1, n - 1, RED, 3);
        ans += Self::rim(board, n - 4, n - 1, RED, 2);
        ans += Self::rim(board, n - 4, n - 4, RED, 2);
        ans += Self::rim(board, n - 1, n - 4, RED, 2);
        ans += Self::rim(board, n - 2, n - 1, RED, 1);
        ans += Self::rim(board, n - 3, n - 1, RED, 1);
        ans += Self::rim(board, n - 1, n - 2, RED, 1);
        ans += Self::rim(board, n - 1, n - 3, RED, 1);
        ans += Self::rim(board, n - 4, n - 2, RED, 1);
        ans += Self::rim(board, n - 4, n - 3, RED, 1);
        ans += Self::rim(board, n - 2, n - 4, RED, 1);
        ans += Self::rim(board, n - 3, n - 4, RED, 1);
        ans
    }

    /// Adds up the bonus for `BLUE` pieces on the rim of the low block.
    pub fn bonus_blue(&self, board: &Board) -> (bonus: usize)
        requires
            board.wf(),
        ensures
            bonus == spec_bonus_blue(board@),
            bonus <= 17,
    {
        let mut ans: usize = 0;
        ans += Self::rim(board, 0, 0, BLUE, 3);
        ans += Self::rim(board, 0, 3, BLUE, 2);
        ans += Self::rim(board, 3, 3, BLUE, 2);
        ans += Self::rim(board, 3, 0, BLUE, 2);
        ans += Self::rim(board, 1, 0, BLUE, 1);
        ans += Self::rim(board, 2, 0, BLUE, 1);
        ans += Self::rim(board, 0, 1, BLUE, 1);
        ans += Self::rim(board, 0, 2, BLUE, 1);
        ans += Self::rim(board, 3, 1, BLUE, 1);
        ans += Self::rim(board, 3, 2, BLUE, 1);
        ans += Self::rim(board, 1, 3, BLUE, 1);
        ans += Self::rim(board, 2, 3, BLUE, 1);
        ans
    }
}

/// The sums of the distance heuristic over a square board lie between nothing
/// and 1024 a cell.
proof fn lemma_twice_bounds(g: Grid, n: int)
    requires
        is_square(g, n),
        4 <= n <= 256,
    ensures
        0 <= grid_sum(g, red_twice_weight(n)) <= 256 * 256 * 1024,
        0 <= grid_sum(g, blue_twice_weight()) <= 256 * 256 * 1024,
{
    let red = red_twice_weight(n);
    let blue = blue_twice_weight();
    assert forall|x: int, y: int| 0 <= x < n && 0 <= y < n implies 0 <= #[trigger] red(
        x,
        y,
        g[x][y],
    ) <= 1024 by {}
    assert forall|x: int, y: int| 0 <= x < n && 0 <= y < n implies 0 <= #[trigger] blue(
        x,
        y,
        g[x][y],
    ) <= 1024 by {}
    lemma_grid_sum_bounds(g, red, n as nat, n as nat, 0, 1024);
    lemma_grid_sum_bounds(g, blue, n as nat, n as nat, 0, 1024);
    assert(n * n * 1024 <= 256 * 256 * 1024 && n * n * 0 == 0) by (nonlinear_arith)
        requires
            4 <= n <= 256,
    ;
}

/// The distance heuristic gives `SCORE_INF` to the positions that the player
/// has won and to no other, and `-SCORE_INF` to the positions that the other
/// side has won and to no other.
pub proof fn lemma_score_decided(g: Grid, n: int, player: usize)
    requires
        is_square(g, n),
        4 <= n <= 256,
    ensures
        -SCORE_INF <= manhattan_score(g, player) <= SCORE_INF,
        manhattan_score(g, player) == SCORE_INF <==> winner(g) == Some(player),
        manhattan_score(g, player) == -SCORE_INF <==> winner(g) is Some && winner(g) != Some(
            player,
        ),
{
    lemma_twice_bounds(g, n);
}

impl Evaluation for ManhattanEvaluation {
    open spec fn valid(&self) -> bool {
        true
    }

    open spec fn score(&self, g: Grid, player: usize) -> int {
        manhattan_score(g, player)
    }

    proof fn lemma_score_in_range(&self, g: Grid, n: int, player: usize) {
        lemma_twice_bounds(g, n);
    }

    /// Scores the position by the distance heuristic.
    fn evaluate(&self, board: &Board, next_player: usize) -> (score: i64) {
        match board.is_game_over() {
            Some(side) => {
                return if (side == RED && next_player == RED) || (side == BLUE && next_player
                    == BLUE) {
                    SCORE_INF
                } else {
                    -SCORE_INF
                };
            },
            None => {},
        }
        proof {
            lemma_twice_bounds(board@, board.size as int);
        }
        let dis_red = self.dis_red2(board) as i64;
        let dis_blue = self.dis_blue2(board) as i64;
        let v = if next_player == RED {
            dis_blue - dis_red
        } else {
            dis_red - dis_blue
        };
        let bonus_red = self.bonus_red(board) as i64;
        let bonus_blue = self.bonus_blue(board) as i64;
        let bonus = if next_player == RED {
            bonus_red - bonus_blue
        } else {
            bonus_blue - bonus_red
        };
        v + bonus
    }
}

} // verus!
