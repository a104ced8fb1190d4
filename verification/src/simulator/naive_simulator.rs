use vstd::prelude::*;
use rand::Rng;
use crate::board::action::Action;
use crate::board::board::Board;
use crate::board::grid::{
    Grid, grid_sum, is_square, lemma_grid_sum_bounds, lemma_grid_sum_set_cell, set_cell, Weight,
};
use crate::board::rules::{
    apply_move, is_legal_forward, legal_for, lemma_apply_move_square,
    lemma_legal_move_lands_on_empty, winner,
};
use crate::constants::{BLUE, EMPTY, opponent, RED, spec_opponent};

verus! {

/// Plays a game to its end by random forward moves.
pub struct NaiveSimulator;

impl Default for NaiveSimulator {
    fn default() -> Self {
        NaiveSimulator
    }
}

/// Whether `player` has a legal move that is forward for it.
pub open spec fn has_forward_move(g: Grid, player: usize) -> bool {
    exists|a: Action| is_legal_forward(g, player, a)
}

/// Whether `line` is a finished game of forward moves from `g`, the sides
/// moving in turn and `player` first, that `RED` wins if `red_wins` and `BLUE`
/// if not. A game is finished when a side has filled the corner block it heads
/// for, which that side then wins, or when the side to move has no forward
/// move, which that side then loses.
pub open spec fn playout_ends(g: Grid, player: usize, line: Seq<Action>, red_wins: bool) -> bool
    decreases line.len(),
{
    if line.len() == 0 {
        match winner(g) {
            Some(side) => red_wins == (side == RED),
            None => !has_forward_move(g, player) && red_wins == (player != RED),
        }
    } else {
        &&& winner(g) is None
        &&& is_legal_forward(g, player, line[0])
        &&& playout_ends(apply_move(g, line[0]), spec_opponent(player), line.drop_first(), red_wins)
    }
}

/// How far a piece has come: for a `RED` piece the steps it is away from the low
/// corner, for a `BLUE` piece the steps it is away from the high corner.
pub open spec fn progress_weight(n: int) -> Weight<usize> {
    |x: int, y: int, v: usize|
        if v == RED {
            x + y
        } else if v == BLUE {
            2 * (n - 1) - x - y
        } else {
            0
        }
}

/// How far all pieces have come together.
pub open spec fn progress(g: Grid) -> int {
    grid_sum(g, progress_weight(g.len() as int))
}

/// The pieces of a board have come no further than every cell could.
pub proof fn lemma_progress_bounds(g: Grid, n: int)
    requires
        is_square(g, n),
        4 <= n <= 256,
    ensures
        0 <= progress(g) <= 256 * 256 * 510,
{
    let w = progress_weight(n);
    assert forall|x: int, y: int| 0 <= x < n && 0 <= y < n implies 0 <= #[trigger] w(
        x,
        y,
        g[x][y],
    ) <= 510 by {}
    lemma_grid_sum_bounds(g, w, n as nat, n as nat, 0, 510);
    assert(n * n * 510 <= 256 * 256 * 510 && n * n * 0 == 0) by (nonlinear_arith)
        requires
            4 <= n <= 256,
    ;
}

/// Every forward move brings the pieces further.
pub proof fn lemma_forward_move_progress(g: Grid, n: int, player: usize, a: Action)
    requires
        is_square(g, n),
        4 <= n <= 256,
        player == RED || player == BLUE,
        is_legal_forward(g, player, a),
    ensures
        progress(apply_move(g, a)) > progress(g),
{
    let w = progress_weight(n);
    lemma_legal_move_lands_on_empty(g, player, a);
    let placed = set_cell(g, a.to_x as int, a.to_y as int, player);
    lemma_grid_sum_set_cell(g, w, a.to_x as int, a.to_y as int, player);
    lemma_grid_sum_set_cell(placed, w, a.from_x as int, a.from_y as int, EMPTY);
    lemma_apply_move_square(g, n, a);
}

/// A game that is finished after a forward move is made is finished, with the
/// same winner, with that move put in front.
pub proof fn lemma_playout_after_move(
    g: Grid,
    player: usize,
    a: Action,
    line: Seq<Action>,
    red_wins: bool,
)
    requires
        winner(g) is None,
        is_legal_forward(g, player, a),
        playout_ends(apply_move(g, a), spec_opponent(player), line, red_wins),
    ensures
        playout_ends(g, player, seq![a] + line, red_wins),
{
    let longer = seq![a] + line;
    assert(longer[0] == a);
    assert(longer.drop_first() =~= line);
}

/// `rand::thread_rng` and `Rng::gen` of the `rand` crate, chained: draws a random
/// machine word from the thread's generator. Nothing is claimed of the word.
#[verifier::external_body]
fn random_word() -> usize {
    rand::thread_rng().gen::<usize>()
}

impl NaiveSimulator {
    /// Picks the move at position `pick` modulo the length of the list.
    pub fn pick_action(actions: &Vec<Action>, pick: usize) -> (action: Action)
        requires
            actions@.len() > 0,
        ensures
            action == actions@[(pick as int) % (actions@.len() as int)],
    {
        actions[pick % actions.len()]
    }

    /// Plays one game from the position on `board`, `next_player` to move, in
    /// which each side in turn makes a random forward move, and tells whether
    /// `RED` won it. The game ends when a side has filled the corner block it
    /// heads for, or when the side to move has no forward move and so loses.
    ///
    /// Whatever the random choices, the result is that of some finished game of
    /// forward moves from the position.
    pub fn simulate(&self, board: &Board, next_player: usize) -> (red_wins: bool)
        requires
            board.wf(),
            next_player == RED || next_player == BLUE,
        ensures
            exists|line: Seq<Action>| playout_ends(board@, next_player, line, red_wins),
            winner(board@) matches Some(side) ==> red_wins == (side == RED),
    {
        let ghost g = board@;
        let ghost n = board.size as int;
        let mut b = board.clone();
        let mut turn = next_player;
        let mut game_over = board.is_game_over();
        let ghost mut trace = Seq::<Action>::empty();
        proof {
            lemma_progress_bounds(b@, n);
            assert forall|line: Seq<Action>, r: bool| #[trigger]
                playout_ends(b@, turn, line, r) implies playout_ends(
                g,
                next_player,
                trace + line,
                r,
            ) by {
                assert(trace + line =~= line);
            }
        }
        while game_over.is_none()
            invariant
                b.wf(),
                b.size == n,
                4 <= n <= 256,
                g == board@,
                next_player == RED || next_player == BLUE,
                turn == RED || turn == BLUE,
                game_over == winner(b@),
                0 <= progress(b@) <= 256 * 256 * 510,
                trace.len() > 0 ==> winner(g) is None,
                trace.len() == 0 ==> b@ == g,
                forall|line: Seq<Action>, r: bool| #[trigger]
                    playout_ends(b@, turn, line, r) ==> playout_ends(
                        g,
                        next_player,
                        trace + line,
                        r,
                    ),
            decreases 256 * 256 * 510 - progress(b@),
        {
            let actions = b.generate_actions_forward_only(turn);
            if actions.len() == 0 {
                proof {
                    assert forall|a: Action| !is_legal_forward(b@, turn, a) by {
                        if is_legal_forward(b@, turn, a) {
                            assert(legal_for(b@, turn, true)(a));
                            assert(actions@.contains(a));
                        }
                    }
                    let none = Seq::<Action>::empty();
                    assert(playout_ends(b@, turn, none, turn != RED));
                    assert(trace + none =~= trace);
                }
                return turn != RED;
            }
            let random_index = random_word();
            let action = Self::pick_action(&actions, random_index);
            let ghost here = b@;
            let ghost mover = turn;
            proof {
                assert(actions@.contains(action));
                assert(legal_for(here, mover, true)(action));
                lemma_forward_move_progress(here, n, mover, action);
                lemma_apply_move_square(here, n, action);
                lemma_progress_bounds(apply_move(here, action), n);
            }
            b.perform_action(action);
            turn = opponent(turn);
            game_over = b.is_game_over();
            proof {
                let longer = trace.push(action);
                assert forall|line: Seq<Action>, r: bool| #[trigger]
                    playout_ends(b@, turn, line, r) implies playout_ends(
                    g,
                    next_player,
                    longer + line,
                    r,
                ) by {
                    lemma_playout_after_move(here, mover, action, line, r);
                    assert(playout_ends(here, mover, seq![action] + line, r));
                    assert(longer + line =~= trace + (seq![action] + line));
                }
                trace = longer;
            }
        }
        proof {
            let none = Seq::<Action>::empty();
            assert(playout_ends(b@, turn, none, game_over.unwrap() == RED));
            assert(trace + none =~= trace);
        }
        game_over.unwrap() == RED
    }
}

} // verus!
