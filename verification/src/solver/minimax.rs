//! The minimax value of a position, as the search with cut-offs is held to it.

use vstd::prelude::*;
use crate::board::action::Action;
use crate::board::grid::{Grid, is_square};
use crate::board::rules::{action_in_range, apply_move, is_legal, lemma_apply_move_square};
use crate::constants::spec_opponent;
use crate::evaluation::evaluation::{Evaluation, SCORE_INF};
use crate::solver::solver::has_move;

verus! {

/// The value `v` cut to the window from `lo` to `hi`.
pub open spec fn clamp(v: int, lo: int, hi: int) -> int {
    if v < lo {
        lo
    } else if v > hi {
        hi
    } else {
        v
    }
}

/// Whether `a` is a legal move of `player` that gives the greatest value of `f`
/// among the legal moves.
pub open spec fn is_best_move(
    g: Grid,
    player: usize,
    f: spec_fn(Action) -> int,
    a: Action,
) -> bool {
    &&& is_legal(g, player, a)
    &&& forall|b: Action| #[trigger] is_legal(g, player, b) ==> f(b) <= f(a)
}

/// The greatest value of `f` among the legal moves of `player`, or `-SCORE_INF`
/// where the player has no move.
pub open spec fn best_value(g: Grid, player: usize, f: spec_fn(Action) -> int) -> int {
    if !has_move(g, player) {
        -SCORE_INF
    } else {
        f(choose|a: Action| is_best_move(g, player, f, a))
    }
}

/// What each move is worth to `player` when the search looks `depth` plies
/// ahead, the move included: the negated value of the position after it for the
/// other side, searched one ply less.
pub open spec fn move_values<E: Evaluation>(
    e: &E,
    g: Grid,
    player: usize,
    depth: nat,
) -> spec_fn(Action) -> int
    decreases depth, 0nat,
{
    |a: Action|
        if depth == 0 {
            0
        } else {
            -negamax(e, apply_move(g, a), spec_opponent(player), (depth - 1) as nat)
        }
}

/// The minimax value of the position `g` for `player`, who is to move, when the
/// search looks `depth` plies ahead: the evaluator's score at depth 0; else the
/// value of a best move, or `-SCORE_INF` where the player has no move.
pub open spec fn negamax<E: Evaluation>(e: &E, g: Grid, player: usize, depth: nat) -> int
    decreases depth, 1nat,
{
    if depth == 0 {
        e.score(g, player)
    } else {
        best_value(g, player, move_values(e, g, player, depth))
    }
}

/// What the move `a` is worth to `player` when the search looks `depth` plies
/// ahead.
pub open spec fn move_value<E: Evaluation>(
    e: &E,
    g: Grid,
    player: usize,
    depth: nat,
    a: Action,
) -> int {
    move_values(e, g, player, depth)(a)
}

/// The best value is the value of any best move.
pub proof fn lemma_best_value_is(g: Grid, player: usize, f: spec_fn(Action) -> int, a: Action)
    requires
        is_best_move(g, player, f, a),
    ensures
        best_value(g, player, f) == f(a),
{
    assert(has_move(g, player));
    let best = choose|b: Action| is_best_move(g, player, f, b);
    assert(is_legal(g, player, best));
    assert(is_legal(g, player, a));
}

/// The number of a move among all moves: its four coordinates read as the
/// digits of a number to the base 256.
pub open spec fn move_number(a: Action) -> int {
    ((a.from_x * 256 + a.from_y) * 256 + a.to_x) * 256 + a.to_y
}

/// The move with the number `k`.
pub open spec fn numbered_move(k: int) -> Action {
    Action {
        from_x: (k / 16777216 % 256) as u8,
        from_y: (k / 65536 % 256) as u8,
        to_x: (k / 256 % 256) as u8,
        to_y: (k % 256) as u8,
    }
}

/// Among the legal moves with a number below `k` there is a best one, unless
/// there is none at all.
proof fn lemma_best_below(g: Grid, player: usize, f: spec_fn(Action) -> int, k: int) -> (found: (
    bool,
    Action,
))
    requires
        0 <= k <= 4294967296,
    ensures
        !found.0 ==> forall|b: Action| #[trigger]
            is_legal(g, player, b) ==> move_number(b) >= k,
        found.0 ==> is_legal(g, player, found.1) && forall|b: Action| #[trigger]
            is_legal(g, player, b) && move_number(b) < k ==> f(b) <= f(found.1),
    decreases k,
{
    if k == 0 {
        (false, numbered_move(0))
    } else {
        let earlier = lemma_best_below(g, player, f, k - 1);
        let last = numbered_move(k - 1);
        assert forall|b: Action| move_number(b) == k - 1 implies b == last by {
            assert(b.from_x == last.from_x);
            assert(b.from_y == last.from_y);
            assert(b.to_x == last.to_x);
            assert(b.to_y == last.to_y);
        }
        if is_legal(g, player, last) {
            if earlier.0 && f(last) <= f(earlier.1) {
                earlier
            } else {
                (true, last)
            }
        } else {
            earlier
        }
    }
}

/// A position in which `player` has a legal move has a best move for every way
/// of valuing the moves: there are only finitely many moves.
pub proof fn lemma_best_move_exists(g: Grid, player: usize, f: spec_fn(Action) -> int)
    requires
        has_move(g, player),
    ensures
        is_best_move(g, player, f, choose|a: Action| is_best_move(g, player, f, a)),
        best_value(g, player, f) == f(choose|a: Action| is_best_move(g, player, f, a)),
{
    let found = lemma_best_below(g, player, f, 4294967296);
    let some = choose|a: Action| is_legal(g, player, a);
    assert(is_legal(g, player, some));
    assert(move_number(some) < 4294967296);
    assert(found.0);
    assert forall|b: Action| #[trigger] is_legal(g, player, b) implies f(b) <= f(found.1) by {
        assert(move_number(b) < 4294967296);
    }
    assert(is_best_move(g, player, f, found.1));
    lemma_best_value_is(g, player, f, found.1);
}

/// No legal move gives a greater value than the best value.
pub proof fn lemma_best_value_dominates(
    g: Grid,
    player: usize,
    f: spec_fn(Action) -> int,
    a: Action,
)
    requires
        is_legal(g, player, a),
    ensures
        f(a) <= best_value(g, player, f),
{
    assert(has_move(g, player));
    lemma_best_move_exists(g, player, f);
}

/// The best value is no more than a bound that holds of all legal moves.
pub proof fn lemma_best_value_bounded(
    g: Grid,
    player: usize,
    f: spec_fn(Action) -> int,
    bound: int,
)
    requires
        -SCORE_INF <= bound,
        forall|b: Action| #[trigger] is_legal(g, player, b) ==> f(b) <= bound,
    ensures
        best_value(g, player, f) <= bound,
{
    if has_move(g, player) {
        lemma_best_move_exists(g, player, f);
    }
}

/// Whether a search of `depth` plies with an empty window, whose upper end
/// `beta` is no more than its lower end, ends at its upper end: the player has a
/// move, and the search goes two plies deep or more, or one ply deep with a
/// move whose value is no less than `beta`.
pub open spec fn cuts_off<E: Evaluation>(
    e: &E,
    g: Grid,
    player: usize,
    depth: nat,
    beta: int,
) -> bool {
    has_move(g, player) && (depth >= 2 || negamax(e, g, player, 1) >= beta)
}

/// What a search of `depth` plies returns for the window from `alpha` to
/// `beta`: the evaluator's score at depth 0; else the minimax value cut to the
/// window; or, where the window is empty, its upper end if the search cuts off
/// and its lower end if not.
pub open spec fn search_value<E: Evaluation>(
    e: &E,
    g: Grid,
    player: usize,
    depth: nat,
    alpha: int,
    beta: int,
) -> int {
    if depth == 0 {
        e.score(g, player)
    } else if alpha < beta {
        clamp(negamax(e, g, player, depth), alpha, beta)
    } else if cuts_off(e, g, player, depth, beta) {
        beta
    } else {
        alpha
    }
}

/// Whether a search of `depth` plies for the window from `alpha` to `beta`
/// finds a move to report: it goes a ply deep or more, and the minimax value
/// lies above `alpha` or, where the window is empty, the search cuts off.
pub open spec fn search_finds<E: Evaluation>(
    e: &E,
    g: Grid,
    player: usize,
    depth: nat,
    alpha: int,
    beta: int,
) -> bool {
    depth > 0 && if alpha < beta {
        negamax(e, g, player, depth) > alpha
    } else {
        cuts_off(e, g, player, depth, beta)
    }
}

/// Every minimax value of a square position lies between `-SCORE_INF` and
/// `SCORE_INF`, and so does the value of every move on the board.
pub proof fn lemma_negamax_in_range<E: Evaluation>(
    e: &E,
    g: Grid,
    n: int,
    player: usize,
    depth: nat,
)
    requires
        e.valid(),
        is_square(g, n),
        4 <= n <= 256,
    ensures
        -SCORE_INF <= negamax(e, g, player, depth) <= SCORE_INF,
        forall|a: Action|
            depth > 0 && action_in_range(n, a) ==> -SCORE_INF <= #[trigger] move_value(
                e,
                g,
                player,
                depth,
                a,
            ) <= SCORE_INF,
    decreases depth,
{
    if depth == 0 {
        e.lemma_score_in_range(g, n, player);
    } else {
        let f = move_values(e, g, player, depth);
        assert forall|a: Action| action_in_range(n, a) implies -SCORE_INF <= #[trigger] move_value(
            e,
            g,
            player,
            depth,
            a,
        ) <= SCORE_INF by {
            lemma_apply_move_square(g, n, a);
            lemma_negamax_in_range(
                e,
                apply_move(g, a),
                n,
                spec_opponent(player),
                (depth - 1) as nat,
            );
        }
        if has_move(g, player) {
            lemma_best_move_exists(g, player, f);
            let best = choose|a: Action| is_best_move(g, player, f, a);
            assert(f(best) == move_value(e, g, player, depth, best));
        }
    }
}

} // verus!
