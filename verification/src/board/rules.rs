//! The rules of the game over the mathematical model of a position: winning,
//! single steps, jump chains, and what a move does to the grid.

use vstd::prelude::*;
use crate::board::action::Action;
use crate::board::grid::{
    count_cells, count_weight, Grid, in_range, is_square, lemma_grid_sum_set_cell, set_cell,
};
use crate::constants::{BLUE, EMPTY, RED};
use crate::error::EngineError;

verus! {

/// Number of pieces each side has.
pub const PIECES: usize = 16;

/// Whether `RED` holds every cell of the high corner block.
pub open spec fn red_wins(g: Grid) -> bool {
    forall|x: int, y: int|
        g.len() - 4 <= x < g.len() && g.len() - 4 <= y < g.len() ==> (#[trigger] g[x][y]) == RED
}

/// Whether `BLUE` holds every cell of the low corner block.
pub open spec fn blue_wins(g: Grid) -> bool {
    forall|x: int, y: int| 0 <= x < 4 && 0 <= y < 4 ==> (#[trigger] g[x][y]) == BLUE
}

/// Whether `player` holds every cell of the corner block it heads for.
pub open spec fn wins(g: Grid, player: usize) -> bool {
    (player == RED && red_wins(g)) || (player == BLUE && blue_wins(g))
}

/// The side that has won, `RED` taking precedence when both blocks are complete.
pub open spec fn winner(g: Grid) -> Option<usize> {
    if red_wins(g) {
        Some(RED)
    } else if blue_wins(g) {
        Some(BLUE)
    } else {
        None
    }
}

/// Whether, on a grid with `n` columns, the cell `(x, y)` gets its `BLUE` piece
/// no earlier than its `RED` piece when the pieces are put on the board in
/// pairs, a `RED` piece on `(i, j)` and then a `BLUE` piece on
/// `(n - 1 - i, n - 1 - j)`, for `i` from 0 to 3 and, within that, `j` from 0 to 3.
pub open spec fn blue_comes_last(n: int, x: int, y: int) -> bool {
    n - 1 - x > x || (n - 1 - x == x && n - 1 - y >= y)
}

/// The opening position on a grid with `n` columns: `RED` in the low block and
/// `BLUE` in the high block. Where the blocks overlap, on fewer than eight
/// columns, a cell holds the piece that is put on it last.
pub open spec fn initial_grid(n: int) -> Grid {
    Seq::new(
        n as nat,
        |x: int|
            Seq::new(
                n as nat,
                |y: int|
                    if x >= n - 4 && y >= n - 4 && (!(x < 4 && y < 4) || blue_comes_last(n, x, y)) {
                        BLUE
                    } else if x < 4 && y < 4 {
                        RED
                    } else {
                        EMPTY
                    },
            ),
    )
}

/// The grid after the piece at the origin of `a` has been put on its destination
/// and the origin cleared.
pub open spec fn apply_move(g: Grid, a: Action) -> Grid {
    let placed = set_cell(g, a.to_x as int, a.to_y as int, g[a.from_x as int][a.from_y as int]);
    set_cell(placed, a.from_x as int, a.from_y as int, EMPTY)
}

/// The grid after the piece at the destination of `a` has been put back on the
/// origin and the destination cleared.
pub open spec fn revert_move(g: Grid, a: Action) -> Grid {
    let restored = set_cell(g, a.from_x as int, a.from_y as int, g[a.to_x as int][a.to_y as int]);
    set_cell(restored, a.to_x as int, a.to_y as int, EMPTY)
}

/// Whether both ends of `a` are cells of a grid with `n` columns.
pub open spec fn action_in_range(n: int, a: Action) -> bool {
    in_range(n, a.from_x as int, a.from_y as int) && in_range(n, a.to_x as int, a.to_y as int)
}

/// Whether the two ends of `a` are orthogonal neighbours.
pub open spec fn is_step(a: Action) -> bool {
    ||| a.to_x == a.from_x && (a.to_y == a.from_y + 1 || a.to_y + 1 == a.from_y)
    ||| a.to_y == a.from_y && (a.to_x == a.from_x + 1 || a.to_x + 1 == a.from_x)
}

/// Whether a piece standing on `(px, py)` can hop to `(qx, qy)`: the landing cell
/// is two cells away along one axis and empty, and the cell between is occupied.
pub open spec fn hop(g: Grid, px: int, py: int, qx: int, qy: int) -> bool {
    &&& in_range(g.len() as int, px, py)
    &&& in_range(g.len() as int, qx, qy)
    &&& g[qx][qy] == EMPTY
    &&& {
        ||| qx == px + 2 && qy == py && g[px + 1][py] != EMPTY
        ||| qx == px && qy == py + 2 && g[px][py + 1] != EMPTY
        ||| qx == px - 2 && qy == py && g[px - 1][py] != EMPTY
        ||| qx == px && qy == py - 2 && g[px][py - 1] != EMPTY
    }
}

/// Whether `(qx, qy)` is reached from `(px, py)` by a chain of at least one and at
/// most `n` hops. The grid stays as it is during the chain, so the piece's own
/// origin counts as occupied.
pub open spec fn hops(g: Grid, px: int, py: int, qx: int, qy: int, n: nat) -> bool
    decreases n,
{
    n > 0 && (hop(g, px, py, qx, qy) || exists|rx: int, ry: int|
        hops(g, px, py, rx, ry, (n - 1) as nat) && #[trigger] hop(g, rx, ry, qx, qy))
}

/// Whether `(qx, qy)` is reached from `(px, py)` by a chain of one or more hops.
pub open spec fn jump_reachable(g: Grid, px: int, py: int, qx: int, qy: int) -> bool {
    exists|n: nat| #[trigger] hops(g, px, py, qx, qy, n)
}

/// Whether `a` is a single step into an empty neighbouring cell.
pub open spec fn is_step_move(g: Grid, a: Action) -> bool {
    &&& action_in_range(g.len() as int, a)
    &&& is_step(a)
    &&& g[a.to_x as int][a.to_y as int] == EMPTY
}

/// Whether `a` leads, by a chain of hops, to a cell other than its origin.
pub open spec fn is_jump_move(g: Grid, a: Action) -> bool {
    &&& action_in_range(g.len() as int, a)
    &&& (a.from_x != a.to_x || a.from_y != a.to_y)
    &&& jump_reachable(g, a.from_x as int, a.from_y as int, a.to_x as int, a.to_y as int)
}

/// Whether `a` moves a piece of `player` by a single step or by a chain of hops.
pub open spec fn is_legal(g: Grid, player: usize, a: Action) -> bool {
    &&& action_in_range(g.len() as int, a)
    &&& g[a.from_x as int][a.from_y as int] == player
    &&& (is_step_move(g, a) || is_jump_move(g, a))
}

/// What is wrong with the move `a` in the position `g`, if anything: an end off
/// the board; else an empty origin; else a destination that the piece on the
/// origin reaches neither by a step nor by a jump.
pub open spec fn move_check(g: Grid, a: Action) -> Result<(), EngineError> {
    if !action_in_range(g.len() as int, a) {
        Err(EngineError::MoveOutOfRange)
    } else if g[a.from_x as int][a.from_y as int] == EMPTY {
        Err(EngineError::EmptyOrigin)
    } else if !is_legal(g, g[a.from_x as int][a.from_y as int], a) {
        Err(EngineError::IllegalMove)
    } else {
        Ok(())
    }
}

/// Whether `a` is a legal move of `player` that is forward for that player.
pub open spec fn is_legal_forward(g: Grid, player: usize, a: Action) -> bool {
    is_legal(g, player, a) && a.spec_is_forward(player)
}

/// Whether `after` is `before` followed by each action that satisfies `wanted`
/// exactly once, in some order.
pub open spec fn extends_with(
    before: Seq<Action>,
    after: Seq<Action>,
    wanted: spec_fn(Action) -> bool,
) -> bool {
    &&& before.len() <= after.len()
    &&& after.subrange(0, before.len() as int) == before
    &&& after.subrange(before.len() as int, after.len() as int).no_duplicates()
    &&& forall|a: Action| #[trigger]
        after.subrange(before.len() as int, after.len() as int).contains(a) <==> wanted(a)
}

/// Whether `list` holds each action that satisfies `wanted` exactly once and
/// nothing else.
pub open spec fn lists_exactly(list: Seq<Action>, wanted: spec_fn(Action) -> bool) -> bool {
    &&& list.no_duplicates()
    &&& forall|a: Action| #[trigger] list.contains(a) <==> wanted(a)
}

/// Whether the cells `(x1, y1)` and `(x2, y2)` are orthogonal neighbours.
pub open spec fn adjacent(x1: int, y1: int, x2: int, y2: int) -> bool {
    ||| x1 == x2 && (y1 == y2 + 1 || y1 + 1 == y2)
    ||| y1 == y2 && (x1 == x2 + 1 || x1 + 1 == x2)
}

/// Whether no `BLUE` piece can meet the `RED` piece at `(rx, ry)`: none stands
/// next to it, and none stands in the rectangle between it and the high corner.
pub open spec fn clear_of_blue(g: Grid, rx: int, ry: int) -> bool {
    forall|bx: int, by: int|
        in_range(g.len() as int, bx, by) && (#[trigger] g[bx][by]) == BLUE ==> !adjacent(
            rx,
            ry,
            bx,
            by,
        ) && !(rx <= bx && ry <= by)
}

/// Whether the two sides cannot meet any more: no `RED` piece has a `BLUE` piece
/// as an orthogonal neighbour, and no `BLUE` piece stands in the rectangle between
/// a `RED` piece and the high corner. The second condition reads the same from
/// the other side: no `RED` piece stands in the rectangle between a `BLUE` piece
/// and the low corner. So the predicate treats both sides alike.
pub open spec fn separable(g: Grid) -> bool {
    forall|rx: int, ry: int|
        in_range(g.len() as int, rx, ry) && (#[trigger] g[rx][ry]) == RED ==> clear_of_blue(
            g,
            rx,
            ry,
        )
}

/// The cell code that the character `c` stands for in a row of text: `'b'` for
/// `BLUE`, `'r'` for `RED`, anything else for an empty cell.
pub open spec fn code_of(c: char) -> usize {
    if c == 'b' {
        BLUE
    } else if c == 'r' {
        RED
    } else {
        EMPTY
    }
}

/// The grid `g` with the first `k` characters of `text` written along the row
/// `y`, one character per column.
pub open spec fn write_row(g: Grid, y: int, text: Seq<char>, k: int) -> Grid {
    Seq::new(
        g.len(),
        |x: int|
            Seq::new(
                g[x].len(),
                |j: int|
                    if j == y && x < k {
                        code_of(text[x])
                    } else {
                        g[x][j]
                    },
            ),
    )
}

/// Whether every cell of `g` holds one of the three cell codes.
pub open spec fn codes_ok(g: Grid) -> bool {
    forall|x: int, y: int|
        in_range(g.len() as int, x, y) ==> (#[trigger] g[x][y]) == EMPTY || g[x][y] == RED
            || g[x][y] == BLUE
}

/// Whether `g` is a position of the game on a board with `n` columns: square,
/// every cell with one of the three codes, sixteen pieces a side.
pub open spec fn valid_position(g: Grid, n: int) -> bool {
    &&& 4 <= n <= 256
    &&& is_square(g, n)
    &&& codes_ok(g)
    &&& count_cells(g, RED) == PIECES
    &&& count_cells(g, BLUE) == PIECES
}

/// The cell that lies `dist` cells from `(x, y)` in direction `k`: the four
/// directions are, in order, up the first axis, up the second, down the first,
/// down the second.
pub open spec fn shift(x: int, y: int, k: int, dist: int) -> (int, int) {
    if k == 0 {
        (x + dist, y)
    } else if k == 1 {
        (x, y + dist)
    } else if k == 2 {
        (x - dist, y)
    } else {
        (x, y - dist)
    }
}

/// The single steps from `(x, y)`, all of them or only those forward for the
/// piece that stands there.
pub open spec fn step_from(g: Grid, x: int, y: int, forward_only: bool) -> spec_fn(Action) -> bool {
    |a: Action|
        a.from_x == x && a.from_y == y && is_step_move(g, a) && (forward_only
            ==> a.spec_is_forward(g[x][y]))
}

/// The jumps from `(x, y)`, all of them or only those forward for the piece that
/// stands there.
pub open spec fn jump_from(g: Grid, x: int, y: int, forward_only: bool) -> spec_fn(Action) -> bool {
    |a: Action|
        a.from_x == x && a.from_y == y && is_jump_move(g, a) && (forward_only
            ==> a.spec_is_forward(g[x][y]))
}

/// The legal moves of `player`, all of them or only the forward ones.
pub open spec fn legal_for(g: Grid, player: usize, forward_only: bool) -> spec_fn(Action) -> bool {
    |a: Action| is_legal(g, player, a) && (forward_only ==> a.spec_is_forward(player))
}

/// Nothing is wanted: the list extends itself.
pub proof fn lemma_extends_start(list: Seq<Action>, wanted: spec_fn(Action) -> bool)
    requires
        forall|a: Action| !#[trigger] wanted(a),
    ensures
        extends_with(list, list, wanted),
{
    assert(list.subrange(0, list.len() as int) =~= list);
}

/// Two predicates that hold of the same actions are extended with alike.
pub proof fn lemma_extends_same(
    before: Seq<Action>,
    after: Seq<Action>,
    wanted: spec_fn(Action) -> bool,
    other: spec_fn(Action) -> bool,
)
    requires
        extends_with(before, after, wanted),
        forall|a: Action| #[trigger] wanted(a) <==> #[trigger] other(a),
    ensures
        extends_with(before, after, other),
{
}

/// Pushing an action that was not wanted before extends the list by it.
pub proof fn lemma_extends_push(
    before: Seq<Action>,
    after: Seq<Action>,
    wanted: spec_fn(Action) -> bool,
    grown: spec_fn(Action) -> bool,
    a: Action,
)
    requires
        extends_with(before, after, wanted),
        !wanted(a),
        forall|b: Action| #[trigger] grown(b) <==> (wanted(b) || b == a),
    ensures
        extends_with(before, after.push(a), grown),
{
    let k = before.len() as int;
    let tail = after.subrange(k, after.len() as int);
    let longer = after.push(a);
    assert(longer.subrange(0, k) =~= after.subrange(0, k));
    assert(longer.subrange(k, longer.len() as int) =~= tail.push(a));
    assert forall|b: Action| #[trigger] tail.push(a).contains(b) <==> grown(b) by {
        if tail.push(a).contains(b) {
            let i = choose|i: int| 0 <= i < tail.push(a).len() && tail.push(a)[i] == b;
            if i < tail.len() {
                assert(tail[i] == b);
                assert(tail.contains(b));
            }
        }
        if grown(b) {
            if b == a {
                assert(tail.push(a)[tail.len() as int] == b);
            } else {
                assert(tail.contains(b));
                let i = choose|i: int| 0 <= i < tail.len() && tail[i] == b;
                assert(tail.push(a)[i] == b);
            }
        }
    }
    assert(!tail.contains(a));
    assert forall|i: int, j: int|
        0 <= i < tail.push(a).len() && 0 <= j < tail.push(a).len() && i != j implies tail.push(
        a,
    )[i] != tail.push(a)[j] by {
        if i < tail.len() && j < tail.len() {
        } else if i < tail.len() {
            assert(tail.contains(tail[i]));
        } else {
            assert(tail.contains(tail[j]));
        }
    }
}

/// Extending twice, by two sets of actions that do not meet, extends by their union.
pub proof fn lemma_extends_chain(
    first: Seq<Action>,
    second: Seq<Action>,
    third: Seq<Action>,
    wanted1: spec_fn(Action) -> bool,
    wanted2: spec_fn(Action) -> bool,
    both: spec_fn(Action) -> bool,
)
    requires
        extends_with(first, second, wanted1),
        extends_with(second, third, wanted2),
        forall|a: Action| !(#[trigger] wanted1(a) && #[trigger] wanted2(a)),
        forall|a: Action| #[trigger] both(a) <==> (wanted1(a) || wanted2(a)),
    ensures
        extends_with(first, third, both),
{
    let k1 = first.len() as int;
    let k2 = second.len() as int;
    let k3 = third.len() as int;
    let t1 = second.subrange(k1, k2);
    let t2 = third.subrange(k2, k3);
    let t = third.subrange(k1, k3);
    assert(third.subrange(0, k1) =~= third.subrange(0, k2).subrange(0, k1));
    assert(t =~= t1 + t2) by {
        assert(third.subrange(0, k2) == second);
        assert forall|i: int| 0 <= i < k3 - k1 implies t[i] == (t1 + t2)[i] by {
            if i < k2 - k1 {
                assert(third.subrange(0, k2)[i + k1] == third[i + k1]);
            }
        }
    }
    assert forall|a: Action| #[trigger] t.contains(a) <==> both(a) by {
        if t.contains(a) {
            let i = choose|i: int| 0 <= i < t.len() && t[i] == a;
            if i < t1.len() {
                assert(t1[i] == a);
                assert(t1.contains(a));
            } else {
                assert(t2[i - t1.len()] == a);
                assert(t2.contains(a));
            }
        }
        if both(a) {
            if wanted1(a) {
                assert(t1.contains(a));
                let i = choose|i: int| 0 <= i < t1.len() && t1[i] == a;
                assert(t[i] == a);
            } else {
                assert(t2.contains(a));
                let i = choose|i: int| 0 <= i < t2.len() && t2[i] == a;
                assert(t[i + t1.len()] == a);
            }
        }
    }
    assert forall|i: int, j: int| 0 <= i < t.len() && 0 <= j < t.len() && i != j implies t[i]
        != t[j] by {
        if i < t1.len() && j < t1.len() {
        } else if i >= t1.len() && j >= t1.len() {
            assert(t2[i - t1.len()] != t2[j - t1.len()]);
        } else if i < t1.len() {
            assert(t1.contains(t1[i]));
            assert(t2.contains(t2[j - t1.len()]));
        } else {
            assert(t1.contains(t1[j]));
            assert(t2.contains(t2[i - t1.len()]));
        }
    }
}

/// A list that extends the empty list holds exactly what was wanted.
pub proof fn lemma_extends_from_empty(list: Seq<Action>, wanted: spec_fn(Action) -> bool)
    requires
        extends_with(Seq::<Action>::empty(), list, wanted),
    ensures
        lists_exactly(list, wanted),
{
    assert(list.subrange(0, list.len() as int) =~= list);
}

/// Whether the cell `(px, py)` is one of the cells listed in `cells`.
pub open spec fn listed(cells: Seq<(usize, usize)>, px: int, py: int) -> bool {
    exists|i: int| 0 <= i < cells.len() && (#[trigger] cells[i]).0 == px && cells[i].1 == py
}

/// The jumps from `(x, y)` to the cells marked so far, all of them or only
/// those forward for `player`.
pub open spec fn landing_from(
    marks: Seq<Seq<bool>>,
    x: int,
    y: int,
    player: usize,
    forward_only: bool,
) -> spec_fn(Action) -> bool {
    |a: Action|
        a.from_x == x && a.from_y == y && in_range(marks.len() as int, a.to_x as int, a.to_y as int)
            && (a.to_x != x || a.to_y != y) && marks[a.to_x as int][a.to_y as int] && (forward_only
            ==> a.spec_is_forward(player))
}

/// The legal moves of `player` whose origin comes before `(x, y)` in column order.
pub open spec fn legal_before(
    g: Grid,
    player: usize,
    forward_only: bool,
    x: int,
    y: int,
) -> spec_fn(Action) -> bool {
    |a: Action|
        legal_for(g, player, forward_only)(a) && (a.from_x < x || (a.from_x == x && a.from_y < y))
}

/// A cell stays listed when another cell is added to the list.
pub proof fn lemma_listed_push(cells: Seq<(usize, usize)>, cell: (usize, usize))
    ensures
        listed(cells.push(cell), cell.0 as int, cell.1 as int),
        forall|px: int, py: int| #[trigger]
            listed(cells, px, py) ==> listed(cells.push(cell), px, py),
{
    assert(cells.push(cell)[cells.len() as int] == cell);
    assert forall|px: int, py: int| #[trigger] listed(cells, px, py) implies listed(
        cells.push(cell),
        px,
        py,
    ) by {
        let i = choose|i: int| 0 <= i < cells.len() && (#[trigger] cells[i]).0 == px && cells[i].1
            == py;
        assert(cells.push(cell)[i] == cells[i]);
    }
}

/// A listed cell is the last one or is still listed when the last one is removed.
pub proof fn lemma_listed_drop_last(cells: Seq<(usize, usize)>)
    requires
        cells.len() > 0,
    ensures
        forall|px: int, py: int| #[trigger]
            listed(cells, px, py) ==> listed(cells.drop_last(), px, py) || (px == cells.last().0
                && py == cells.last().1),
{
    assert forall|px: int, py: int| #[trigger] listed(cells, px, py) implies listed(
        cells.drop_last(),
        px,
        py,
    ) || (px == cells.last().0 && py == cells.last().1) by {
        let i = choose|i: int| 0 <= i < cells.len() && (#[trigger] cells[i]).0 == px && cells[i].1
            == py;
        if i < cells.len() - 1 {
            assert(cells.drop_last()[i] == cells[i]);
        }
    }
}

/// A set of marked cells that holds the start and is closed under hops holds
/// every cell that a chain of hops reaches from the start.
pub proof fn lemma_closed_marks_hold_chains(
    g: Grid,
    marks: Seq<Seq<bool>>,
    sx: int,
    sy: int,
    qx: int,
    qy: int,
    n: nat,
)
    requires
        in_range(g.len() as int, sx, sy),
        marks[sx][sy],
        forall|px: int, py: int, rx: int, ry: int|
            marks[px][py] && #[trigger] hop(g, px, py, rx, ry) ==> marks[rx][ry],
        hops(g, sx, sy, qx, qy, n),
    ensures
        marks[qx][qy],
    decreases n,
{
    if !hop(g, sx, sy, qx, qy) {
        let (rx, ry) = choose|rx: int, ry: int|
            hops(g, sx, sy, rx, ry, (n - 1) as nat) && #[trigger] hop(g, rx, ry, qx, qy);
        lemma_closed_marks_hold_chains(g, marks, sx, sy, rx, ry, (n - 1) as nat);
    }
}

/// A landing cell of a hop is empty, so every chain of hops ends on an empty cell.
pub proof fn lemma_hops_land_on_empty(g: Grid, px: int, py: int, qx: int, qy: int, n: nat)
    requires
        hops(g, px, py, qx, qy, n),
    ensures
        in_range(g.len() as int, qx, qy),
        g[qx][qy] == EMPTY,
{
}

/// A chain of hops changes each coordinate by an even amount.
pub proof fn lemma_hops_keep_parity(g: Grid, px: int, py: int, qx: int, qy: int, n: nat)
    requires
        hops(g, px, py, qx, qy, n),
    ensures
        (qx - px) % 2 == 0,
        (qy - py) % 2 == 0,
    decreases n,
{
    if !hop(g, px, py, qx, qy) {
        let (rx, ry) = choose|rx: int, ry: int|
            hops(g, px, py, rx, ry, (n - 1) as nat) && #[trigger] hop(g, rx, ry, qx, qy);
        lemma_hops_keep_parity(g, px, py, rx, ry, (n - 1) as nat);
    }
}

/// A step and a jump never lead from the same origin to the same cell.
pub proof fn lemma_step_is_no_jump(g: Grid, a: Action)
    requires
        is_jump_move(g, a),
    ensures
        !is_step(a),
{
    let n = choose|n: nat| #[trigger]
        hops(g, a.from_x as int, a.from_y as int, a.to_x as int, a.to_y as int, n);
    lemma_hops_keep_parity(g, a.from_x as int, a.from_y as int, a.to_x as int, a.to_y as int, n);
}

/// Every legal move ends on an empty cell.
pub proof fn lemma_legal_move_lands_on_empty(g: Grid, player: usize, a: Action)
    requires
        is_legal(g, player, a),
    ensures
        g[a.to_x as int][a.to_y as int] == EMPTY,
{
    if is_jump_move(g, a) {
        let n = choose|n: nat| #[trigger]
            hops(g, a.from_x as int, a.from_y as int, a.to_x as int, a.to_y as int, n);
        lemma_hops_land_on_empty(
            g,
            a.from_x as int,
            a.from_y as int,
            a.to_x as int,
            a.to_y as int,
            n,
        );
    }
}

/// A move keeps the grid square.
pub proof fn lemma_apply_move_square(g: Grid, n: int, a: Action)
    requires
        is_square(g, n),
        action_in_range(n, a),
    ensures
        is_square(apply_move(g, a), n),
        is_square(revert_move(g, a), n),
{
}

/// Taking back a move onto an empty cell restores the grid cell for cell.
pub proof fn lemma_revert_restores(g: Grid, n: int, a: Action)
    requires
        is_square(g, n),
        action_in_range(n, a),
        g[a.to_x as int][a.to_y as int] == EMPTY,
    ensures
        revert_move(apply_move(g, a), a) == g,
{
    let h = revert_move(apply_move(g, a), a);
    assert forall|x: int| 0 <= x < n implies #[trigger] h[x] == g[x] by {
        assert(h[x] =~= g[x]);
    }
    assert(h =~= g);
}

/// A move onto an empty cell leaves the number of cells of every code unchanged.
pub proof fn lemma_move_keeps_counts(g: Grid, n: int, a: Action, c: usize)
    requires
        is_square(g, n),
        action_in_range(n, a),
        g[a.to_x as int][a.to_y as int] == EMPTY,
    ensures
        count_cells(apply_move(g, a), c) == count_cells(g, c),
{
    let w = count_weight(c);
    let placed = set_cell(g, a.to_x as int, a.to_y as int, g[a.from_x as int][a.from_y as int]);
    lemma_grid_sum_set_cell(g, w, a.to_x as int, a.to_y as int, g[a.from_x as int][a.from_y as int]);
    lemma_grid_sum_set_cell(placed, w, a.from_x as int, a.from_y as int, EMPTY);
}

} // verus!
