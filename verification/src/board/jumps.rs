//! What the search for jump landings keeps true while it runs, and why the
//! cells it has marked at the end are exactly those that chains of hops reach.

use vstd::prelude::*;
use crate::board::action::Action;
use crate::board::grid::{Grid, in_range, is_square, set_cell};
use crate::board::rules::{
    hop, hops, jump_from, jump_reachable, landing_from, lemma_closed_marks_hold_chains,
    lemma_listed_drop_last, lemma_listed_push, listed,
};

verus! {

/// The state of a search from `(x, y)`: the start is marked, every other marked
/// cell is reached by a chain of hops, every cell on the stack is marked, and
/// every hop from a marked cell leads to a marked cell unless the cell is still
/// on the stack or is the cell `(cx, cy)` being expanded (none if `cx < 0`).
#[verifier::opaque]
pub open spec fn search_state(
    g: Grid,
    marks: Seq<Seq<bool>>,
    stack: Seq<(usize, usize)>,
    x: int,
    y: int,
    cx: int,
    cy: int,
) -> bool {
    &&& is_square(marks, g.len() as int)
    &&& in_range(g.len() as int, x, y)
    &&& marks[x][y]
    &&& forall|qx: int, qy: int|
        in_range(g.len() as int, qx, qy) && #[trigger] marks[qx][qy] && (qx != x || qy != y)
            ==> jump_reachable(g, x, y, qx, qy)
    &&& forall|i: int|
        0 <= i < stack.len() ==> in_range(
            g.len() as int,
            (#[trigger] stack[i]).0 as int,
            stack[i].1 as int,
        ) && marks[stack[i].0 as int][stack[i].1 as int]
    &&& forall|px: int, py: int, rx: int, ry: int|
        marks[px][py] && !listed(stack, px, py) && !(px == cx && py == cy) && #[trigger] hop(
            g,
            px,
            py,
            rx,
            ry,
        ) ==> marks[rx][ry]
}

/// A search starts with the start cell marked and on the stack.
pub proof fn lemma_search_start(g: Grid, marks: Seq<Seq<bool>>, x: usize, y: usize)
    requires
        is_square(marks, g.len() as int),
        in_range(g.len() as int, x as int, y as int),
        forall|qx: int, qy: int|
            in_range(g.len() as int, qx, qy) ==> (#[trigger] marks[qx][qy] <==> qx == x && qy
                == y),
    ensures
        search_state(g, marks, seq![(x, y)], x as int, y as int, -1, -1),
{
    reveal(search_state);
    let stack = seq![(x, y)];
    assert(stack[0] == (x, y));
    assert(listed(stack, x as int, y as int));
}

/// Taking the top cell off the stack makes it the cell being expanded.
pub proof fn lemma_search_pop(g: Grid, marks: Seq<Seq<bool>>, stack: Seq<(usize, usize)>, x: int, y: int)
    requires
        search_state(g, marks, stack, x, y, -1, -1),
        stack.len() > 0,
    ensures
        search_state(g, marks, stack.drop_last(), x, y, stack.last().0 as int, stack.last().1 as int),
        in_range(g.len() as int, stack.last().0 as int, stack.last().1 as int),
        marks[stack.last().0 as int][stack.last().1 as int],
{
    reveal(search_state);
    lemma_listed_drop_last(stack);
    let rest = stack.drop_last();
    assert forall|i: int| 0 <= i < rest.len() implies in_range(
        g.len() as int,
        (#[trigger] rest[i]).0 as int,
        rest[i].1 as int,
    ) && marks[rest[i].0 as int][rest[i].1 as int] by {
        assert(rest[i] == stack[i]);
    }
    assert(stack[stack.len() - 1] == stack.last());
}

/// Marking the landing cell of a hop from the cell being expanded, and putting
/// it on the stack, keeps the state of the search.
pub proof fn lemma_search_visit(
    g: Grid,
    marks: Seq<Seq<bool>>,
    stack: Seq<(usize, usize)>,
    x: int,
    y: int,
    cx: int,
    cy: int,
    qx: usize,
    qy: usize,
)
    requires
        search_state(g, marks, stack, x, y, cx, cy),
        marks[cx][cy],
        hop(g, cx, cy, qx as int, qy as int),
        !marks[qx as int][qy as int],
    ensures
        search_state(
            g,
            set_cell(marks, qx as int, qy as int, true),
            stack.push((qx, qy)),
            x,
            y,
            cx,
            cy,
        ),
        jump_reachable(g, x, y, qx as int, qy as int),
        qx != x || qy != y,
        forall|px: int, py: int|
            in_range(g.len() as int, px, py) && marks[px][py] ==> #[trigger] set_cell(
                marks,
                qx as int,
                qy as int,
                true,
            )[px][py],
{
    reveal(search_state);
    let n = g.len() as int;
    let grown = set_cell(marks, qx as int, qy as int, true);
    let longer = stack.push((qx, qy));
    lemma_listed_push(stack, (qx, qy));
    if cx == x && cy == y {
        assert(hops(g, x, y, qx as int, qy as int, 1));
    } else {
        let steps = choose|steps: nat| #[trigger] hops(g, x, y, cx, cy, steps);
        assert(hops(g, x, y, qx as int, qy as int, steps + 1));
    }
    assert(jump_reachable(g, x, y, qx as int, qy as int));
    assert forall|px: int, py: int| in_range(n, px, py) implies (#[trigger] grown[px][py] <==> (
    marks[px][py] || (px == qx && py == qy))) by {}
    assert forall|i: int| 0 <= i < longer.len() implies in_range(
        n,
        (#[trigger] longer[i]).0 as int,
        longer[i].1 as int,
    ) && grown[longer[i].0 as int][longer[i].1 as int] by {
        if i < stack.len() {
            assert(longer[i] == stack[i]);
        }
    }
    assert forall|px: int, py: int, rx: int, ry: int|
        grown[px][py] && !listed(longer, px, py) && !(px == cx && py == cy) && #[trigger] hop(
            g,
            px,
            py,
            rx,
            ry,
        ) implies grown[rx][ry] by {
        assert(in_range(n, px, py));
        assert(in_range(n, rx, ry));
        assert(!(px == qx && py == qy));
        assert(marks[px][py]);
        assert(!listed(stack, px, py));
        assert(marks[rx][ry]);
    }
}

/// Once every hop from the cell being expanded leads to a marked cell, the
/// expansion of that cell is over.
pub proof fn lemma_search_close(
    g: Grid,
    marks: Seq<Seq<bool>>,
    stack: Seq<(usize, usize)>,
    x: int,
    y: int,
    cx: int,
    cy: int,
)
    requires
        search_state(g, marks, stack, x, y, cx, cy),
        in_range(g.len() as int, cx, cy),
        hop(g, cx, cy, cx + 2, cy) ==> marks[cx + 2][cy],
        hop(g, cx, cy, cx, cy + 2) ==> marks[cx][cy + 2],
        hop(g, cx, cy, cx - 2, cy) ==> marks[cx - 2][cy],
        hop(g, cx, cy, cx, cy - 2) ==> marks[cx][cy - 2],
    ensures
        search_state(g, marks, stack, x, y, -1, -1),
{
    reveal(search_state);
}

/// When the stack is empty, the marked cells other than the start are exactly
/// the cells that chains of hops reach from the start.
pub proof fn lemma_search_done(
    g: Grid,
    marks: Seq<Seq<bool>>,
    x: int,
    y: int,
    player: usize,
    forward_only: bool,
)
    requires
        search_state(g, marks, Seq::<(usize, usize)>::empty(), x, y, -1, -1),
        player == g[x][y],
    ensures
        forall|a: Action| #[trigger]
            landing_from(marks, x, y, player, forward_only)(a) <==> #[trigger] jump_from(
                g,
                x,
                y,
                forward_only,
            )(a),
{
    reveal(search_state);
    let found = landing_from(marks, x, y, player, forward_only);
    let wanted = jump_from(g, x, y, forward_only);
    let none = Seq::<(usize, usize)>::empty();
    assert forall|px: int, py: int, rx: int, ry: int|
        marks[px][py] && #[trigger] hop(g, px, py, rx, ry) implies marks[rx][ry] by {
        assert(!listed(none, px, py));
    }
    assert forall|a: Action| #[trigger] found(a) <==> #[trigger] wanted(a) by {
        if wanted(a) {
            let steps = choose|steps: nat| #[trigger]
                hops(g, x, y, a.to_x as int, a.to_y as int, steps);
            lemma_closed_marks_hold_chains(g, marks, x, y, a.to_x as int, a.to_y as int, steps);
        }
    }
}

/// Marking one more cell adds the jump to that cell, if it is asked for, to the
/// jumps to marked cells, and nothing else.
pub proof fn lemma_landing_grows(
    marks: Seq<Seq<bool>>,
    x: int,
    y: int,
    player: usize,
    forward_only: bool,
    action: Action,
)
    requires
        is_square(marks, marks.len() as int),
        in_range(marks.len() as int, action.to_x as int, action.to_y as int),
        action.from_x == x,
        action.from_y == y,
        action.to_x != x || action.to_y != y,
        !marks[action.to_x as int][action.to_y as int],
    ensures
        !landing_from(marks, x, y, player, forward_only)(action),
        forall|b: Action| #[trigger]
            landing_from(
                set_cell(marks, action.to_x as int, action.to_y as int, true),
                x,
                y,
                player,
                forward_only,
            )(b) <==> (landing_from(marks, x, y, player, forward_only)(b) || (b == action && (
            forward_only ==> action.spec_is_forward(player)))),
{
    let grown = set_cell(marks, action.to_x as int, action.to_y as int, true);
    assert forall|b: Action| #[trigger]
        landing_from(grown, x, y, player, forward_only)(b) <==> (landing_from(
            marks,
            x,
            y,
            player,
            forward_only,
        )(b) || (b == action && (forward_only ==> action.spec_is_forward(player)))) by {
        if b.from_x == x && b.from_y == y && b.to_x == action.to_x && b.to_y == action.to_y {
            assert(b == action);
        }
    }
}

} // verus!
