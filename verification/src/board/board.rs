use vstd::prelude::*;
use crate::board::action::Action;
use crate::board::flags::{count_marks, Flags, lemma_count_marks_bounds, lemma_count_marks_grows};
use crate::board::grid::{
    column_sum, count_cells, count_weight, Grid, grid_sum_upto, in_range, is_square,
    lemma_grid_sum_bounds, set_cell,
};
use crate::board::jumps::{
    lemma_landing_grows, lemma_search_close, lemma_search_done, lemma_search_pop,
    lemma_search_start, lemma_search_visit, search_state,
};
use crate::board::rules::{
    action_in_range, adjacent, apply_move, blue_wins, clear_of_blue, codes_ok, extends_with, hop,
    hops, initial_grid, is_legal, jump_from, landing_from, legal_before, legal_for,
    lemma_extends_chain, lemma_extends_from_empty, lemma_extends_push, lemma_extends_same,
    lemma_extends_start, lemma_step_is_no_jump, lists_exactly, move_check, PIECES, red_wins, revert_move,
    separable, shift, step_from, valid_position, winner, write_row,
};
use crate::constants::{BLUE, EMPTY, RED};
use crate::error::EngineError;
use vstd::string::*;

verus! {

/// Largest side length a board can have: coordinates of moves are bytes.
pub const MAX_SIZE: usize = 256;

/// A position: `data[x][y]` is the code of the cell at `(x, y)`.
pub struct Board {
    pub size: usize,
    pub data: Vec<Vec<usize>>,
}

impl View for Board {
    type V = Grid;

    open spec fn view(&self) -> Grid {
        Seq::new(self.data@.len(), |x: int| self.data@[x]@)
    }
}

impl Board {
    /// Whether the board is a square of `size` columns with `4 <= size <= 256`.
    pub open spec fn wf(&self) -> bool {
        &&& 4 <= self.size <= MAX_SIZE
        &&& is_square(self@, self.size as int)
    }

    /// Returns the code of the cell at `(x, y)`.
    pub fn cell(&self, x: usize, y: usize) -> (code: usize)
        requires
            self.wf(),
            x < self.size,
            y < self.size,
        ensures
            code == self@[x as int][y as int],
    {
        assert(self@[x as int] == self.data@[x as int]@);
        self.data[x][y]
    }

    /// Puts the code `code` on the cell at `(x, y)`.
    pub fn set_cell(&mut self, x: usize, y: usize, code: usize)
        requires
            old(self).wf(),
            x < old(self).size,
            y < old(self).size,
        ensures
            final(self).wf(),
            final(self).size == old(self).size,
            final(self)@ == set_cell(old(self)@, x as int, y as int, code),
    {
        assert(self@[x as int] == self.data@[x as int]@);
        self.data[x][y] = code;
        assert forall|i: int| 0 <= i < self.size implies #[trigger] self@[i] == set_cell(
            old(self)@,
            x as int,
            y as int,
            code,
        )[i] by {
            assert(old(self)@[i] == old(self).data@[i]@);
        }
        assert(self@ =~= set_cell(old(self)@, x as int, y as int, code));
    }

    /// Builds the opening position on a board with `size` columns: a block of
    /// four by four `RED` pieces in the low corner and one of `BLUE` pieces in
    /// the high corner. On fewer than eight columns the blocks overlap, and a
    /// cell of both holds the piece that is put on it last.
    pub fn new(size: usize) -> (b: Board)
        requires
            4 <= size <= MAX_SIZE,
        ensures
            b.wf(),
            b.size == size,
            b@ == initial_grid(size as int),
    {
        let mut data: Vec<Vec<usize>> = Vec::new();
        let mut x: usize = 0;
        while x < size
            invariant
                4 <= size <= MAX_SIZE,
                x <= size,
                data@.len() == x,
                forall|i: int| 0 <= i < x ==> (#[trigger] data@[i])@ == initial_grid(size as int)[i],
            decreases size - x,
        {
            let mut column: Vec<usize> = Vec::new();
            let mut y: usize = 0;
            while y < size
                invariant
                    4 <= size <= MAX_SIZE,
                    x < size,
                    y <= size,
                    column@.len() == y,
                    forall|j: int| 0 <= j < y ==> #[trigger] column@[j] == initial_grid(size as int)[x as int][j],
                decreases size - y,
            {
                let high = x >= size - 4 && y >= size - 4;
                let low = x < 4 && y < 4;
                let blue_last = size - 1 - x > x || (size - 1 - x == x && size - 1 - y >= y);
                let code = if high && (!low || blue_last) {
                    BLUE
                } else if low {
                    RED
                } else {
                    EMPTY
                };
                column.push(code);
                y += 1;
            }
            assert(column@ =~= initial_grid(size as int)[x as int]);
            data.push(column);
            x += 1;
        }
        let b = Board { size, data };
        assert(b@ =~= initial_grid(size as int));
        b
    }

    /// Tells whether `RED` holds the whole high corner block.
    pub fn is_red_winning(&self) -> (won: bool)
        requires
            self.wf(),
        ensures
            won == red_wins(self@),
    {
        let mut i: usize = 0;
        while i < 4
            invariant
                self.wf(),
                i <= 4,
                forall|x: int, y: int|
                    self.size - 1 - i < x < self.size && self.size - 4 <= y < self.size ==> (
                    #[trigger] self@[x][y]) == RED,
            decreases 4 - i,
        {
            let mut j: usize = 0;
            while j < 4
                invariant
                    self.wf(),
                    i < 4,
                    j <= 4,
                    forall|x: int, y: int|
                        self.size - 1 - i < x < self.size && self.size - 4 <= y < self.size ==> (
                        #[trigger] self@[x][y]) == RED,
                    forall|y: int|
                        self.size - 1 - j < y < self.size ==> (#[trigger] self@[self.size - 1
                            - i][y]) == RED,
                decreases 4 - j,
            {
                if self.cell(self.size - i - 1, self.size - j - 1) != RED {
                    assert(self@[self.size - 1 - i][self.size - 1 - j] != RED);
                    return false;
                }
                j += 1;
            }
            i += 1;
        }
        true
    }

    /// Tells whether `BLUE` holds the whole low corner block.
    pub fn is_blue_winning(&self) -> (won: bool)
        requires
            self.wf(),
        ensures
            won == blue_wins(self@),
    {
        let mut i: usize = 0;
        while i < 4
            invariant
                self.wf(),
                i <= 4,
                forall|x: int, y: int| 0 <= x < i && 0 <= y < 4 ==> (#[trigger] self@[x][y]) == BLUE,
            decreases 4 - i,
        {
            let mut j: usize = 0;
            while j < 4
                invariant
                    self.wf(),
                    i < 4,
                    j <= 4,
                    forall|x: int, y: int|
                        0 <= x < i && 0 <= y < 4 ==> (#[trigger] self@[x][y]) == BLUE,
                    forall|y: int| 0 <= y < j ==> (#[trigger] self@[i as int][y]) == BLUE,
                decreases 4 - j,
            {
                if self.cell(i, j) != BLUE {
                    assert(self@[i as int][j as int] != BLUE);
                    return false;
                }
                j += 1;
            }
            i += 1;
        }
        true
    }

    /// Returns the side that has won, if any: `RED` if it holds the high corner
    /// block, else `BLUE` if it holds the low corner block.
    pub fn is_game_over(&self) -> (over: Option<usize>)
        requires
            self.wf(),
        ensures
            over == winner(self@),
            over == Some(RED) <==> red_wins(self@),
            over == Some(BLUE) <==> blue_wins(self@) && !red_wins(self@),
            over is None <==> !red_wins(self@) && !blue_wins(self@),
    {
        if self.is_red_winning() {
            Some(RED)
        } else if self.is_blue_winning() {
            Some(BLUE)
        } else {
            None
        }
    }
}

impl Clone for Board {
    /// Copies the position cell for cell.
    fn clone(&self) -> (copy: Board)
        ensures
            copy.size == self.size,
            copy@ == self@,
    {
        let mut data: Vec<Vec<usize>> = Vec::new();
        let mut x: usize = 0;
        while x < self.data.len()
            invariant
                x <= self.data@.len(),
                data@.len() == x,
                forall|i: int| 0 <= i < x ==> (#[trigger] data@[i])@ == self.data@[i]@,
            decreases self.data@.len() - x,
        {
            let mut column: Vec<usize> = Vec::new();
            let mut y: usize = 0;
            while y < self.data[x].len()
                invariant
                    x < self.data@.len(),
                    y <= self.data@[x as int]@.len(),
                    column@.len() == y,
                    forall|j: int| 0 <= j < y ==> #[trigger] column@[j] == self.data@[x as int]@[j],
                decreases self.data@[x as int]@.len() - y,
            {
                column.push(self.data[x][y]);
                y += 1;
            }
            assert(column@ =~= self.data@[x as int]@);
            data.push(column);
            x += 1;
        }
        let copy = Board { size: self.size, data };
        assert(copy@ =~= self@);
        copy
    }
}

impl Board {
    /// Moves the piece at the origin of `action` to its destination and clears
    /// the origin. The origin must hold a piece.
    pub fn perform_action(&mut self, action: Action)
        requires
            old(self).wf(),
            action_in_range(old(self).size as int, action),
            old(self)@[action.from_x as int][action.from_y as int] != EMPTY,
        ensures
            final(self).wf(),
            final(self).size == old(self).size,
            final(self)@ == apply_move(old(self)@, action),
    {
        let piece = self.cell(action.from_x as usize, action.from_y as usize);
        self.set_cell(action.to_x as usize, action.to_y as usize, piece);
        self.set_cell(action.from_x as usize, action.from_y as usize, EMPTY);
    }

    /// Moves the piece at the destination of `action` back to its origin and
    /// clears the destination. The destination must hold a piece and the origin
    /// must be empty, as they are after the move was made.
    pub fn undo_action(&mut self, action: Action)
        requires
            old(self).wf(),
            action_in_range(old(self).size as int, action),
            old(self)@[action.to_x as int][action.to_y as int] != EMPTY,
            old(self)@[action.from_x as int][action.from_y as int] == EMPTY,
        ensures
            final(self).wf(),
            final(self).size == old(self).size,
            final(self)@ == revert_move(old(self)@, action),
    {
        let piece = self.cell(action.to_x as usize, action.to_y as usize);
        self.set_cell(action.from_x as usize, action.from_y as usize, piece);
        self.set_cell(action.to_x as usize, action.to_y as usize, EMPTY);
    }

    /// Returns the cell `dist` cells from `(x, y)` in direction `k`, if the board
    /// has it.
    fn shifted(&self, x: usize, y: usize, k: usize, dist: usize) -> (cell: Option<(usize, usize)>)
        requires
            self.wf(),
            x < self.size,
            y < self.size,
            k < 4,
            dist <= 2,
        ensures
            cell is Some <==> in_range(
                self.size as int,
                shift(x as int, y as int, k as int, dist as int).0,
                shift(x as int, y as int, k as int, dist as int).1,
            ),
            cell matches Some(c) ==> (c.0 as int, c.1 as int) == shift(
                x as int,
                y as int,
                k as int,
                dist as int,
            ),
    {
        if k == 0 {
            if x + dist < self.size {
                Some((x + dist, y))
            } else {
                None
            }
        } else if k == 1 {
            if y + dist < self.size {
                Some((x, y + dist))
            } else {
                None
            }
        } else if k == 2 {
            if x >= dist {
                Some((x - dist, y))
            } else {
                None
            }
        } else {
            if y >= dist {
                Some((x, y - dist))
            } else {
                None
            }
        }
    }

    /// Appends the single steps from `(x, y)`, all of them or only the forward ones.
    fn steps_from(&self, x: usize, y: usize, forward_only: bool, result: &mut Vec<Action>)
        requires
            self.wf(),
            x < self.size,
            y < self.size,
        ensures
            extends_with(
                old(result)@,
                final(result)@,
                step_from(self@, x as int, y as int, forward_only),
            ),
    {
        let ghost g = self@;
        let ghost before = result@;
        let ghost done = |k: int|
            |a: Action|
                step_from(g, x as int, y as int, forward_only)(a) && ((k > 0 && a.to_x == x + 1)
                    || (k > 1 && a.to_y == y + 1) || (k > 2 && a.to_x + 1 == x) || (k > 3
                    && a.to_y + 1 == y));
        let player = self.cell(x, y);
        proof {
            lemma_extends_start(before, done(0));
        }
        let mut k: usize = 0;
        while k < 4
            invariant
                self.wf(),
                g == self@,
                x < self.size,
                y < self.size,
                player == g[x as int][y as int],
                k <= 4,
                done == |k: int|
                    |a: Action|
                        step_from(g, x as int, y as int, forward_only)(a) && ((k > 0 && a.to_x == x
                            + 1) || (k > 1 && a.to_y == y + 1) || (k > 2 && a.to_x + 1 == x) || (k
                            > 3 && a.to_y + 1 == y)),
                extends_with(before, result@, done(k as int)),
            decreases 4 - k,
        {
            let ghost now = result@;
            let mut pushed = false;
            match self.shifted(x, y, k, 1) {
                Some((nx, ny)) => {
                    if self.cell(nx, ny) == EMPTY {
                        let action = Action::from_usize(x, y, nx, ny);
                        if !forward_only || action.is_forward(player) {
                            result.push(action);
                            pushed = true;
                            proof {
                                lemma_extends_push(
                                    before,
                                    now,
                                    done(k as int),
                                    done(k + 1),
                                    action,
                                );
                            }
                        }
                    }
                },
                None => {},
            }
            proof {
                if !pushed {
                    lemma_extends_same(before, now, done(k as int), done(k + 1));
                }
            }
            k += 1;
        }
        proof {
            lemma_extends_same(
                before,
                result@,
                done(4),
                step_from(g, x as int, y as int, forward_only),
            );
        }
    }

    /// Appends the single steps from `(x, y)` into empty neighbouring cells.
    pub fn generate_actions_from_point_single_step(
        &self,
        x: usize,
        y: usize,
        result: &mut Vec<Action>,
    )
        requires
            self.wf(),
            x < self.size,
            y < self.size,
        ensures
            extends_with(old(result)@, final(result)@, step_from(self@, x as int, y as int, false)),
    {
        self.steps_from(x, y, false, result);
    }

    /// Appends the single steps from `(x, y)` into empty neighbouring cells that
    /// are forward for the piece at `(x, y)`.
    pub fn generate_actions_from_point_single_step_forward_only(
        &self,
        x: usize,
        y: usize,
        result: &mut Vec<Action>,
    )
        requires
            self.wf(),
            x < self.size,
            y < self.size,
        ensures
            extends_with(old(result)@, final(result)@, step_from(self@, x as int, y as int, true)),
    {
        self.steps_from(x, y, true, result);
    }

    /// Appends the jumps from `(x, y)`, all of them or only the forward ones: a
    /// search over the landing cells that marks each cell it reaches.
    #[verifier::rlimit(40)]
    fn jumps_from(&self, x: usize, y: usize, forward_only: bool, result: &mut Vec<Action>)
        requires
            self.wf(),
            x < self.size,
            y < self.size,
        ensures
            extends_with(
                old(result)@,
                final(result)@,
                jump_from(self@, x as int, y as int, forward_only),
            ),
    {
        let ghost g = self@;
        let ghost before = result@;
        let n = self.size;
        let player = self.cell(x, y);
        let mut marks = Flags::new(n);
        marks.set(x, y);
        let mut stack: Vec<(usize, usize)> = Vec::new();
        stack.push((x, y));
        proof {
            lemma_extends_start(
                before,
                landing_from(marks@, x as int, y as int, player, forward_only),
            );
            lemma_count_marks_bounds(marks@, n as nat);
            assert(stack@ =~= seq![(x, y)]);
            lemma_search_start(g, marks@, x, y);
        }
        while stack.len() > 0
            invariant
                self.wf(),
                g == self@,
                n == self.size,
                x < n,
                y < n,
                player == g[x as int][y as int],
                marks.wf(),
                marks.side() == n,
                is_square(marks@, n as int),
                count_marks(marks@) <= n * n,
                search_state(g, marks@, stack@, x as int, y as int, -1, -1),
                extends_with(
                    before,
                    result@,
                    landing_from(marks@, x as int, y as int, player, forward_only),
                ),
            decreases 2 * (n * n - count_marks(marks@)) + stack@.len(),
        {
            proof {
                lemma_search_pop(g, marks@, stack@, x as int, y as int);
            }
            let top = stack.pop().unwrap();
            let cx = top.0;
            let cy = top.1;
            let ghost budget = 2 * (n * n - count_marks(marks@)) + stack@.len();
            let mut k: usize = 0;
            while k < 4
                invariant
                    self.wf(),
                    g == self@,
                    n == self.size,
                    x < n,
                    y < n,
                    cx < n,
                    cy < n,
                    k <= 4,
                    player == g[x as int][y as int],
                    marks.wf(),
                    marks.side() == n,
                    is_square(marks@, n as int),
                    marks@[cx as int][cy as int],
                    count_marks(marks@) <= n * n,
                    2 * (n * n - count_marks(marks@)) + stack@.len() <= budget,
                    search_state(g, marks@, stack@, x as int, y as int, cx as int, cy as int),
                    extends_with(
                        before,
                        result@,
                        landing_from(marks@, x as int, y as int, player, forward_only),
                    ),
                    k > 0 && hop(g, cx as int, cy as int, cx + 2, cy as int) ==> marks@[cx + 2][cy as int],
                    k > 1 && hop(g, cx as int, cy as int, cx as int, cy + 2) ==> marks@[cx as int][cy
                        + 2],
                    k > 2 && hop(g, cx as int, cy as int, cx - 2, cy as int) ==> marks@[cx - 2][cy as int],
                    k > 3 && hop(g, cx as int, cy as int, cx as int, cy - 2) ==> marks@[cx as int][cy
                        - 2],
                decreases 4 - k,
            {
                match self.shifted(cx, cy, k, 2) {
                    Some((qx, qy)) => {
                        let between = self.shifted(cx, cy, k, 1);
                        let (mx, my) = between.unwrap();
                        if !marks.get(qx, qy) && self.cell(qx, qy) == EMPTY && self.cell(mx, my)
                            != EMPTY {
                            let ghost seen = marks@;
                            let ghost now = result@;
                            let ghost held = stack@;
                            marks.set(qx, qy);
                            let action = Action::from_usize(x, y, qx, qy);
                            proof {
                                lemma_search_visit(
                                    g,
                                    seen,
                                    held,
                                    x as int,
                                    y as int,
                                    cx as int,
                                    cy as int,
                                    qx,
                                    qy,
                                );
                                lemma_count_marks_grows(seen, qx as int, qy as int);
                                lemma_count_marks_bounds(marks@, n as nat);
                                lemma_landing_grows(
                                    seen,
                                    x as int,
                                    y as int,
                                    player,
                                    forward_only,
                                    action,
                                );
                            }
                            if !forward_only || action.is_forward(player) {
                                result.push(action);
                                proof {
                                    lemma_extends_push(
                                        before,
                                        now,
                                        landing_from(seen, x as int, y as int, player, forward_only),
                                        landing_from(
                                            marks@,
                                            x as int,
                                            y as int,
                                            player,
                                            forward_only,
                                        ),
                                        action,
                                    );
                                }
                            } else {
                                proof {
                                    lemma_extends_same(
                                        before,
                                        now,
                                        landing_from(seen, x as int, y as int, player, forward_only),
                                        landing_from(
                                            marks@,
                                            x as int,
                                            y as int,
                                            player,
                                            forward_only,
                                        ),
                                    );
                                }
                            }
                            stack.push((qx, qy));
                        }
                    },
                    None => {},
                }
                k += 1;
            }
            proof {
                lemma_search_close(g, marks@, stack@, x as int, y as int, cx as int, cy as int);
            }
        }
        proof {
            assert(stack@ =~= Seq::<(usize, usize)>::empty());
            lemma_search_done(g, marks@, x as int, y as int, player, forward_only);
            lemma_extends_same(
                before,
                result@,
                landing_from(marks@, x as int, y as int, player, forward_only),
                jump_from(g, x as int, y as int, forward_only),
            );
        }
    }

    /// Appends the jumps from `(x, y)`: one move to each cell, other than
    /// `(x, y)`, that a chain of hops reaches.
    pub fn generate_actions_from_point_jumps(&self, x: usize, y: usize, result: &mut Vec<Action>)
        requires
            self.wf(),
            x < self.size,
            y < self.size,
        ensures
            extends_with(old(result)@, final(result)@, jump_from(self@, x as int, y as int, false)),
    {
        self.jumps_from(x, y, false, result);
    }

    /// Appends the jumps from `(x, y)` that are forward for the piece at `(x, y)`.
    pub fn generate_actions_from_point_jumps_forward_only(
        &self,
        x: usize,
        y: usize,
        result: &mut Vec<Action>,
    )
        requires
            self.wf(),
            x < self.size,
            y < self.size,
        ensures
            extends_with(old(result)@, final(result)@, jump_from(self@, x as int, y as int, true)),
    {
        self.jumps_from(x, y, true, result);
    }

    /// Lists the legal moves of `player`, all of them or only the forward ones,
    /// by origin in column order.
    fn moves_of(&self, player: usize, forward_only: bool) -> (moves: Vec<Action>)
        requires
            self.wf(),
        ensures
            lists_exactly(moves@, legal_for(self@, player, forward_only)),
    {
        let ghost g = self@;
        let ghost empty = Seq::<Action>::empty();
        let mut result: Vec<Action> = Vec::new();
        proof {
            assert(result@ =~= empty);
            lemma_extends_start(empty, legal_before(g, player, forward_only, 0, 0));
        }
        let mut x: usize = 0;
        while x < self.size
            invariant
                self.wf(),
                g == self@,
                x <= self.size,
                empty == Seq::<Action>::empty(),
                extends_with(empty, result@, legal_before(g, player, forward_only, x as int, 0)),
            decreases self.size - x,
        {
            let mut y: usize = 0;
            while y < self.size
                invariant
                    self.wf(),
                    g == self@,
                    x < self.size,
                    y <= self.size,
                    empty == Seq::<Action>::empty(),
                    extends_with(
                        empty,
                        result@,
                        legal_before(g, player, forward_only, x as int, y as int),
                    ),
                decreases self.size - y,
            {
                let ghost so_far = result@;
                if self.cell(x, y) == player {
                    self.steps_from(x, y, forward_only, &mut result);
                    let ghost stepped = result@;
                    self.jumps_from(x, y, forward_only, &mut result);
                    proof {
                        let steps = step_from(g, x as int, y as int, forward_only);
                        let jumps = jump_from(g, x as int, y as int, forward_only);
                        let here = |a: Action| steps(a) || jumps(a);
                        assert forall|a: Action| !(#[trigger] steps(a) && #[trigger] jumps(a)) by {
                            if jumps(a) {
                                lemma_step_is_no_jump(g, a);
                            }
                        }
                        lemma_extends_chain(so_far, stepped, result@, steps, jumps, here);
                        lemma_extends_chain(
                            empty,
                            so_far,
                            result@,
                            legal_before(g, player, forward_only, x as int, y as int),
                            here,
                            legal_before(g, player, forward_only, x as int, y + 1),
                        );
                    }
                } else {
                    proof {
                        lemma_extends_same(
                            empty,
                            so_far,
                            legal_before(g, player, forward_only, x as int, y as int),
                            legal_before(g, player, forward_only, x as int, y + 1),
                        );
                    }
                }
                y += 1;
            }
            proof {
                lemma_extends_same(
                    empty,
                    result@,
                    legal_before(g, player, forward_only, x as int, self.size as int),
                    legal_before(g, player, forward_only, x + 1, 0),
                );
            }
            x += 1;
        }
        proof {
            lemma_extends_same(
                empty,
                result@,
                legal_before(g, player, forward_only, self.size as int, 0),
                legal_for(g, player, forward_only),
            );
            lemma_extends_from_empty(result@, legal_for(g, player, forward_only));
        }
        result
    }

    /// Lists every legal move of `player`, each once: the single steps into empty
    /// neighbouring cells and the jumps of its pieces.
    pub fn generate_actions_all(&self, player: usize) -> (moves: Vec<Action>)
        requires
            self.wf(),
        ensures
            lists_exactly(moves@, legal_for(self@, player, false)),
            forall|a: Action| #[trigger] moves@.contains(a) <==> is_legal(self@, player, a),
    {
        self.moves_of(player, false)
    }

    /// Lists every legal move of `player` that is forward for it, each once.
    pub fn generate_actions_forward_only(&self, player: usize) -> (moves: Vec<Action>)
        requires
            self.wf(),
        ensures
            lists_exactly(moves@, legal_for(self@, player, true)),
            forall|a: Action| #[trigger]
                moves@.contains(a) <==> is_legal(self@, player, a) && a.spec_is_forward(player),
    {
        self.moves_of(player, true)
    }

    /// Tells whether a `BLUE` piece stands next to the cell `(x, y)` or in the
    /// rectangle between it and the high corner.
    fn meets_blue(&self, x: usize, y: usize) -> (meets: bool)
        requires
            self.wf(),
            x < self.size,
            y < self.size,
        ensures
            meets == !clear_of_blue(self@, x as int, y as int),
    {
        let n = self.size;
        let mut k: usize = 0;
        while k < 2
            invariant
                self.wf(),
                n == self.size,
                x < n,
                y < n,
                k <= 2,
                k > 0 && x >= 1 ==> self@[x - 1][y as int] != BLUE,
                k > 1 && y >= 1 ==> self@[x as int][y - 1] != BLUE,
            decreases 2 - k,
        {
            match self.shifted(x, y, k + 2, 1) {
                Some((bx, by)) => {
                    if self.cell(bx, by) == BLUE {
                        assert(adjacent(x as int, y as int, bx as int, by as int));
                        return true;
                    }
                },
                None => {},
            }
            k += 1;
        }
        let mut u: usize = x;
        while u < n
            invariant
                self.wf(),
                n == self.size,
                x <= u <= n,
                y < n,
                forall|bx: int, by: int|
                    x <= bx < u && y <= by < n ==> (#[trigger] self@[bx][by]) != BLUE,
            decreases n - u,
        {
            let mut v: usize = y;
            while v < n
                invariant
                    self.wf(),
                    n == self.size,
                    x <= u < n,
                    y <= v <= n,
                    forall|bx: int, by: int|
                        x <= bx < u && y <= by < n ==> (#[trigger] self@[bx][by]) != BLUE,
                    forall|by: int| y <= by < v ==> (#[trigger] self@[u as int][by]) != BLUE,
                decreases n - v,
            {
                if self.cell(u, v) == BLUE {
                    return true;
                }
                v += 1;
            }
            u += 1;
        }
        assert forall|bx: int, by: int|
            in_range(n as int, bx, by) && (#[trigger] self@[bx][by]) == BLUE implies !adjacent(
            x as int,
            y as int,
            bx,
            by,
        ) && !(x <= bx && y <= by) by {}
        false
    }

    /// Tells whether the two sides cannot meet any more: no `RED` piece has a
    /// `BLUE` neighbour, and no `BLUE` piece stands in the rectangle between a
    /// `RED` piece and the high corner.
    pub fn is_separable(&self) -> (apart: bool)
        requires
            self.wf(),
        ensures
            apart == separable(self@),
    {
        let n = self.size;
        let mut x: usize = 0;
        while x < n
            invariant
                self.wf(),
                n == self.size,
                x <= n,
                forall|rx: int, ry: int|
                    0 <= rx < x && 0 <= ry < n && (#[trigger] self@[rx][ry]) == RED
                        ==> clear_of_blue(self@, rx, ry),
            decreases n - x,
        {
            let mut y: usize = 0;
            while y < n
                invariant
                    self.wf(),
                    n == self.size,
                    x < n,
                    y <= n,
                    forall|rx: int, ry: int|
                        0 <= rx < x && 0 <= ry < n && (#[trigger] self@[rx][ry]) == RED
                            ==> clear_of_blue(self@, rx, ry),
                    forall|ry: int|
                        0 <= ry < y && (#[trigger] self@[x as int][ry]) == RED ==> clear_of_blue(
                            self@,
                            x as int,
                            ry,
                        ),
                decreases n - y,
            {
                if self.cell(x, y) == RED {
                    if self.meets_blue(x, y) {
                        return false;
                    }
                }
                y += 1;
            }
            x += 1;
        }
        true
    }

    /// Writes `value` along the row `row`, counted from the top of the board: the
    /// character at position `x` sets the cell `(x, size - 1 - row)` to `BLUE` for
    /// `'b'`, to `RED` for `'r'` and to empty for anything else.
    pub fn set_row_by_string(&mut self, row: usize, value: &str)
        requires
            old(self).wf(),
            row < old(self).size,
            value@.len() <= old(self).size,
        ensures
            final(self).wf(),
            final(self).size == old(self).size,
            final(self)@ == write_row(
                old(self)@,
                old(self).size - 1 - row,
                value@,
                value@.len() as int,
            ),
    {
        let n = self.size;
        let y = n - 1 - row;
        let len = value.unicode_len();
        let mut index: usize = 0;
        proof {
            let start = write_row(old(self)@, y as int, value@, 0);
            assert forall|x: int| 0 <= x < n implies #[trigger] self@[x] == start[x] by {
                assert(self@[x] =~= start[x]);
            }
            assert(self@ =~= start);
        }
        while index < len
            invariant
                self.wf(),
                n == self.size,
                n == old(self).size,
                old(self).wf(),
                y < n,
                len == value@.len(),
                len <= n,
                index <= len,
                self@ == write_row(old(self)@, y as int, value@, index as int),
            decreases len - index,
        {
            let c = value.get_char(index);
            let code = if c == 'b' {
                BLUE
            } else if c == 'r' {
                RED
            } else {
                EMPTY
            };
            let ghost now = self@;
            self.set_cell(index, y, code);
            proof {
                let next = write_row(old(self)@, y as int, value@, index + 1);
                assert forall|x: int| 0 <= x < n implies #[trigger] self@[x] == next[x] by {
                    assert(self@[x] =~= next[x]);
                }
                assert(self@ =~= next);
            }
            index += 1;
        }
    }

    /// Counts the cells that hold the code `code`.
    pub fn count_pieces(&self, code: usize) -> (count: usize)
        requires
            self.wf(),
        ensures
            count == count_cells(self@, code),
            count <= self.size * self.size,
    {
        let n = self.size;
        let ghost w = count_weight(code);
        let mut count: usize = 0;
        let mut x: usize = 0;
        proof {
            assert forall|i: int, j: int| 0 <= i < n && 0 <= j < n implies 0 <= #[trigger] w(
                i,
                j,
                self@[i][j],
            ) <= 1 by {}
        }
        while x < n
            invariant
                self.wf(),
                n == self.size,
                x <= n,
                w == count_weight(code),
                count == grid_sum_upto(self@, w, x as nat),
                forall|i: int, j: int|
                    0 <= i < n && 0 <= j < n ==> 0 <= #[trigger] w(i, j, self@[i][j]) <= 1,
            decreases n - x,
        {
            let ghost base = count;
            let mut y: usize = 0;
            proof {
                lemma_grid_sum_bounds(self@, w, x as nat, n as nat, 0, 1);
                assert(x * n * 1 <= 255 * 256) by (nonlinear_arith)
                    requires
                        x < n,
                        n <= 256,
                ;
            }
            while y < n
                invariant
                    self.wf(),
                    n == self.size,
                    x < n,
                    y <= n,
                    w == count_weight(code),
                    base == grid_sum_upto(self@, w, x as nat),
                    base <= 255 * 256,
                    count == base + column_sum(self@[x as int], x as int, w, y as nat),
                    count <= base + y,
                decreases n - y,
            {
                if self.cell(x, y) == code {
                    count += 1;
                }
                y += 1;
            }
            x += 1;
        }
        proof {
            lemma_grid_sum_bounds(self@, w, n as nat, n as nat, 0, 1);
            assert(n * n * 1 == n * n) by (nonlinear_arith);
        }
        count
    }

    /// Tells whether every cell holds one of the three cell codes.
    pub fn has_known_codes(&self) -> (known: bool)
        requires
            self.wf(),
        ensures
            known == codes_ok(self@),
    {
        let n = self.size;
        let mut x: usize = 0;
        while x < n
            invariant
                self.wf(),
                n == self.size,
                x <= n,
                forall|i: int, j: int|
                    0 <= i < x && 0 <= j < n ==> (#[trigger] self@[i][j]) == EMPTY || self@[i][j]
                        == RED || self@[i][j] == BLUE,
            decreases n - x,
        {
            let mut y: usize = 0;
            while y < n
                invariant
                    self.wf(),
                    n == self.size,
                    x < n,
                    y <= n,
                    forall|i: int, j: int|
                        0 <= i < x && 0 <= j < n ==> (#[trigger] self@[i][j]) == EMPTY
                            || self@[i][j] == RED || self@[i][j] == BLUE,
                    forall|j: int|
                        0 <= j < y ==> (#[trigger] self@[x as int][j]) == EMPTY
                            || self@[x as int][j] == RED || self@[x as int][j] == BLUE,
                decreases n - y,
            {
                let code = self.cell(x, y);
                if code != EMPTY && code != RED && code != BLUE {
                    return false;
                }
                y += 1;
            }
            x += 1;
        }
        true
    }

    /// Tells whether the board is a square of 4 to 256 columns.
    pub fn has_good_shape(&self) -> (good: bool)
        ensures
            good == self.wf(),
    {
        if self.size < 4 || self.size > MAX_SIZE || self.data.len() != self.size {
            return false;
        }
        let n = self.size;
        let mut x: usize = 0;
        while x < n
            invariant
                n == self.size,
                4 <= n <= MAX_SIZE,
                self.data@.len() == n,
                x <= n,
                forall|i: int| 0 <= i < x ==> (#[trigger] self.data@[i])@.len() == n,
            decreases n - x,
        {
            if self.data[x].len() != n {
                assert(self@[x as int] == self.data@[x as int]@);
                return false;
            }
            x += 1;
        }
        assert forall|i: int| 0 <= i < n implies (#[trigger] self@[i]).len() == n by {
            assert(self@[i] == self.data@[i]@);
        }
        true
    }

    /// What is wrong with the board as a position of the game, if anything: its
    /// shape; else a cell with an unknown code; else the number of pieces of a
    /// side.
    pub open spec fn spec_validate(&self) -> Result<(), EngineError> {
        if !self.wf() {
            Err(EngineError::BadShape)
        } else if !codes_ok(self@) {
            Err(EngineError::BadCell)
        } else if !(count_cells(self@, RED) == PIECES && count_cells(self@, BLUE) == PIECES) {
            Err(EngineError::BadPieceCount)
        } else {
            Ok(())
        }
    }

    /// Checks that the board is a position of the game: a square of 4 to 256
    /// columns, every cell with one of the three codes, sixteen pieces a side.
    /// The first of these that fails decides the error.
    pub fn validate(&self) -> (checked: Result<(), EngineError>)
        ensures
            checked == self.spec_validate(),
            checked is Ok <==> self.wf() && valid_position(self@, self.size as int),
    {
        if !self.has_good_shape() {
            return Err(EngineError::BadShape);
        }
        if !self.has_known_codes() {
            return Err(EngineError::BadCell);
        }
        if self.count_pieces(RED) != PIECES || self.count_pieces(BLUE) != PIECES {
            return Err(EngineError::BadPieceCount);
        }
        Ok(())
    }

    /// Checks that `action` moves a piece as the rules allow: both ends on the
    /// board, a piece on the origin, and the destination reached by a step into
    /// an empty neighbouring cell or by a jump. The first of these that fails
    /// decides the error.
    pub fn check_action(&self, action: Action) -> (checked: Result<(), EngineError>)
        requires
            self.wf(),
        ensures
            checked == move_check(self@, action),
    {
        let n = self.size;
        let fx = action.from_x as usize;
        let fy = action.from_y as usize;
        if fx >= n || fy >= n || action.to_x as usize >= n || action.to_y as usize >= n {
            return Err(EngineError::MoveOutOfRange);
        }
        let piece = self.cell(fx, fy);
        if piece == EMPTY {
            return Err(EngineError::EmptyOrigin);
        }
        let mut moves: Vec<Action> = Vec::new();
        self.steps_from(fx, fy, false, &mut moves);
        let ghost stepped = moves@;
        self.jumps_from(fx, fy, false, &mut moves);
        let ghost g = self@;
        let ghost steps = step_from(g, fx as int, fy as int, false);
        let ghost jumps = jump_from(g, fx as int, fy as int, false);
        let ghost here = |a: Action| steps(a) || jumps(a);
        proof {
            assert forall|a: Action| !(#[trigger] steps(a) && #[trigger] jumps(a)) by {
                if jumps(a) {
                    lemma_step_is_no_jump(g, a);
                }
            }
            lemma_extends_chain(Seq::<Action>::empty(), stepped, moves@, steps, jumps, here);
            lemma_extends_from_empty(moves@, here);
            assert(moves@.contains(action) <==> here(action));
        }
        let mut i: usize = 0;
        while i < moves.len()
            invariant
                self.wf(),
                action_in_range(self.size as int, action),
                piece == self@[action.from_x as int][action.from_y as int],
                piece != EMPTY,
                moves@.contains(action) <==> is_legal(self@, piece, action),
                i <= moves@.len(),
                forall|j: int| 0 <= j < i ==> moves@[j] != action,
            decreases moves@.len() - i,
        {
            if moves[i] == action {
                assert(moves@.contains(action));
                return Ok(());
            }
            i += 1;
        }
        assert(!moves@.contains(action));
        Err(EngineError::IllegalMove)
    }

    /// Makes the move `action` if the rules allow it, and leaves the board as
    /// it is if not.
    pub fn try_perform_action(&mut self, action: Action) -> (done: Result<(), EngineError>)
        requires
            old(self).wf(),
        ensures
            final(self).wf(),
            final(self).size == old(self).size,
            done == move_check(old(self)@, action),
            done is Ok ==> final(self)@ == apply_move(old(self)@, action),
            done is Err ==> final(self)@ == old(self)@,
    {
        match self.check_action(action) {
            Ok(_) => {
                self.perform_action(action);
                Ok(())
            },
            Err(e) => Err(e),
        }
    }
}

} // verus!
