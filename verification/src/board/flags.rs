//! A square grid of marks, used to remember which cells a search has seen.

use vstd::prelude::*;
use crate::board::grid::{
    grid_sum, is_square, lemma_grid_sum_bounds, lemma_grid_sum_set_cell, set_cell, Weight,
};

verus! {

/// The weight that counts marked cells.
pub open spec fn mark_weight() -> Weight<bool> {
    |x: int, y: int, v: bool| if v { 1int } else { 0int }
}

/// Number of marked cells.
pub open spec fn count_marks(f: Seq<Seq<bool>>) -> int {
    grid_sum(f, mark_weight())
}

/// A square grid holds no more marks than it has cells.
pub proof fn lemma_count_marks_bounds(f: Seq<Seq<bool>>, n: nat)
    requires
        is_square(f, n as int),
    ensures
        0 <= count_marks(f) <= n * n,
{
    let w = mark_weight();
    assert forall|x: int, y: int| 0 <= x < n && 0 <= y < n implies 0 <= #[trigger] w(
        x,
        y,
        f[x][y],
    ) <= 1 by {}
    lemma_grid_sum_bounds(f, w, n, n, 0, 1);
    assert(n * n * 0 == 0 && n * n * 1 == n * n) by (nonlinear_arith);
}

/// Marking an unmarked cell raises the number of marks by one.
pub proof fn lemma_count_marks_grows(f: Seq<Seq<bool>>, x: int, y: int)
    requires
        0 <= x < f.len(),
        0 <= y < f[x].len(),
        !f[x][y],
    ensures
        count_marks(set_cell(f, x, y, true)) == count_marks(f) + 1,
{
    lemma_grid_sum_set_cell(f, mark_weight(), x, y, true);
}

/// A square grid of marks with `n` columns.
pub struct Flags {
    n: usize,
    bits: Vec<Vec<bool>>,
}

impl View for Flags {
    type V = Seq<Seq<bool>>;

    closed spec fn view(&self) -> Seq<Seq<bool>> {
        Seq::new(self.bits@.len(), |x: int| self.bits@[x]@)
    }
}

impl Flags {
    /// The number of columns.
    pub closed spec fn side(&self) -> int {
        self.n as int
    }

    /// Whether the grid is square.
    pub closed spec fn wf(&self) -> bool {
        is_square(self@, self.n as int)
    }

    /// Builds a grid of `n` columns with no cell marked.
    pub fn new(n: usize) -> (f: Flags)
        ensures
            f.wf(),
            f.side() == n,
            is_square(f@, n as int),
            forall|x: int, y: int| 0 <= x < n && 0 <= y < n ==> !(#[trigger] f@[x][y]),
    {
        let mut bits: Vec<Vec<bool>> = Vec::new();
        let mut x: usize = 0;
        while x < n
            invariant
                x <= n,
                bits@.len() == x,
                forall|i: int| 0 <= i < x ==> (#[trigger] bits@[i])@.len() == n,
                forall|i: int, j: int| 0 <= i < x && 0 <= j < n ==> !(#[trigger] bits@[i]@[j]),
            decreases n - x,
        {
            let mut column: Vec<bool> = Vec::new();
            let mut y: usize = 0;
            while y < n
                invariant
                    y <= n,
                    column@.len() == y,
                    forall|j: int| 0 <= j < y ==> !(#[trigger] column@[j]),
                decreases n - y,
            {
                column.push(false);
                y += 1;
            }
            bits.push(column);
            x += 1;
        }
        Flags { n, bits }
    }

    /// Tells whether the cell at `(x, y)` is marked.
    pub fn get(&self, x: usize, y: usize) -> (marked: bool)
        requires
            self.wf(),
            x < self.side(),
            y < self.side(),
        ensures
            marked == self@[x as int][y as int],
    {
        assert(self@[x as int] == self.bits@[x as int]@);
        self.bits[x][y]
    }

    /// Marks the cell at `(x, y)`.
    pub fn set(&mut self, x: usize, y: usize)
        requires
            old(self).wf(),
            x < old(self).side(),
            y < old(self).side(),
        ensures
            final(self).wf(),
            final(self).side() == old(self).side(),
            final(self)@ == set_cell(old(self)@, x as int, y as int, true),
    {
        assert(self@[x as int] == self.bits@[x as int]@);
        self.bits[x][y] = true;
        assert forall|i: int| 0 <= i < self.n implies #[trigger] self@[i] == set_cell(
            old(self)@,
            x as int,
            y as int,
            true,
        )[i] by {
            assert(old(self)@[i] == old(self).bits@[i]@);
        }
        assert(self@ =~= set_cell(old(self)@, x as int, y as int, true));
    }
}

} // verus!
