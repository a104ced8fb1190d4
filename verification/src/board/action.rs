use vstd::prelude::*;
use crate::constants::RED;

verus! {

/// A move of one piece from the cell `(from_x, from_y)` to the cell `(to_x, to_y)`.
#[derive(Clone, Copy, Hash, Eq, PartialEq, Structural, Debug)]
pub struct Action {
    pub from_x: u8,
    pub from_y: u8,
    pub to_x: u8,
    pub to_y: u8,
}

impl Action {
    /// Whether the move does not lead away from the corner that `player` heads
    /// for, on either axis: `RED` heads for the high corner, any other player for
    /// the low corner.
    pub open spec fn spec_is_forward(&self, player: usize) -> bool {
        if player == RED {
            self.to_x >= self.from_x && self.to_y >= self.from_y
        } else {
            self.to_x <= self.from_x && self.to_y <= self.from_y
        }
    }

    /// Builds a move from four coordinates, each reduced modulo 256.
    pub fn from_usize(from_x: usize, from_y: usize, to_x: usize, to_y: usize) -> (a: Action)
        ensures
            a.from_x == from_x % 256,
            a.from_y == from_y % 256,
            a.to_x == to_x % 256,
            a.to_y == to_y % 256,
    {
        Action {
            from_x: (from_x % 256) as u8,
            from_y: (from_y % 256) as u8,
            to_x: (to_x % 256) as u8,
            to_y: (to_y % 256) as u8,
        }
    }

    /// Tells whether the move is forward for `player`.
    pub fn is_forward(&self, player: usize) -> (forward: bool)
        ensures
            forward == self.spec_is_forward(player),
    {
        if player == RED {
            self.to_x >= self.from_x && self.to_y >= self.from_y
        } else {
            self.to_x <= self.from_x && self.to_y <= self.from_y
        }
    }
}

} // verus!
