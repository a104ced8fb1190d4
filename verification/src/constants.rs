use vstd::prelude::*;

verus! {

/// Cell code of an empty square.
pub const EMPTY: usize = 0;

/// Cell code of the side that starts in the low corner and heads for the high corner.
pub const RED: usize = 1;

/// Cell code of the side that starts in the high corner and heads for the low corner.
pub const BLUE: usize = 2;

/// The other side: `BLUE` for `RED` and `RED` for `BLUE`.
pub open spec fn spec_opponent(player: usize) -> usize {
    (3 - player) as usize
}

/// Returns the side that moves after `player`.
pub fn opponent(player: usize) -> (other: usize)
    requires
        player == RED || player == BLUE,
    ensures
        other == spec_opponent(player),
        other == RED || other == BLUE,
        other != player,
{
    3 - player
}

} // verus!
