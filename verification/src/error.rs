use vstd::prelude::*;

verus! {

/// Why a position, a player or a move was turned down.
#[derive(Clone, Copy, Debug, PartialEq, Eq, Structural)]
pub enum EngineError {
    /// The board is not a square of 4 to 256 columns.
    BadShape,
    /// A cell holds a code other than empty, red or blue.
    BadCell,
    /// A side does not have exactly sixteen pieces.
    BadPieceCount,
    /// The player is neither red nor blue.
    BadPlayer,
    /// An end of the move is not a cell of the board.
    MoveOutOfRange,
    /// The origin cell of the move is empty.
    EmptyOrigin,
    /// The move is neither a step into an empty neighbouring cell nor a jump.
    IllegalMove,
    /// The game is decided already, or the player to move has no legal move.
    NoLegalMove,
}

} // verus!
