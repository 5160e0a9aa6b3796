use vstd::prelude::*;

verus! {

/// Every way in which an operation of the rules kernel can be refused.
#[derive(Clone, Copy, Debug, PartialEq, Eq, Structural)]
pub enum TakError {
    /// The point lies outside the board.
    InvalidPoint,
    /// The text is not a move in either notation.
    InvalidNotation,
    /// A placement on a square that already holds pieces.
    OccupiedSquare,
    /// A piece would land on a capstone.
    OntoCapstone,
    /// A piece other than a capstone would land on a standing stone.
    OntoStanding,
    /// The player has no more pieces of that kind.
    PieceExhausted,
    /// The player is not the one to move.
    WrongTurn,
    /// Only flat stones may be placed on the first two turns.
    MustPlaceFlatOnOpening,
    /// On the first two turns each player places a piece of the opponent.
    MustPlaceOpponentPieceOnOpening,
    /// After the opening each player places pieces of their own colour.
    MustPlaceOwnPiece,
    /// A slide carries more pieces than the board is wide.
    CarryLimitExceeded,
    /// The drops of a slide do not add up to the pieces carried.
    DropMismatch,
    /// A slide carries more pieces than the stack holds.
    InsufficientPile,
    /// The stack is not controlled by the player to move.
    NotMover,
    /// A slide would leave the board.
    OffBoard,
    /// The packed board has no continuation word left for a tall stack.
    OutOfCapacity,
    /// A placement was asked for without saying whose piece it is.
    MissingOwner,
}

} // verus!
