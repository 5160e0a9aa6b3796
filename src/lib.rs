//! Rules kernel for Tak: pieces and stacks, two board representations, move
//! notation, the turn state machine, win detection and move generation.

pub mod ai;
pub mod board;
pub mod board5;
pub mod board_naive;
pub mod board_text;
pub mod error;
pub mod game;
pub mod piece;
pub mod render;
pub mod setup;
pub mod slide;
pub mod point;
pub mod text;
pub mod turn;
pub mod win;

pub use ai::Ai;
pub use board::Board;
pub use board::PieceCount;
pub use board::PieceIter;
pub use board5::Board5;
pub use board_naive::NaiveBoard;
pub use board_naive::Square;
pub use error::TakError;
pub use game::Game;
pub use piece::Piece;
pub use piece::Player;
pub use piece::Stone;
pub use point::Point;
pub use turn::Direction;
pub use turn::Turn;
