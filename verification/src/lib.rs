//! A verified rules engine for Reversi (Othello): board state, legal-move
//! determination, disk flipping, turn alternation, and end-of-game scoring
//! on a square board of configurable even size.

pub mod board;
pub mod game;
pub mod model;

pub use board::Board;
pub use board::Disk;
pub use game::PlayerId;
pub use game::Reversi;
pub use game::ReversiError;
pub use model::MAX_BOARD_SIZE;
pub use model::MIN_BOARD_SIZE;
