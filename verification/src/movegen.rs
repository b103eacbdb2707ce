//! The move generator, one module per kind of piece.

pub mod bishop;
pub mod castle;
pub mod dispatch;
pub mod king;
pub mod knight;
pub mod pawn;
pub mod queen;
pub mod rook;
pub mod slider;
pub mod types;
