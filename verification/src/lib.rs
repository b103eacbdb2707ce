//! A chess engine core: an incrementally maintained board, a move generator
//! filtered for king safety, and a time-bounded alpha-beta search.

pub mod attack;
pub mod bitboard;
pub mod bits;
pub mod cli;
pub mod cache;
pub mod coordinates;
pub mod crights;
pub mod enpassant;
pub mod eval;
pub mod gamestate;
pub mod grid;
pub mod laneutils;
pub mod makemove;
pub mod mat_eval;
pub mod misc;
pub mod mov;
pub mod movegen;
pub mod movesort;
pub mod persistence;
pub mod piece;
pub mod repetitions;
pub mod rmrel;
pub mod rules;
pub mod search;
pub mod sliders;
pub mod snapshot;
pub mod stdinit;
