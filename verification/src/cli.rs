//! What the board looks like on a terminal.

use vstd::prelude::*;
use crate::piece::{Color, Piece, Species};

verus! {

/// The chess symbol of a piece.
pub fn get_unicode_symbol(piece: Piece) -> (symbol: &'static str)
    ensures
        symbol@ == spec_unicode_symbol(piece),
{
    match piece.color() {
        Color::White => match piece.species() {
            Species::Pawn => "♙",
            Species::Rook => "♖",
            Species::Knight => "♘",
            Species::Bishop => "♗",
            Species::Queen => "♕",
            Species::King => "♔",
        },
        Color::Black => match piece.species() {
            Species::Pawn => "♟",
            Species::Rook => "♜",
            Species::Knight => "♞",
            Species::Bishop => "♝",
            Species::Queen => "♛",
            Species::King => "♚",
        },
    }
}

/// The chess symbol of a piece: the outlined figures for White, the solid
/// ones for Black.
pub open spec fn spec_unicode_symbol(piece: Piece) -> Seq<char> {
    match piece.color {
        Color::White => match piece.species {
            Species::Pawn => "♙"@,
            Species::Rook => "♖"@,
            Species::Knight => "♘"@,
            Species::Bishop => "♗"@,
            Species::Queen => "♕"@,
            Species::King => "♔"@,
        },
        Color::Black => match piece.species {
            Species::Pawn => "♟"@,
            Species::Rook => "♜"@,
            Species::Knight => "♞"@,
            Species::Bishop => "♝"@,
            Species::Queen => "♛"@,
            Species::King => "♚"@,
        },
    }
}

} // verus!
