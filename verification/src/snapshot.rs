//! A position reduced to what decides whether two positions are the same
//! for the rule of repetition.

use vstd::prelude::*;
use crate::crights::CastlingRights;
use crate::enpassant::is_enpassant_vuln;
use crate::gamestate::{ep_file, ChessGame};
use crate::grid::File;
use crate::piece::{Color, PieceGrid};

verus! {

/// What identifies a position for the rule of repetition.
#[derive(Clone, Copy, PartialEq, Eq, Debug)]
pub struct BoardSnapshot {
    pub p_lut: PieceGrid,
    pub active_player: Color,
    pub crights: CastlingRights,
    pub enpassant_vuln: Option<File>,
}

/// What stands where, who is to move, the castling rights, and the file of
/// a possible capture en passant.
pub fn capture_snapshot(state: &ChessGame) -> (snapshot: BoardSnapshot)
    requires
        state.boards_ok(),
    ensures
        snapshot.p_lut == state.p_lut,
        snapshot.active_player == state.bbs.active_player,
        snapshot.crights == state.crights,
        snapshot.enpassant_vuln == ep_file(state.abs()),
{
    BoardSnapshot {
        p_lut: state.p_lut,
        active_player: state.active_player(),
        crights: state.crights,
        enpassant_vuln: is_enpassant_vuln(state),
    }
}

} // verus!
