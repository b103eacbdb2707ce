//! Moves as they cross the library's boundary.

use vstd::prelude::*;
use crate::gamestate::ChessGame;
use crate::grid::{Rank, Side, StandardCoordinate};
use crate::misc::pick;
use crate::piece::Species;
use crate::rules::spec_target;

verus! {

/// A piece going from one tile to another, with the species a pawn turns
/// into when it reaches the last rank.
#[derive(Clone, Copy, Debug, PartialEq, Eq)]
pub struct PieceMove {
    pub origin: StandardCoordinate,
    pub destin: StandardCoordinate,
    pub promote: Option<Species>,
}

impl PieceMove {
    pub open spec fn wf(self) -> bool {
        self.origin.wf() && self.destin.wf()
    }

    /// A move without promotion.
    pub fn new_basic(origin: StandardCoordinate, destin: StandardCoordinate) -> (m: Self)
        ensures
            m == (PieceMove { origin, destin, promote: None }),
    {
        Self { origin, destin, promote: None }
    }

    /// Whether two moves are the same move.
    pub fn same(self, other: PieceMove) -> (b: bool)
        ensures
            b == (self == other),
    {
        let promote_same: bool = match (self.promote, other.promote) {
            (None, None) => true,
            (Some(a), Some(b)) => a == b,
            _ => false,
        };
        self.origin == other.origin && self.destin == other.destin && promote_same
    }
}

/// A move: of a piece, or a castle.
#[derive(Clone, Copy, Debug, PartialEq, Eq)]
pub enum AnyMove {
    Piece(PieceMove),
    Castle(Side),
}

impl AnyMove {
    pub open spec fn wf(self) -> bool {
        match self {
            AnyMove::Piece(m) => m.wf(),
            AnyMove::Castle(_) => true,
        }
    }

    /// Whether two moves are the same move.
    pub fn same(self, other: AnyMove) -> (b: bool)
        ensures
            b == (self == other),
    {
        match (self, other) {
            (AnyMove::Piece(a), AnyMove::Piece(b)) => a.same(b),
            (AnyMove::Castle(a), AnyMove::Castle(b)) => a == b,
            _ => false,
        }
    }
}

/// The tile whose occupant the move captures: the destination, except for
/// a capture en passant.
pub fn get_target_sq(pmgmove: PieceMove, state: &ChessGame) -> (sq: StandardCoordinate)
    requires
        state.boards_ok(),
        pmgmove.wf(),
        state.p_lut@[pmgmove.origin.index as int] is Some,
    ensures
        sq.index == spec_target(state.abs(), pmgmove),
        sq.wf(),
{
    let species = match state.p_lut.get(pmgmove.origin) {
        Some(p) => p.species(),
        None => Species::Pawn,
    };
    let destin_empty: bool = match state.p_lut.get(pmgmove.destin) {
        Some(_) => false,
        None => true,
    };
    let is_enpassant: bool = (species == Species::Pawn) && (pmgmove.origin.file() != pmgmove.destin.file())
        && destin_empty;
    let ep_targ_rank = Rank::pdj_rank(state.active_player().oppo());
    let target_rank = pick(is_enpassant, ep_targ_rank, pmgmove.destin.rank());
    StandardCoordinate::new(target_rank, pmgmove.destin.file())
}

} // verus!
