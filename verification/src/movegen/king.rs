//! Kings: the tiles they attack, and their moves.

use vstd::prelude::*;
use crate::bitboard::Bitboard;
use crate::bits::{bit_at, bit_mask, lemma_bit_logic, lemma_bit_masks, lemma_bit_shl, lemma_bit_shr};
use crate::bits::{lemma_bit_single, NOT_FILE_A, NOT_FILE_H};
use crate::coordinates::{Coordinate, RankMajorCS};
use crate::gamestate::{same_position, ChessGame};
use crate::grid::{file_of, rank_of};
use crate::mov::AnyMove;
use crate::movegen::slider::{movegen_walkers, Walk};
use crate::movegen::types::{keeps, one_if, tally, MGContext};
use crate::piece::Species;
use crate::rules::king_rule;

verus! {

/// Tiles `a` and `b` are neighbours: different tiles at most one rank and
/// one file apart.
pub open spec fn king_step(a: int, b: int) -> bool {
    &&& 0 <= a < 64 && 0 <= b < 64
    &&& a != b
    &&& -1 <= rank_of(a) - rank_of(b) <= 1
    &&& -1 <= file_of(a) - file_of(b) <= 1
}

/// The bits of a tile together with its neighbours on the same rank.
pub proof fn lemma_row_of(o: int, spot: u64, east: u64, west: u64, k: int)
    requires
        0 <= o < 64,
        spot == bit_mask(o),
        east == (spot & NOT_FILE_H) << 1,
        west == (spot & NOT_FILE_A) >> 1,
    ensures
        bit_at(east, k) == (k == o + 1 && o % 8 != 7),
        bit_at(west, k) == (k == o - 1 && o % 8 != 0),
{
    lemma_bit_shl(spot & NOT_FILE_H, 1, k);
    lemma_bit_logic(spot, NOT_FILE_H, k - 1);
    lemma_bit_single(o, k - 1);
    lemma_bit_masks(o);
    if k >= 0 {
        lemma_bit_shr(spot & NOT_FILE_A, 1, k);
    }
    lemma_bit_logic(spot, NOT_FILE_A, k + 1);
    lemma_bit_single(o, k + 1);
}

/// The tiles next to `origin`.
pub fn king_attack(origin: Coordinate<RankMajorCS>) -> (bb: Bitboard<RankMajorCS>)
    requires
        origin.wf(),
    ensures
        forall|j: int| 0 <= j < 64 ==> bit_at(bb.raw_bb, j) == king_step(origin.index as int, j),
{
    let spot: u64 = 1u64 << (origin.index() as u64);
    let east: u64 = (spot & NOT_FILE_H) << 1;
    let west: u64 = (spot & NOT_FILE_A) >> 1;
    let row: u64 = spot | east | west;
    let up: u64 = row << 8;
    let down: u64 = row >> 8;
    let raw: u64 = east | west | up | down;
    proof {
        let o = origin.index as int;
        assert(spot == bit_mask(o));
        assert forall|k: int| bit_at(row, k) == (k == o || (k == o + 1 && o % 8 != 7) || (k == o - 1 && o
            % 8 != 0)) by {
            lemma_row_of(o, spot, east, west, k);
            lemma_bit_logic(spot | east, west, k);
            lemma_bit_logic(spot, east, k);
            lemma_bit_single(o, k);
        }
        assert forall|j: int| 0 <= j < 64 implies bit_at(raw, j) == king_step(o, j) by {
            lemma_row_of(o, spot, east, west, j);
            lemma_bit_logic(east | west | up, down, j);
            lemma_bit_logic(east | west, up, j);
            lemma_bit_logic(east, west, j);
            lemma_bit_shl(row, 8, j);
            lemma_bit_shr(row, 8, j);
        }
    }
    Bitboard::from_raw(raw)
}

/// Lists the moves of the king of the side to move.
pub fn movegen_king(ctx: &mut MGContext, state: &mut ChessGame)
    requires
        old(ctx).wf(),
        old(state).coherent(),
        old(state).abs().playable(),
    ensures
        same_position(*final(state), *old(state)),
        final(ctx).continues(*old(ctx)),
        forall|mv: AnyMove|
            #![trigger final(ctx).listed().contains(mv)]
            final(ctx).listed().contains(mv) <==> old(ctx).listed().contains(mv) || (mv is Piece && king_rule(
                old(state).abs(),
                mv->Piece_0,
            ) && keeps(old(state).abs(), old(ctx).filter, mv->Piece_0)),        forall|mv: AnyMove|
            #![trigger tally(final(ctx).listed(), mv)]
            tally(final(ctx).listed(), mv) == tally(old(ctx).listed(), mv) + one_if(
                mv is Piece && king_rule(old(state).abs(), mv->Piece_0) && keeps(
                    old(state).abs(),
                    old(ctx).filter,
                    mv->Piece_0,
                ),
            ),
{
    movegen_walkers::<RankMajorCS>(ctx, state, Species::King, Walk::Step);
}

} // verus!
