//! Knights: the tiles they attack, and their moves.

use vstd::prelude::*;
use crate::bitboard::Bitboard;
use crate::bits::{bit_at, bit_mask, lemma_bit_logic, lemma_bit_masks, lemma_bit_shl, lemma_bit_shr};
use crate::bits::{lemma_bit_single, NOT_FILE_A, NOT_FILE_AB, NOT_FILE_GH, NOT_FILE_H};
use crate::coordinates::{Coordinate, RankMajorCS};
use crate::gamestate::{same_position, ChessGame};
use crate::grid::{file_of, rank_of};
use crate::mov::AnyMove;
use crate::movegen::king::lemma_row_of;
use crate::movegen::slider::{movegen_walkers, Walk};
use crate::movegen::types::{keeps, one_if, tally, MGContext};
use crate::piece::Species;
use crate::rules::knight_rule;

verus! {

/// Tiles `a` and `b` are a knight's jump apart: two ranks and one file, or
/// one rank and two files.
pub open spec fn knight_step(a: int, b: int) -> bool {
    let dr = rank_of(a) - rank_of(b);
    let df = file_of(a) - file_of(b);
    &&& 0 <= a < 64 && 0 <= b < 64
    &&& ((dr == 2 || dr == -2) && (df == 1 || df == -1)) || ((dr == 1 || dr == -1) && (df == 2 || df
        == -2))
}

/// The tiles a knight's jump away from `origin`.
pub fn knight_attack(origin: Coordinate<RankMajorCS>) -> (bb: Bitboard<RankMajorCS>)
    requires
        origin.wf(),
    ensures
        forall|j: int| 0 <= j < 64 ==> bit_at(bb.raw_bb, j) == knight_step(origin.index as int, j),
{
    let spot: u64 = 1u64 << (origin.index() as u64);
    let east: u64 = (spot & NOT_FILE_H) << 1;
    let west: u64 = (spot & NOT_FILE_A) >> 1;
    let east2: u64 = (spot & NOT_FILE_GH) << 2;
    let west2: u64 = (spot & NOT_FILE_AB) >> 2;
    let near: u64 = east | west;
    let far: u64 = east2 | west2;
    let raw: u64 = (near << 16) | (near >> 16) | (far << 8) | (far >> 8);
    proof {
        let o = origin.index as int;
        assert(spot == bit_mask(o));
        lemma_bit_masks(o);
        assert forall|k: int| bit_at(near, k) == ((k == o + 1 && o % 8 != 7) || (k == o - 1 && o % 8
            != 0)) by {
            lemma_row_of(o, spot, east, west, k);
            lemma_bit_logic(east, west, k);
        }
        assert forall|k: int| bit_at(far, k) == ((k == o + 2 && o % 8 <= 5) || (k == o - 2 && o % 8
            >= 2)) by {
            lemma_bit_logic(east2, west2, k);
            lemma_bit_shl(spot & NOT_FILE_GH, 2, k);
            lemma_bit_logic(spot, NOT_FILE_GH, k - 2);
            lemma_bit_single(o, k - 2);
            if k >= 0 {
                lemma_bit_shr(spot & NOT_FILE_AB, 2, k);
            }
            lemma_bit_logic(spot, NOT_FILE_AB, k + 2);
            lemma_bit_single(o, k + 2);
        }
        assert forall|j: int| 0 <= j < 64 implies bit_at(raw, j) == knight_step(o, j) by {
            lemma_bit_logic((near << 16) | (near >> 16) | (far << 8), far >> 8, j);
            lemma_bit_logic((near << 16) | (near >> 16), far << 8, j);
            lemma_bit_logic(near << 16, near >> 16, j);
            lemma_bit_shl(near, 16, j);
            lemma_bit_shr(near, 16, j);
            lemma_bit_shl(far, 8, j);
            lemma_bit_shr(far, 8, j);
        }
    }
    Bitboard::from_raw(raw)
}

/// Lists the moves of the knights of the side to move.
pub fn movegen_knights(ctx: &mut MGContext, state: &mut ChessGame)
    requires
        old(ctx).wf(),
        old(state).coherent(),
        old(state).abs().playable(),
    ensures
        same_position(*final(state), *old(state)),
        final(ctx).continues(*old(ctx)),
        forall|mv: AnyMove|
            #![trigger final(ctx).listed().contains(mv)]
            final(ctx).listed().contains(mv) <==> old(ctx).listed().contains(mv) || (mv is Piece && knight_rule(
                old(state).abs(),
                mv->Piece_0,
            ) && keeps(old(state).abs(), old(ctx).filter, mv->Piece_0)),        forall|mv: AnyMove|
            #![trigger tally(final(ctx).listed(), mv)]
            tally(final(ctx).listed(), mv) == tally(old(ctx).listed(), mv) + one_if(
                mv is Piece && knight_rule(old(state).abs(), mv->Piece_0) && keeps(
                    old(state).abs(),
                    old(ctx).filter,
                    mv->Piece_0,
                ),
            ),
{
    movegen_walkers::<RankMajorCS>(ctx, state, Species::Knight, Walk::Jump);
}

} // verus!
