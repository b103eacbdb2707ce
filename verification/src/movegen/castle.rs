//! Castling.

use vstd::prelude::*;
use crate::attack::{is_attacked, tile_attacked};
use crate::bitboard::Bitboard;
use crate::coordinates::{encode_in, Coordinate, StandardCS};
use crate::gamestate::ChessGame;
use crate::grid::{File, Rank, Side, StandardCoordinate};
use crate::mov::AnyMove;
use crate::movegen::types::{lemma_contains_push, lemma_continues, MGContext, lemma_tally_push, one_if, tally};
use crate::rules::castle_legal;

verus! {

/// Whether a tile of the first rank of the side to move is free of
/// attack; where `must_be_empty` is set, also whether it is empty.
fn castle_tile_ok(state: &ChessGame, file: File, must_be_empty: bool, must_be_safe: bool) -> (ok: bool)
    requires
        state.boards_ok(),
    ensures
        ok == ((must_be_safe ==> !tile_attacked(
            state.p_lut@,
            state.bbs.active_player,
            crate::grid::tile(crate::grid::base_rank_of(state.bbs.active_player), file.spec_index()),
        )) && (must_be_empty ==> state.p_lut@[crate::grid::tile(
            crate::grid::base_rank_of(state.bbs.active_player),
            file.spec_index(),
        )] is None)),
{
    let base_rank = Rank::base_rank(state.active_player());
    let sq = StandardCoordinate::new(base_rank, file);
    let mut ok: bool = true;
    if must_be_safe {
        ok = ok && !is_attacked(&state.bbs, sq);
        assert(state.bbs.coherent(state.p_lut@));
    }
    if must_be_empty {
        let occupancy: Bitboard<StandardCS> = state.bbs.occupancy();
        ok = ok && !occupancy.includes(Coordinate::from_std(sq));
        assert(occupancy.has(sq.index as int) == (state.p_lut@[sq.index as int] is Some));
        assert(encode_in(0, sq.index as int) == sq.index);
    }
    ok
}

/// Lists the castles that are legal for the side to move: queenside first.
pub fn movegen_castle(ctx: &mut MGContext, state: &ChessGame)
    requires
        old(ctx).wf(),
        state.boards_ok(),
    ensures
        final(ctx).continues(*old(ctx)),
        forall|mv: AnyMove|
            #![trigger final(ctx).listed().contains(mv)]
            final(ctx).listed().contains(mv) <==> old(ctx).listed().contains(mv) || (mv is Castle && castle_legal(
                state.abs(),
                mv->Castle_0,
            )),
        forall|mv: AnyMove|
            #![trigger tally(final(ctx).listed(), mv)]
            tally(final(ctx).listed(), mv) == tally(old(ctx).listed(), mv) + one_if(
                mv is Castle && castle_legal(state.abs(), mv->Castle_0),
            ),
{
    let ghost pre = *ctx;
    movegen_castle_queenside(ctx, state);
    let ghost mid = *ctx;
    movegen_castle_kingside(ctx, state);
    proof {
        lemma_continues(pre, mid, *ctx);
        assert forall|mv: AnyMove|
            #![trigger ctx.listed().contains(mv)]
            ctx.listed().contains(mv) <==> pre.listed().contains(mv) || (mv is Castle && castle_legal(
                state.abs(),
                mv->Castle_0,
            )) by {
            assert(mid.listed().contains(mv) <==> pre.listed().contains(mv) || (mv == AnyMove::Castle(
                Side::Queenside,
            ) && castle_legal(state.abs(), Side::Queenside)));
            assert(ctx.listed().contains(mv) <==> mid.listed().contains(mv) || (mv == AnyMove::Castle(
                Side::Kingside,
            ) && castle_legal(state.abs(), Side::Kingside)));
        }
        assert forall|mv: AnyMove|
            #![trigger tally(ctx.listed(), mv)]
            tally(ctx.listed(), mv) == tally(pre.listed(), mv) + one_if(
                mv is Castle && castle_legal(state.abs(), mv->Castle_0),
            ) by {
            assert(tally(mid.listed(), mv) == tally(pre.listed(), mv) + one_if(
                mv == AnyMove::Castle(Side::Queenside) && castle_legal(state.abs(), Side::Queenside),
            ));
            assert(tally(ctx.listed(), mv) == tally(mid.listed(), mv) + one_if(
                mv == AnyMove::Castle(Side::Kingside) && castle_legal(state.abs(), Side::Kingside),
            ));
        }
    }
}

/// Lists the kingside castle if it is legal: the right is set, the tiles
/// F and G of the first rank are empty, and none of E, F and G is
/// attacked.
pub fn movegen_castle_kingside(ctx: &mut MGContext, state: &ChessGame)
    requires
        old(ctx).wf(),
        state.boards_ok(),
    ensures
        final(ctx).continues(*old(ctx)),
        forall|mv: AnyMove|
            #![trigger final(ctx).listed().contains(mv)]
            final(ctx).listed().contains(mv) <==> old(ctx).listed().contains(mv) || (mv == AnyMove::Castle(
                Side::Kingside,
            ) && castle_legal(state.abs(), Side::Kingside)),
        forall|mv: AnyMove|
            #![trigger tally(final(ctx).listed(), mv)]
            tally(final(ctx).listed(), mv) == tally(old(ctx).listed(), mv) + one_if(
                mv == AnyMove::Castle(Side::Kingside) && castle_legal(state.abs(), Side::Kingside),
            ),
{
    let ghost pre = *ctx;
    proof {
        assert(ctx.pmoves@.subrange(0, pre.pmoves@.len() as int) =~= pre.pmoves@);
    }
    let mut can_castle: bool = true;
    can_castle = can_castle && castle_tile_ok(state, File::G, true, true);
    can_castle = can_castle && castle_tile_ok(state, File::F, true, true);
    can_castle = can_castle && castle_tile_ok(state, File::E, false, true);
    can_castle = can_castle && state.crights.get(Side::Kingside, state.active_player());
    if can_castle {
        ctx.push_legal(AnyMove::Castle(Side::Kingside));
    }
    proof {
        assert forall|mv: AnyMove|
            #![trigger ctx.listed().contains(mv)]
            ctx.listed().contains(mv) <==> pre.listed().contains(mv) || (mv == AnyMove::Castle(Side::Kingside)
                && castle_legal(state.abs(), Side::Kingside)) by {
            lemma_contains_push(pre.listed(), AnyMove::Castle(Side::Kingside), mv);
        }
        assert forall|mv: AnyMove|
            #![trigger tally(ctx.listed(), mv)]
            tally(ctx.listed(), mv) == tally(pre.listed(), mv) + one_if(
                mv == AnyMove::Castle(Side::Kingside) && castle_legal(state.abs(), Side::Kingside),
            ) by {
            lemma_tally_push(pre.listed(), AnyMove::Castle(Side::Kingside), mv);
        }
    }
}

/// Lists the queenside castle if it is legal: the right is set, the tiles
/// B, C and D of the first rank are empty, and none of C, D and E is
/// attacked.
pub fn movegen_castle_queenside(ctx: &mut MGContext, state: &ChessGame)
    requires
        old(ctx).wf(),
        state.boards_ok(),
    ensures
        final(ctx).continues(*old(ctx)),
        forall|mv: AnyMove|
            #![trigger final(ctx).listed().contains(mv)]
            final(ctx).listed().contains(mv) <==> old(ctx).listed().contains(mv) || (mv == AnyMove::Castle(
                Side::Queenside,
            ) && castle_legal(state.abs(), Side::Queenside)),
        forall|mv: AnyMove|
            #![trigger tally(final(ctx).listed(), mv)]
            tally(final(ctx).listed(), mv) == tally(old(ctx).listed(), mv) + one_if(
                mv == AnyMove::Castle(Side::Queenside) && castle_legal(state.abs(), Side::Queenside),
            ),
{
    let ghost pre = *ctx;
    proof {
        assert(ctx.pmoves@.subrange(0, pre.pmoves@.len() as int) =~= pre.pmoves@);
    }
    let mut can_castle: bool = true;
    can_castle = can_castle && castle_tile_ok(state, File::C, true, true);
    can_castle = can_castle && castle_tile_ok(state, File::D, true, true);
    can_castle = can_castle && castle_tile_ok(state, File::B, true, false);
    can_castle = can_castle && castle_tile_ok(state, File::E, false, true);
    can_castle = can_castle && state.crights.get(Side::Queenside, state.active_player());
    if can_castle {
        ctx.push_legal(AnyMove::Castle(Side::Queenside));
    }
    proof {
        assert forall|mv: AnyMove|
            #![trigger ctx.listed().contains(mv)]
            ctx.listed().contains(mv) <==> pre.listed().contains(mv) || (mv == AnyMove::Castle(Side::Queenside)
                && castle_legal(state.abs(), Side::Queenside)) by {
            lemma_contains_push(pre.listed(), AnyMove::Castle(Side::Queenside), mv);
        }
        assert forall|mv: AnyMove|
            #![trigger tally(ctx.listed(), mv)]
            tally(ctx.listed(), mv) == tally(pre.listed(), mv) + one_if(
                mv == AnyMove::Castle(Side::Queenside) && castle_legal(state.abs(), Side::Queenside),
            ) by {
            lemma_tally_push(pre.listed(), AnyMove::Castle(Side::Queenside), mv);
        }
    }
}

} // verus!
