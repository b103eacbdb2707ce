//! Rooks.

use vstd::prelude::*;
use crate::coordinates::{FileMajorCS, RankMajorCS};
use crate::gamestate::{same_position, ChessGame};
use crate::makemove::lemma_same_position_valid;
use crate::mov::AnyMove;
use crate::movegen::slider::{lemma_one_line, movegen_sliders, slide_listed};
use crate::movegen::types::{one_if, tally, MGContext};
use crate::piece::Species;

verus! {

/// Lists the moves of the rooks of the side to move: along files first,
/// then along ranks.
pub fn movegen_rooks(ctx: &mut MGContext, state: &mut ChessGame)
    requires
        old(ctx).wf(),
        old(state).coherent(),
        old(state).abs().playable(),
    ensures
        same_position(*final(state), *old(state)),
        final(ctx).continues(*old(ctx)),
        forall|mv: AnyMove|
            #![trigger final(ctx).listed().contains(mv)]
            final(ctx).listed().contains(mv) <==> old(ctx).listed().contains(mv) || slide_listed(
                old(state).abs(),
                old(ctx).filter,
                mv,
                Species::Rook,
                1,
            ) || slide_listed(old(state).abs(), old(ctx).filter, mv, Species::Rook, 0),
        forall|mv: AnyMove|
            #![trigger tally(final(ctx).listed(), mv)]
            tally(final(ctx).listed(), mv) == tally(old(ctx).listed(), mv) + one_if(
                slide_listed(old(state).abs(), old(ctx).filter, mv, Species::Rook, 1) || slide_listed(
                    old(state).abs(),
                    old(ctx).filter,
                    mv,
                    Species::Rook,
                    0,
                ),
            ),
{
    let ghost p = state.abs();
    let ghost pre_state = *state;
    let ghost pre = *ctx;
    movegen_sliders::<FileMajorCS>(ctx, state, Species::Rook);
    let ghost mid = *ctx;
    proof {
        lemma_same_position_valid(pre_state, *state);
    }
    movegen_sliders::<RankMajorCS>(ctx, state, Species::Rook);
    proof {
        crate::movegen::types::lemma_continues(pre, mid, *ctx);
        assert forall|mv: AnyMove|
            #![trigger tally(ctx.listed(), mv)]
            tally(ctx.listed(), mv) == tally(pre.listed(), mv) + one_if(
                slide_listed(p, pre.filter, mv, Species::Rook, 1) || slide_listed(p, pre.filter, mv, Species::Rook, 0),
            ) by {
            assert(tally(mid.listed(), mv) == tally(pre.listed(), mv) + one_if(
                slide_listed(p, pre.filter, mv, Species::Rook, 1),
            ));
            assert(tally(ctx.listed(), mv) == tally(mid.listed(), mv) + one_if(
                slide_listed(p, pre.filter, mv, Species::Rook, 0),
            ));
            if slide_listed(p, pre.filter, mv, Species::Rook, 1) {
                lemma_one_line(p, mv->Piece_0, Species::Rook, 1, 0);
            }
        }
    }
}

} // verus!
