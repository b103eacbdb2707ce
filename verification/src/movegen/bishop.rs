//! Bishops.

use vstd::prelude::*;
use crate::coordinates::{AntidiagonalMajorCS, ProdiagonalMajorCS};
use crate::gamestate::{same_position, ChessGame};
use crate::makemove::lemma_same_position_valid;
use crate::mov::AnyMove;
use crate::movegen::slider::{lemma_one_line, movegen_sliders, slide_listed};
use crate::movegen::types::{one_if, tally, MGContext};
use crate::piece::Species;

verus! {

/// Lists the moves of the bishops of the side to move: along up-right
/// diagonals first, then along up-left ones.
pub fn movegen_bishops(ctx: &mut MGContext, state: &mut ChessGame)
    requires
        old(ctx).wf(),
        old(state).coherent(),
        old(state).abs().playable(),
    ensures
        same_position(*final(state), *old(state)),
        final(ctx).continues(*old(ctx)),
        forall|mv: AnyMove|
            #![trigger final(ctx).listed().contains(mv)]
            final(ctx).listed().contains(mv) <==> old(ctx).listed().contains(mv) || slide_listed(
                old(state).abs(),
                old(ctx).filter,
                mv,
                Species::Bishop,
                2,
            ) || slide_listed(old(state).abs(), old(ctx).filter, mv, Species::Bishop, 3),
        forall|mv: AnyMove|
            #![trigger tally(final(ctx).listed(), mv)]
            tally(final(ctx).listed(), mv) == tally(old(ctx).listed(), mv) + one_if(
                slide_listed(old(state).abs(), old(ctx).filter, mv, Species::Bishop, 2) || slide_listed(
                    old(state).abs(),
                    old(ctx).filter,
                    mv,
                    Species::Bishop,
                    3,
                ),
            ),
{
    let ghost p = state.abs();
    let ghost pre_state = *state;
    let ghost pre = *ctx;
    movegen_sliders::<ProdiagonalMajorCS>(ctx, state, Species::Bishop);
    let ghost mid = *ctx;
    proof {
        lemma_same_position_valid(pre_state, *state);
    }
    movegen_sliders::<AntidiagonalMajorCS>(ctx, state, Species::Bishop);
    proof {
        crate::movegen::types::lemma_continues(pre, mid, *ctx);
        assert forall|mv: AnyMove|
            #![trigger tally(ctx.listed(), mv)]
            tally(ctx.listed(), mv) == tally(pre.listed(), mv) + one_if(
                slide_listed(p, pre.filter, mv, Species::Bishop, 2) || slide_listed(p, pre.filter, mv, Species::Bishop, 3),
            ) by {
            assert(tally(mid.listed(), mv) == tally(pre.listed(), mv) + one_if(
                slide_listed(p, pre.filter, mv, Species::Bishop, 2),
            ));
            assert(tally(ctx.listed(), mv) == tally(mid.listed(), mv) + one_if(
                slide_listed(p, pre.filter, mv, Species::Bishop, 3),
            ));
            if slide_listed(p, pre.filter, mv, Species::Bishop, 2) {
                lemma_one_line(p, mv->Piece_0, Species::Bishop, 2, 3);
            }
        }
    }
}

} // verus!
