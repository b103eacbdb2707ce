//! Queens.

use vstd::prelude::*;
use crate::coordinates::{AntidiagonalMajorCS, FileMajorCS, ProdiagonalMajorCS, RankMajorCS};
use crate::gamestate::{same_position, ChessGame};
use crate::makemove::lemma_same_position_valid;
use crate::mov::AnyMove;
use crate::movegen::slider::{lemma_one_line, movegen_sliders, slide_listed};
use crate::movegen::types::{one_if, tally, MGContext};
use crate::piece::Species;

verus! {

/// Lists the moves of the queens of the side to move: along files, ranks,
/// up-right diagonals and up-left diagonals, in that order.
pub fn movegen_queens(ctx: &mut MGContext, state: &mut ChessGame)
    requires
        old(ctx).wf(),
        old(state).coherent(),
        old(state).abs().playable(),
    ensures
        same_position(*final(state), *old(state)),
        final(ctx).continues(*old(ctx)),
        forall|mv: AnyMove|
            #![trigger final(ctx).listed().contains(mv)]
            final(ctx).listed().contains(mv) <==> old(ctx).listed().contains(mv) || slide_listed(
                old(state).abs(),
                old(ctx).filter,
                mv,
                Species::Queen,
                1,
            ) || slide_listed(old(state).abs(), old(ctx).filter, mv, Species::Queen, 0) || slide_listed(
                old(state).abs(),
                old(ctx).filter,
                mv,
                Species::Queen,
                2,
            ) || slide_listed(old(state).abs(), old(ctx).filter, mv, Species::Queen, 3),
        forall|mv: AnyMove|
            #![trigger tally(final(ctx).listed(), mv)]
            tally(final(ctx).listed(), mv) == tally(old(ctx).listed(), mv) + one_if(
                slide_listed(old(state).abs(), old(ctx).filter, mv, Species::Queen, 1) || slide_listed(
                    old(state).abs(),
                    old(ctx).filter,
                    mv,
                    Species::Queen,
                    0,
                ) || slide_listed(old(state).abs(), old(ctx).filter, mv, Species::Queen, 2) || slide_listed(
                    old(state).abs(),
                    old(ctx).filter,
                    mv,
                    Species::Queen,
                    3,
                ),
            ),
{
    let ghost p = state.abs();
    let ghost pre_state = *state;
    let ghost pre = *ctx;
    movegen_sliders::<FileMajorCS>(ctx, state, Species::Queen);
    let ghost c1 = *ctx;
    proof {
        lemma_same_position_valid(pre_state, *state);
    }
    movegen_sliders::<RankMajorCS>(ctx, state, Species::Queen);
    let ghost c2 = *ctx;
    proof {
        lemma_same_position_valid(pre_state, *state);
        crate::movegen::types::lemma_continues(pre, c1, c2);
    }
    movegen_sliders::<ProdiagonalMajorCS>(ctx, state, Species::Queen);
    let ghost c3 = *ctx;
    proof {
        lemma_same_position_valid(pre_state, *state);
        crate::movegen::types::lemma_continues(pre, c2, c3);
    }
    movegen_sliders::<AntidiagonalMajorCS>(ctx, state, Species::Queen);
    proof {
        crate::movegen::types::lemma_continues(pre, c3, *ctx);
        let f = pre.filter;
        assert forall|mv: AnyMove|
            #![trigger tally(ctx.listed(), mv)]
            tally(ctx.listed(), mv) == tally(pre.listed(), mv) + one_if(
                slide_listed(p, f, mv, Species::Queen, 1) || slide_listed(p, f, mv, Species::Queen, 0) || slide_listed(
                    p,
                    f,
                    mv,
                    Species::Queen,
                    2,
                ) || slide_listed(p, f, mv, Species::Queen, 3),
            ) by {
            assert(tally(c1.listed(), mv) == tally(pre.listed(), mv) + one_if(slide_listed(p, f, mv, Species::Queen, 1)));
            assert(tally(c2.listed(), mv) == tally(c1.listed(), mv) + one_if(slide_listed(p, f, mv, Species::Queen, 0)));
            assert(tally(c3.listed(), mv) == tally(c2.listed(), mv) + one_if(slide_listed(p, f, mv, Species::Queen, 2)));
            assert(tally(ctx.listed(), mv) == tally(c3.listed(), mv) + one_if(slide_listed(p, f, mv, Species::Queen, 3)));
            if slide_listed(p, f, mv, Species::Queen, 1) {
                lemma_one_line(p, mv->Piece_0, Species::Queen, 1, 0);
                lemma_one_line(p, mv->Piece_0, Species::Queen, 1, 2);
                lemma_one_line(p, mv->Piece_0, Species::Queen, 1, 3);
            }
            if slide_listed(p, f, mv, Species::Queen, 0) {
                lemma_one_line(p, mv->Piece_0, Species::Queen, 0, 2);
                lemma_one_line(p, mv->Piece_0, Species::Queen, 0, 3);
            }
            if slide_listed(p, f, mv, Species::Queen, 2) {
                lemma_one_line(p, mv->Piece_0, Species::Queen, 2, 3);
            }
        }
    }
}

} // verus!
