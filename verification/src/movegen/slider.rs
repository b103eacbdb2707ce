//! Sliders: rooks, bishops and queens, one traversal at a time. The walk
//! over the pieces of one species is shared with knights and kings, which
//! step instead of sliding.

use vstd::prelude::*;
use crate::bitboard::Bitboard;
use crate::bits::{bit_at, lemma_set_bits, set_bits};
use crate::coordinates::RankMajorCS;
use crate::coordinates::StandardCS;
use crate::coordinates::{decode_in, lemma_encode_bijective, Coordinate, CoordinateSystem};
use crate::gamestate::{holds_color, same_position, ChessGame};
use crate::grid::StandardCoordinate;
use crate::laneutils::{lanescan, slide_reaches};
use crate::makemove::lemma_same_position_valid;
use crate::mov::AnyMove;
use crate::movegen::king::{king_attack, king_step};
use crate::movegen::knight::{knight_attack, knight_step};
use crate::movegen::types::{
    among_first, basic_from, keeps, lemma_among_first_all, lemma_among_first_next, one_if, push_targets, scanned,
    tally, MGContext,
};
use crate::piece::{Piece, Species};
use crate::rules::{king_rule, knight_rule, own_piece_on, slider_rule};

verus! {

/// How a piece gets from tile to tile.
#[derive(Clone, Copy, PartialEq, Eq, Debug, Structural)]
pub enum Walk {
    /// Along a line, over empty tiles.
    Slide,
    /// By a knight's jump.
    Jump,
    /// To a neighbouring tile.
    Step,
}

/// The move is a listed slide of a piece of species `sp` along a line of
/// traversal `slot`.
pub open spec fn slide_listed(p: crate::gamestate::Position, filter: bool, mv: AnyMove, sp: Species, slot: int) -> bool {
    mv is Piece && slider_rule(p, mv->Piece_0, sp, slot) && keeps(p, filter, mv->Piece_0)
}

/// The move is a listed move of a piece of species `sp` that walks in the
/// given way; for a slide, along a line of traversal `slot`.
pub open spec fn walk_listed(
    p: crate::gamestate::Position,
    filter: bool,
    mv: AnyMove,
    sp: Species,
    slot: int,
    walk: Walk,
) -> bool {
    &&& mv is Piece
    &&& keeps(p, filter, mv->Piece_0)
    &&& match walk {
        Walk::Slide => slider_rule(p, mv->Piece_0, sp, slot),
        Walk::Jump => sp == Species::Knight && knight_rule(p, mv->Piece_0),
        Walk::Step => sp == Species::King && king_rule(p, mv->Piece_0),
    }
}

/// Two tiles share one line at most: a slide along a line of one
/// traversal is no slide along a line of another.
pub proof fn lemma_one_line(p: crate::gamestate::Position, m: crate::mov::PieceMove, sp: Species, a: int, b: int)
    requires
        0 <= a < 4,
        0 <= b < 4,
        a != b,
        slider_rule(p, m, sp, a),
    ensures
        !slider_rule(p, m, sp, b),
{
    let o = m.origin.index as int;
    let t = m.destin.index as int;
    assert(o == crate::grid::rank_of(o) * 8 + crate::grid::file_of(o));
    assert(t == crate::grid::rank_of(t) * 8 + crate::grid::file_of(t));
}

/// Lists the moves of every slider of the given species of the side to
/// move, along the lines of traversal `C`.
pub fn movegen_sliders<C: CoordinateSystem>(ctx: &mut MGContext, state: &mut ChessGame, species: Species)
    requires
        old(ctx).wf(),
        old(state).coherent(),
        old(state).abs().playable(),
    ensures
        same_position(*final(state), *old(state)),
        final(ctx).continues(*old(ctx)),
        forall|mv: AnyMove|
            #![trigger final(ctx).listed().contains(mv)]
            final(ctx).listed().contains(mv) <==> old(ctx).listed().contains(mv) || slide_listed(
                old(state).abs(),
                old(ctx).filter,
                mv,
                species,
                C::spec_slot(),
            ),
        forall|mv: AnyMove|
            #![trigger tally(final(ctx).listed(), mv)]
            tally(final(ctx).listed(), mv) == tally(old(ctx).listed(), mv) + one_if(
                slide_listed(old(state).abs(), old(ctx).filter, mv, species, C::spec_slot()),
            ),
{
    movegen_walkers::<C>(ctx, state, species, Walk::Slide);
}

/// Lists the moves of the slider on `origin` along its line of traversal
/// `C`.
pub fn movegen_slider<C: CoordinateSystem>(
    ctx: &mut MGContext,
    state: &mut ChessGame,
    origin: StandardCoordinate,
    species: Species,
)
    requires
        old(ctx).wf(),
        old(state).coherent(),
        old(state).abs().playable(),
        origin.wf(),
        own_piece_on(old(state).abs(), origin.index as int, species),
    ensures
        same_position(*final(state), *old(state)),
        final(ctx).continues(*old(ctx)),
        forall|mv: AnyMove|
            #![trigger final(ctx).listed().contains(mv)]
            final(ctx).listed().contains(mv) <==> old(ctx).listed().contains(mv) || (slide_listed(
                old(state).abs(),
                old(ctx).filter,
                mv,
                species,
                C::spec_slot(),
            ) && mv->Piece_0.origin == origin),
        forall|mv: AnyMove|
            #![trigger tally(final(ctx).listed(), mv)]
            tally(final(ctx).listed(), mv) == tally(old(ctx).listed(), mv) + one_if(
                slide_listed(old(state).abs(), old(ctx).filter, mv, species, C::spec_slot()) && mv->Piece_0.origin
                    == origin,
            ),
{
    movegen_walker::<C>(ctx, state, origin, species, Walk::Slide);
}

/// Lists the moves of every piece of the given species of the side to
/// move that walks in the given way; for a slide, along the lines of
/// traversal `C`.
pub fn movegen_walkers<C: CoordinateSystem>(
    ctx: &mut MGContext,
    state: &mut ChessGame,
    species: Species,
    walk: Walk,
)
    requires
        old(ctx).wf(),
        old(state).coherent(),
        old(state).abs().playable(),
        walk == Walk::Jump ==> species == Species::Knight,
        walk == Walk::Step ==> species == Species::King,
    ensures
        same_position(*final(state), *old(state)),
        final(ctx).continues(*old(ctx)),
        forall|mv: AnyMove|
            #![trigger final(ctx).listed().contains(mv)]
            final(ctx).listed().contains(mv) <==> old(ctx).listed().contains(mv) || walk_listed(
                old(state).abs(),
                old(ctx).filter,
                mv,
                species,
                C::spec_slot(),
                walk,
            ),
        forall|mv: AnyMove|
            #![trigger tally(final(ctx).listed(), mv)]
            tally(final(ctx).listed(), mv) == tally(old(ctx).listed(), mv) + one_if(
                walk_listed(old(state).abs(), old(ctx).filter, mv, species, C::spec_slot(), walk),
            ),
{
    let ghost p = state.abs();
    let ghost pre_state = *state;
    let ghost pre = *ctx;
    let ghost slot = C::spec_slot();
    let bb: Bitboard<StandardCS> = state.bbs.class(state.active_player(), species);
    let origins: Vec<Coordinate<StandardCS>> = bb.scan();
    let mut n: usize = 0;
    proof {
        lemma_encode_bijective(0);
        lemma_set_bits(bb.raw_bb);
        assert(ctx.pmoves@.subrange(0, pre.pmoves@.len() as int) =~= pre.pmoves@);
    }
    while n < origins.len()
        invariant
            n <= origins.len(),
            slot == C::spec_slot(),
            walk == Walk::Jump ==> species == Species::Knight,
            walk == Walk::Step ==> species == Species::King,
            origins@.len() == set_bits(bb.raw_bb).len(),
            forall|l: int|
                0 <= l < origins@.len() ==> (#[trigger] origins@[l]).index == set_bits(bb.raw_bb)[l]
                    && origins@[l].wf(),
            forall|s: int|
                0 <= s < 64 ==> #[trigger] bb.has(s) == (p.grid[s] == Some(Piece { color: p.active, species })),
            same_position(*state, pre_state),
            state.coherent(),
            state.abs() == p,
            p.playable(),
            ctx.continues(pre),
            forall|mv: AnyMove|
                #![trigger ctx.listed().contains(mv)]
                ctx.listed().contains(mv) <==> pre.listed().contains(mv) || (walk_listed(
                    p,
                    pre.filter,
                    mv,
                    species,
                    slot,
                    walk,
                ) && among_first(origins@, 0, n as int, mv->Piece_0.origin.index as int)),
            forall|mv: AnyMove|
                #![trigger tally(ctx.listed(), mv)]
                tally(ctx.listed(), mv) == tally(pre.listed(), mv) + one_if(
                    walk_listed(p, pre.filter, mv, species, slot, walk) && among_first(
                        origins@,
                        0,
                        n as int,
                        mv->Piece_0.origin.index as int,
                    ),
                ),
        decreases origins.len() - n,
    {
        let ghost before = *ctx;
        let origin: StandardCoordinate = origins[n].to_std();
        proof {
            lemma_set_bits(bb.raw_bb);
            lemma_encode_bijective(0);
            assert(bit_at(bb.raw_bb, set_bits(bb.raw_bb)[n as int] as int));
            assert(bb.has(origin.index as int));
        }
        movegen_walker::<C>(ctx, state, origin, species, walk);
        proof {
            lemma_same_position_valid(pre_state, *state);
            crate::movegen::types::lemma_continues(pre, before, *ctx);
            assert forall|mv: AnyMove|
                #![trigger ctx.listed().contains(mv)]
                ctx.listed().contains(mv) <==> pre.listed().contains(mv) || (walk_listed(
                    p,
                    pre.filter,
                    mv,
                    species,
                    slot,
                    walk,
                ) && among_first(origins@, 0, n + 1, mv->Piece_0.origin.index as int)) by {
                let m = mv->Piece_0;
                let o = m.origin.index as int;
                assert(before.listed().contains(mv) <==> pre.listed().contains(mv) || (walk_listed(
                    p,
                    pre.filter,
                    mv,
                    species,
                    slot,
                    walk,
                ) && among_first(origins@, 0, n as int, o)));
                if among_first(origins@, 0, n as int, o) {
                    let l = choose|l: int| 0 <= l < n && o == decode_in(0, (#[trigger] origins@[l]).index as int);
                    assert(0 <= l < n + 1 && o == decode_in(0, origins@[l].index as int));
                }
                if among_first(origins@, 0, n + 1, o) && !among_first(origins@, 0, n as int, o) {
                    let l = choose|l: int| 0 <= l < n + 1 && o == decode_in(0, (#[trigger] origins@[l]).index as int);
                    if l < n {
                        assert(0 <= l < n && o == decode_in(0, origins@[l].index as int));
                    }
                    assert(o == origin.index);
                }
                if m.origin == origin {
                    assert(o == decode_in(0, origins@[n as int].index as int));
                    assert(among_first(origins@, 0, n + 1, o));
                }
            }
            assert(scanned(origins@, bb.raw_bb));
            assert forall|mv: AnyMove|
                #![trigger tally(ctx.listed(), mv)]
                tally(ctx.listed(), mv) == tally(pre.listed(), mv) + one_if(
                    walk_listed(p, pre.filter, mv, species, slot, walk) && among_first(
                        origins@,
                        0,
                        n + 1,
                        mv->Piece_0.origin.index as int,
                    ),
                ) by {
                let o = mv->Piece_0.origin.index as int;
                lemma_among_first_next(origins@, bb.raw_bb, 0, n as int, o);
                assert(tally(before.listed(), mv) == tally(pre.listed(), mv) + one_if(
                    walk_listed(p, pre.filter, mv, species, slot, walk) && among_first(origins@, 0, n as int, o),
                ));
                assert(tally(ctx.listed(), mv) == tally(before.listed(), mv) + one_if(
                    walk_listed(p, pre.filter, mv, species, slot, walk) && mv->Piece_0.origin == origin,
                ));
            }
        }
        n += 1;
    }
    proof {
        assert forall|mv: AnyMove|
            #![trigger ctx.listed().contains(mv)]
            ctx.listed().contains(mv) <==> pre.listed().contains(mv) || walk_listed(
                p,
                pre.filter,
                mv,
                species,
                slot,
                walk,
            ) by {
            let m = mv->Piece_0;
            let o = m.origin.index as int;
            lemma_set_bits(bb.raw_bb);
            lemma_encode_bijective(0);
            assert(ctx.listed().contains(mv) <==> pre.listed().contains(mv) || (walk_listed(
                p,
                pre.filter,
                mv,
                species,
                slot,
                walk,
            ) && among_first(origins@, 0, n as int, o)));
            if walk_listed(p, pre.filter, mv, species, slot, walk) {
                assert(bb.has(o));
                assert(bit_at(bb.raw_bb, o));
                assert(set_bits(bb.raw_bb).contains(o as u8));
                let l = choose|l: int| 0 <= l < set_bits(bb.raw_bb).len() && set_bits(bb.raw_bb)[l] == o as u8;
                assert(origins@[l].index == o);
                assert(0 <= l < n && o == decode_in(0, origins@[l].index as int));
                assert(among_first(origins@, 0, n as int, o));
            }
        }
        assert(scanned(origins@, bb.raw_bb));
        assert forall|mv: AnyMove|
            #![trigger tally(ctx.listed(), mv)]
            tally(ctx.listed(), mv) == tally(pre.listed(), mv) + one_if(
                walk_listed(p, pre.filter, mv, species, slot, walk),
            ) by {
            let o = mv->Piece_0.origin.index as int;
            assert(tally(ctx.listed(), mv) == tally(pre.listed(), mv) + one_if(
                walk_listed(p, pre.filter, mv, species, slot, walk) && among_first(origins@, 0, n as int, o),
            ));
            if walk_listed(p, pre.filter, mv, species, slot, walk) {
                assert(bb.has(o));
                lemma_among_first_all(origins@, bb.raw_bb, 0, o);
            }
        }
    }
}

/// Lists the moves of the piece on `origin` that walks in the given way;
/// for a slide, along its line of traversal `C`.
pub fn movegen_walker<C: CoordinateSystem>(
    ctx: &mut MGContext,
    state: &mut ChessGame,
    origin: StandardCoordinate,
    species: Species,
    walk: Walk,
)
    requires
        old(ctx).wf(),
        old(state).coherent(),
        old(state).abs().playable(),
        origin.wf(),
        own_piece_on(old(state).abs(), origin.index as int, species),
        walk == Walk::Jump ==> species == Species::Knight,
        walk == Walk::Step ==> species == Species::King,
    ensures
        same_position(*final(state), *old(state)),
        final(ctx).continues(*old(ctx)),
        forall|mv: AnyMove|
            #![trigger final(ctx).listed().contains(mv)]
            final(ctx).listed().contains(mv) <==> old(ctx).listed().contains(mv) || (walk_listed(
                old(state).abs(),
                old(ctx).filter,
                mv,
                species,
                C::spec_slot(),
                walk,
            ) && mv->Piece_0.origin == origin),
        forall|mv: AnyMove|
            #![trigger tally(final(ctx).listed(), mv)]
            tally(final(ctx).listed(), mv) == tally(old(ctx).listed(), mv) + one_if(
                walk_listed(old(state).abs(), old(ctx).filter, mv, species, C::spec_slot(), walk) && mv->Piece_0.origin
                    == origin,
            ),
{
    let ghost p = state.abs();
    let ghost pre = *ctx;
    let ghost o = origin.index as int;
    match walk {
        Walk::Slide => {
            let reach: Bitboard<C> = lanescan::<C>(&state.bbs, origin);
            let friendly: Bitboard<C> = state.bbs.affilia_bbs.get(state.active_player()).get();
            let bb: Bitboard<C> = reach.bitand(friendly.not());
            proof {
                C::lemma_slot();
                lemma_encode_bijective(C::spec_slot());
                assert(state.bbs.affilia_bbs.spec_get(p.active).wf());
                assert forall|t: int| 0 <= t < 64 implies bb.has(t) == (slide_reaches(C::spec_slot(), p.grid, o, t)
                    && !holds_color(p.grid[t], p.active)) by {
                    assert(reach.has(t) == slide_reaches(C::spec_slot(), p.grid, o, t));
                    assert(state.bbs.color_has(p.active, t) == holds_color(p.grid[t], p.active));
                }
            }
            push_targets(ctx, state, origin, bb);
            proof {
                assert forall|mv: AnyMove|
                    #![trigger ctx.listed().contains(mv)]
                    ctx.listed().contains(mv) <==> pre.listed().contains(mv) || (walk_listed(
                        p,
                        pre.filter,
                        mv,
                        species,
                        C::spec_slot(),
                        walk,
                    ) && mv->Piece_0.origin == origin) by {
                    let m = mv->Piece_0;
                    assert(ctx.listed().contains(mv) <==> pre.listed().contains(mv) || (basic_from(
                        p,
                        pre.filter,
                        mv,
                        origin,
                    ) && bb.has(m.destin.index as int)));
                }
                assert forall|mv: AnyMove|
                    #![trigger tally(ctx.listed(), mv)]
                    tally(ctx.listed(), mv) == tally(pre.listed(), mv) + one_if(
                        walk_listed(p, pre.filter, mv, species, C::spec_slot(), walk) && mv->Piece_0.origin == origin,
                    ) by {
                    let m = mv->Piece_0;
                    assert(tally(ctx.listed(), mv) == tally(pre.listed(), mv) + one_if(
                        basic_from(p, pre.filter, mv, origin) && bb.has(m.destin.index as int),
                    ));
                }
            }
        },
        _ => {
            let coord: Coordinate<RankMajorCS> = Coordinate::from_std(origin);
            let reach: Bitboard<RankMajorCS> = match walk {
                Walk::Jump => knight_attack(coord),
                _ => king_attack(coord),
            };
            let friendly: Bitboard<RankMajorCS> = state.bbs.affilia_bbs.get(state.active_player()).get();
            let bb: Bitboard<RankMajorCS> = reach.bitand(friendly.not());
            proof {
                lemma_encode_bijective(0);
                assert(state.bbs.affilia_bbs.spec_get(p.active).wf());
                assert forall|t: int| 0 <= t < 64 implies bb.has(t) == ((if walk == Walk::Jump {
                    knight_step(o, t)
                } else {
                    king_step(o, t)
                }) && !holds_color(p.grid[t], p.active)) by {
                    assert(state.bbs.color_has(p.active, t) == holds_color(p.grid[t], p.active));
                }
            }
            push_targets(ctx, state, origin, bb);
            proof {
                assert forall|mv: AnyMove|
                    #![trigger ctx.listed().contains(mv)]
                    ctx.listed().contains(mv) <==> pre.listed().contains(mv) || (walk_listed(
                        p,
                        pre.filter,
                        mv,
                        species,
                        C::spec_slot(),
                        walk,
                    ) && mv->Piece_0.origin == origin) by {
                    let m = mv->Piece_0;
                    assert(ctx.listed().contains(mv) <==> pre.listed().contains(mv) || (basic_from(
                        p,
                        pre.filter,
                        mv,
                        origin,
                    ) && bb.has(m.destin.index as int)));
                }
                assert forall|mv: AnyMove|
                    #![trigger tally(ctx.listed(), mv)]
                    tally(ctx.listed(), mv) == tally(pre.listed(), mv) + one_if(
                        walk_listed(p, pre.filter, mv, species, C::spec_slot(), walk) && mv->Piece_0.origin == origin,
                    ) by {
                    let m = mv->Piece_0;
                    assert(tally(ctx.listed(), mv) == tally(pre.listed(), mv) + one_if(
                        basic_from(p, pre.filter, mv, origin) && bb.has(m.destin.index as int),
                    ));
                }
            }
        },
    }
}

} // verus!
