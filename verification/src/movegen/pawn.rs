//! Pawns: the tiles they attack, and their moves.

use vstd::prelude::*;
use crate::bitboard::RawBitboard;
use crate::bits::{LAST_RANK, NOT_FILE_A, NOT_FILE_H, SECOND_RANK};
use crate::bits::{bit_at, bit_mask, lemma_bit_logic, lemma_bit_masks, lemma_bit_shl, lemma_bit_shr};
use crate::bits::{lemma_bit_single, lemma_set_bits, scan_bits, set_bits};
use crate::gamestate::{holds_color, holds_species, same_position, ChessGame, LoggedMove, Position};
use crate::makemove::lemma_same_position_valid;
use crate::mov::{AnyMove, PieceMove};
use crate::movegen::types::{keeps, lemma_contains_push, lemma_continues, MGContext, lemma_tally_push, one_if, tally};
use crate::piece::{Color, Piece, Species};
use crate::rmrel::{absolutize, lemma_rel_involution, rel_index, relativize};
use crate::rules::{en_passant_rule, own_piece_on, pawn_capture_rule, pawn_jump_rule, pawn_push_rule};

verus! {

/// A relative tile index.
pub type RMRelCoord = u8;

/// Tile `j` holds a pawn that attacks tile `target`, where pawns attack
/// towards the high ranks: `j` is one rank below `target` and one file
/// beside it.
pub open spec fn attacks_up(j: int, target: int) -> bool {
    (j + 7 == target && target % 8 != 7) || (j + 9 == target && target % 8 != 0)
}

/// The tiles from which a pawn that attacks towards the high ranks
/// attacks `target`. Seen from the side to move, these are the tiles from
/// which its own pawns attack `target`; seen from the other side, they are
/// the tiles an opposing pawn on `target` attacks.
pub fn reverse_pawn_attack(target: RMRelCoord) -> (attackers: RawBitboard)
    requires
        target < 64,
    ensures
        forall|j: int| 0 <= j < 64 ==> bit_at(attackers, j) == attacks_up(j, target as int),
{
    let spot: u64 = 1u64 << (target as u64);
    let from_kingside: u64 = (spot & NOT_FILE_H) >> 7;
    let from_queenside: u64 = (spot & NOT_FILE_A) >> 9;
    let attackers: u64 = from_kingside | from_queenside;
    proof {
        assert(spot == bit_mask(target as int));
        assert forall|j: int| 0 <= j < 64 implies bit_at(attackers, j) == attacks_up(j, target as int) by {
            lemma_bit_logic(from_kingside, from_queenside, j);
            lemma_bit_shr(spot & NOT_FILE_H, 7, j);
            lemma_bit_shr(spot & NOT_FILE_A, 9, j);
            lemma_bit_logic(spot, NOT_FILE_H, j + 7);
            lemma_bit_logic(spot, NOT_FILE_A, j + 9);
            lemma_bit_single(target as int, j + 7);
            lemma_bit_single(target as int, j + 9);
            if j + 7 < 64 {
                lemma_bit_masks(j + 7);
            }
            if j + 9 < 64 {
                lemma_bit_masks(j + 9);
            }
        }
    }
    attackers
}

/// The tiles that a pawn on `origin` attacks, where pawns attack towards
/// the high ranks.
pub fn pawn_attack(origin: RMRelCoord) -> (targets: RawBitboard)
    requires
        origin < 64,
    ensures
        forall|j: int| 0 <= j < 64 ==> bit_at(targets, j) == attacks_up(origin as int, j),
{
    let spot: u64 = 1u64 << (origin as u64);
    let to_queenside: u64 = (spot & NOT_FILE_A) << 7;
    let to_kingside: u64 = (spot & NOT_FILE_H) << 9;
    let targets: u64 = to_queenside | to_kingside;
    proof {
        assert(spot == bit_mask(origin as int));
        assert forall|j: int| 0 <= j < 64 implies bit_at(targets, j) == attacks_up(origin as int, j) by {
            lemma_bit_logic(to_queenside, to_kingside, j);
            lemma_bit_shl(spot & NOT_FILE_A, 7, j);
            lemma_bit_shl(spot & NOT_FILE_H, 9, j);
            lemma_bit_logic(spot, NOT_FILE_A, j - 7);
            lemma_bit_logic(spot, NOT_FILE_H, j - 9);
            lemma_bit_single(origin as int, j - 7);
            lemma_bit_single(origin as int, j - 9);
            if j - 7 >= 0 {
                lemma_bit_masks(j - 7);
            }
            if j - 9 >= 0 {
                lemma_bit_masks(j - 9);
            }
        }
    }
    targets
}

/// What the relative bitboards say of relative index `j`.
pub proof fn lemma_rel_bits(state: ChessGame, j: int)
    requires
        state.boards_ok(),
        0 <= j < 64,
    ensures
        bit_at(
            state.bbs.affilia_rel_bbs.spec_get(state.bbs.active_player) & state.bbs.pawn_rel_bb,
            j,
        ) == own_piece_on(state.abs(), rel_index(j, state.bbs.active_player), Species::Pawn),
        bit_at(state.bbs.spec_rel_occupancy(), j) == (state.p_lut@[rel_index(j, state.bbs.active_player)] is Some),
        bit_at(state.bbs.affilia_rel_bbs.spec_get(state.bbs.active_player.spec_oppo()), j) == holds_color(
            state.p_lut@[rel_index(j, state.bbs.active_player)],
            state.bbs.active_player.spec_oppo(),
        ),
{
    let a = state.bbs.active_player;
    let s = rel_index(j, a);
    let grid = state.p_lut@;
    lemma_rel_involution(j, a);
    lemma_bit_logic(state.bbs.affilia_rel_bbs.spec_get(a), state.bbs.pawn_rel_bb, j);
    lemma_bit_logic(
        state.bbs.affilia_rel_bbs.spec_get(Color::White),
        state.bbs.affilia_rel_bbs.spec_get(Color::Black),
        j,
    );
    assert(state.bbs.rel_color_has(Color::White, s) == holds_color(grid[s], Color::White));
    assert(state.bbs.rel_color_has(Color::Black, s) == holds_color(grid[s], Color::Black));
    assert(state.bbs.rel_pawn_has(s) == holds_species(grid[s], Species::Pawn));
}

/// The move from relative index `ro` to relative index `rd`.
pub open spec fn rel_move(active: Color, ro: int, rd: int, promote: Option<Species>) -> PieceMove {
    PieceMove {
        origin: crate::grid::StandardCoordinate { index: rel_index(ro, active) as u8 },
        destin: crate::grid::StandardCoordinate { index: rel_index(rd, active) as u8 },
        promote,
    }
}

/// Lists the move between two relative indices, if it is to be listed.
pub fn push(
    ctx: &mut MGContext,
    state: &mut ChessGame,
    origin_rmrel: RMRelCoord,
    destin_rmrel: RMRelCoord,
    promote: Option<Species>,
)
    requires
        old(ctx).wf(),
        old(state).coherent(),
        old(state).abs().playable(),
        origin_rmrel < 64,
        destin_rmrel < 64,
    ensures
        same_position(*final(state), *old(state)),
        final(ctx).continues(*old(ctx)),
        final(ctx).listed() == (if keeps(
            old(state).abs(),
            old(ctx).filter,
            rel_move(old(state).bbs.active_player, origin_rmrel as int, destin_rmrel as int, promote),
        ) {
            old(ctx).listed().push(
                AnyMove::Piece(
                    rel_move(old(state).bbs.active_player, origin_rmrel as int, destin_rmrel as int, promote),
                ),
            )
        } else {
            old(ctx).listed()
        }),
{
    let origin = absolutize(origin_rmrel, state.active_player());
    let destin = absolutize(destin_rmrel, state.active_player());
    ctx.push_p(state, PieceMove { origin, destin, promote });
}

/// Lists the move between two relative indices, without promotion.
pub fn push_basic(ctx: &mut MGContext, state: &mut ChessGame, origin_rmrel: RMRelCoord, destin_rmrel: RMRelCoord)
    requires
        old(ctx).wf(),
        old(state).coherent(),
        old(state).abs().playable(),
        origin_rmrel < 64,
        destin_rmrel < 64,
    ensures
        same_position(*final(state), *old(state)),
        final(ctx).continues(*old(ctx)),
        forall|mv: AnyMove|
            #![trigger final(ctx).listed().contains(mv)]
            final(ctx).listed().contains(mv) <==> old(ctx).listed().contains(mv) || rel_listed(
                old(state).abs(),
                old(ctx).filter,
                mv,
                origin_rmrel as int,
                destin_rmrel as int,
                false,
            ),
        forall|mv: AnyMove|
            #![trigger tally(final(ctx).listed(), mv)]
            tally(final(ctx).listed(), mv) == tally(old(ctx).listed(), mv) + one_if(
                rel_listed(old(state).abs(), old(ctx).filter, mv, origin_rmrel as int, destin_rmrel as int, false),
            ),
{
    let ghost pre = *ctx;
    let ghost p = state.abs();
    push(ctx, state, origin_rmrel, destin_rmrel, None);
    proof {
        let m = rel_move(p.active, origin_rmrel as int, destin_rmrel as int, None);
        lemma_rel_involution(origin_rmrel as int, p.active);
        lemma_rel_involution(destin_rmrel as int, p.active);
        assert forall|mv: AnyMove|
            #![trigger ctx.listed().contains(mv)]
            ctx.listed().contains(mv) <==> pre.listed().contains(mv) || rel_listed(
                p,
                pre.filter,
                mv,
                origin_rmrel as int,
                destin_rmrel as int,
                false,
            ) by {
            lemma_contains_push(pre.listed(), AnyMove::Piece(m), mv);
            if rel_listed(p, pre.filter, mv, origin_rmrel as int, destin_rmrel as int, false) {
                lemma_rel_move_unique(p.active, mv->Piece_0, origin_rmrel as int, destin_rmrel as int);
            }
        }
        assert forall|mv: AnyMove|
            #![trigger tally(ctx.listed(), mv)]
            tally(ctx.listed(), mv) == tally(pre.listed(), mv) + one_if(
                rel_listed(p, pre.filter, mv, origin_rmrel as int, destin_rmrel as int, false),
            ) by {
            lemma_tally_push(pre.listed(), AnyMove::Piece(m), mv);
            if rel_listed(p, pre.filter, mv, origin_rmrel as int, destin_rmrel as int, false) {
                lemma_rel_move_unique(p.active, mv->Piece_0, origin_rmrel as int, destin_rmrel as int);
            }
        }
    }
}

/// A move is the move between two relative indices when its tiles have
/// those relative indices.
pub proof fn lemma_rel_move_unique(active: Color, m: PieceMove, ro: int, rd: int)
    requires
        m.wf(),
        0 <= ro < 64,
        0 <= rd < 64,
        rel_index(m.origin.index as int, active) == ro,
        rel_index(m.destin.index as int, active) == rd,
    ensures
        m == rel_move(active, ro, rd, m.promote),
{
    lemma_rel_involution(m.origin.index as int, active);
    lemma_rel_involution(m.destin.index as int, active);
}

/// The move goes between the tiles of relative indices `ro` and `rd`, has
/// the promotion its kind asks for, and is listed under the filter.
pub open spec fn rel_listed(p: Position, filter: bool, mv: AnyMove, ro: int, rd: int, promoting: bool) -> bool {
    &&& mv is Piece
    &&& mv->Piece_0.wf()
    &&& rel_index(mv->Piece_0.origin.index as int, p.active) == ro
    &&& rel_index(mv->Piece_0.destin.index as int, p.active) == rd
    &&& if promoting {
        mv->Piece_0.promote == Some(Species::Knight) || mv->Piece_0.promote == Some(Species::Bishop)
            || mv->Piece_0.promote == Some(Species::Queen) || mv->Piece_0.promote == Some(Species::Rook)
    } else {
        mv->Piece_0.promote is None
    }
    &&& keeps(p, filter, mv->Piece_0)
}

/// Lists the four promotions of the move between two relative indices:
/// to knight, bishop, queen and rook.
pub fn push_promote(ctx: &mut MGContext, state: &mut ChessGame, origin_rmrel: RMRelCoord, destin_rmrel: RMRelCoord)
    requires
        old(ctx).wf(),
        old(state).coherent(),
        old(state).abs().playable(),
        origin_rmrel < 64,
        destin_rmrel < 64,
    ensures
        same_position(*final(state), *old(state)),
        final(ctx).continues(*old(ctx)),
        forall|mv: AnyMove|
            #![trigger final(ctx).listed().contains(mv)]
            final(ctx).listed().contains(mv) <==> old(ctx).listed().contains(mv) || rel_listed(
                old(state).abs(),
                old(ctx).filter,
                mv,
                origin_rmrel as int,
                destin_rmrel as int,
                true,
            ),
        forall|mv: AnyMove|
            #![trigger tally(final(ctx).listed(), mv)]
            tally(final(ctx).listed(), mv) == tally(old(ctx).listed(), mv) + one_if(
                rel_listed(old(state).abs(), old(ctx).filter, mv, origin_rmrel as int, destin_rmrel as int, true),
            ),
{
    let ghost pre = *ctx;
    let ghost pre_state = *state;
    let ghost p = state.abs();
    let ghost ro = origin_rmrel as int;
    let ghost rd = destin_rmrel as int;
    push(ctx, state, origin_rmrel, destin_rmrel, Some(Species::Knight));
    let ghost c1 = *ctx;
    proof {
        lemma_same_position_valid(pre_state, *state);
    }
    push(ctx, state, origin_rmrel, destin_rmrel, Some(Species::Bishop));
    let ghost c2 = *ctx;
    proof {
        lemma_same_position_valid(pre_state, *state);
        lemma_continues(pre, c1, c2);
    }
    push(ctx, state, origin_rmrel, destin_rmrel, Some(Species::Queen));
    let ghost c3 = *ctx;
    proof {
        lemma_same_position_valid(pre_state, *state);
        lemma_continues(pre, c2, c3);
    }
    push(ctx, state, origin_rmrel, destin_rmrel, Some(Species::Rook));
    proof {
        lemma_continues(pre, c3, *ctx);
        lemma_rel_involution(ro, p.active);
        lemma_rel_involution(rd, p.active);
        let mn = rel_move(p.active, ro, rd, Some(Species::Knight));
        let mb = rel_move(p.active, ro, rd, Some(Species::Bishop));
        let mq = rel_move(p.active, ro, rd, Some(Species::Queen));
        let mr = rel_move(p.active, ro, rd, Some(Species::Rook));
        assert forall|mv: AnyMove|
            #![trigger ctx.listed().contains(mv)]
            ctx.listed().contains(mv) <==> pre.listed().contains(mv) || rel_listed(p, pre.filter, mv, ro, rd, true) by {
            lemma_contains_push(pre.listed(), AnyMove::Piece(mn), mv);
            lemma_contains_push(c1.listed(), AnyMove::Piece(mb), mv);
            lemma_contains_push(c2.listed(), AnyMove::Piece(mq), mv);
            lemma_contains_push(c3.listed(), AnyMove::Piece(mr), mv);
            if rel_listed(p, pre.filter, mv, ro, rd, true) {
                lemma_rel_move_unique(p.active, mv->Piece_0, ro, rd);
            }
        }
        assert forall|mv: AnyMove|
            #![trigger tally(ctx.listed(), mv)]
            tally(ctx.listed(), mv) == tally(pre.listed(), mv) + one_if(rel_listed(p, pre.filter, mv, ro, rd, true)) by {
            lemma_tally_push(pre.listed(), AnyMove::Piece(mn), mv);
            lemma_tally_push(c1.listed(), AnyMove::Piece(mb), mv);
            lemma_tally_push(c2.listed(), AnyMove::Piece(mq), mv);
            lemma_tally_push(c3.listed(), AnyMove::Piece(mr), mv);
            if rel_listed(p, pre.filter, mv, ro, rd, true) {
                lemma_rel_move_unique(p.active, mv->Piece_0, ro, rd);
            }
        }
    }
}

/// The move ends on a tile whose relative index is a set bit of `bb`,
/// starts `back` relative indices below, and is listed.
pub open spec fn rel_listed_in(p: Position, filter: bool, mv: AnyMove, bb: u64, back: int, promoting: bool) -> bool {
    &&& mv is Piece
    &&& bit_at(bb, rel_index(mv->Piece_0.destin.index as int, p.active))
    &&& rel_listed(
        p,
        filter,
        mv,
        rel_index(mv->Piece_0.destin.index as int, p.active) - back,
        rel_index(mv->Piece_0.destin.index as int, p.active),
        promoting,
    )
}

/// Lists, for every destination whose relative index is a set bit of
/// `bb`, the move that ends there and starts `back` relative indices
/// below; as four promotions where `promoting` is set.
pub fn push_advances(ctx: &mut MGContext, state: &mut ChessGame, bb: RawBitboard, back: u8, promoting: bool)
    requires
        old(ctx).wf(),
        old(state).coherent(),
        old(state).abs().playable(),
        forall|j: int| bit_at(bb, j) ==> back <= j,
    ensures
        same_position(*final(state), *old(state)),
        final(ctx).continues(*old(ctx)),
        forall|mv: AnyMove|
            #![trigger final(ctx).listed().contains(mv)]
            final(ctx).listed().contains(mv) <==> old(ctx).listed().contains(mv) || rel_listed_in(
                old(state).abs(),
                old(ctx).filter,
                mv,
                bb,
                back as int,
                promoting,
            ),
        forall|mv: AnyMove|
            #![trigger tally(final(ctx).listed(), mv)]
            tally(final(ctx).listed(), mv) == tally(old(ctx).listed(), mv) + one_if(
                rel_listed_in(old(state).abs(), old(ctx).filter, mv, bb, back as int, promoting),
            ),
{
    let ghost pre = *ctx;
    let ghost pre_state = *state;
    let ghost p = state.abs();
    let destins: Vec<u8> = scan_bits(bb);
    let mut k: usize = 0;
    proof {
        lemma_set_bits(bb);
        assert(ctx.pmoves@.subrange(0, pre.pmoves@.len() as int) =~= pre.pmoves@);
    }
    while k < destins.len()
        invariant
            k <= destins.len(),
            destins@ == set_bits(bb),
            forall|j: int| bit_at(bb, j) ==> back <= j,
            same_position(*state, pre_state),
            state.coherent(),
            state.abs() == p,
            p.playable(),
            ctx.continues(pre),
            forall|mv: AnyMove|
                #![trigger ctx.listed().contains(mv)]
                ctx.listed().contains(mv) <==> pre.listed().contains(mv) || (rel_listed_in(
                    p,
                    pre.filter,
                    mv,
                    bb,
                    back as int,
                    promoting,
                ) && listed_before(destins@, k as int, rel_index(mv->Piece_0.destin.index as int, p.active))),
            forall|mv: AnyMove|
                #![trigger tally(ctx.listed(), mv)]
                tally(ctx.listed(), mv) == tally(pre.listed(), mv) + one_if(
                    rel_listed_in(p, pre.filter, mv, bb, back as int, promoting) && listed_before(
                        destins@,
                        k as int,
                        rel_index(mv->Piece_0.destin.index as int, p.active),
                    ),
                ),
        decreases destins.len() - k,
    {
        let ghost before = *ctx;
        proof {
            lemma_set_bits(bb);
        }
        let destin_rmrel: u8 = destins[k];
        let origin_rmrel: u8 = destin_rmrel - back;
        if promoting {
            push_promote(ctx, state, origin_rmrel, destin_rmrel);
        } else {
            push_basic(ctx, state, origin_rmrel, destin_rmrel);
        }
        proof {
            lemma_same_position_valid(pre_state, *state);
            lemma_continues(pre, before, *ctx);
            assert forall|mv: AnyMove|
                #![trigger ctx.listed().contains(mv)]
                ctx.listed().contains(mv) <==> pre.listed().contains(mv) || (rel_listed_in(
                    p,
                    pre.filter,
                    mv,
                    bb,
                    back as int,
                    promoting,
                ) && listed_before(destins@, k + 1, rel_index(mv->Piece_0.destin.index as int, p.active))) by {
                let rd = rel_index(mv->Piece_0.destin.index as int, p.active);
                assert(before.listed().contains(mv) <==> pre.listed().contains(mv) || (rel_listed_in(
                    p,
                    pre.filter,
                    mv,
                    bb,
                    back as int,
                    promoting,
                ) && listed_before(destins@, k as int, rd)));
                assert(ctx.listed().contains(mv) <==> before.listed().contains(mv) || rel_listed(
                    p,
                    pre.filter,
                    mv,
                    origin_rmrel as int,
                    destin_rmrel as int,
                    promoting,
                ));
                if listed_before(destins@, k as int, rd) {
                    let l = choose|l: int| 0 <= l < k && #[trigger] destins@[l] == rd;
                    assert(0 <= l < k + 1 && destins@[l] == rd);
                }
                if listed_before(destins@, k + 1, rd) && !listed_before(destins@, k as int, rd) {
                    let l = choose|l: int| 0 <= l < k + 1 && #[trigger] destins@[l] == rd;
                    if l < k {
                        assert(0 <= l < k && destins@[l] == rd);
                    }
                    assert(rd == destin_rmrel);
                }
                if rd == destin_rmrel {
                    assert(destins@[k as int] == rd);
                    assert(listed_before(destins@, k + 1, rd));
                }
            }
            assert forall|mv: AnyMove|
                #![trigger tally(ctx.listed(), mv)]
                tally(ctx.listed(), mv) == tally(pre.listed(), mv) + one_if(
                    rel_listed_in(p, pre.filter, mv, bb, back as int, promoting) && listed_before(
                        destins@,
                        k + 1,
                        rel_index(mv->Piece_0.destin.index as int, p.active),
                    ),
                ) by {
                let rd = rel_index(mv->Piece_0.destin.index as int, p.active);
                lemma_listed_before_next(bb, k as int, rd);
                assert(tally(before.listed(), mv) == tally(pre.listed(), mv) + one_if(
                    rel_listed_in(p, pre.filter, mv, bb, back as int, promoting) && listed_before(
                        destins@,
                        k as int,
                        rd,
                    ),
                ));
                assert(tally(ctx.listed(), mv) == tally(before.listed(), mv) + one_if(
                    rel_listed(p, pre.filter, mv, origin_rmrel as int, destin_rmrel as int, promoting),
                ));
            }
        }
        k += 1;
    }
    proof {
        lemma_set_bits(bb);
        assert forall|mv: AnyMove|
            #![trigger ctx.listed().contains(mv)]
            ctx.listed().contains(mv) <==> pre.listed().contains(mv) || rel_listed_in(
                p,
                pre.filter,
                mv,
                bb,
                back as int,
                promoting,
            ) by {
            let rd = rel_index(mv->Piece_0.destin.index as int, p.active);
            assert(ctx.listed().contains(mv) <==> pre.listed().contains(mv) || (rel_listed_in(
                p,
                pre.filter,
                mv,
                bb,
                back as int,
                promoting,
            ) && listed_before(destins@, k as int, rd)));
            if rel_listed_in(p, pre.filter, mv, bb, back as int, promoting) {
                assert(set_bits(bb).contains(rd as u8));
                let l = choose|l: int| 0 <= l < set_bits(bb).len() && set_bits(bb)[l] == rd as u8;
                assert(0 <= l < k && destins@[l] == rd);
            }
        }
        assert forall|mv: AnyMove|
            #![trigger tally(ctx.listed(), mv)]
            tally(ctx.listed(), mv) == tally(pre.listed(), mv) + one_if(
                rel_listed_in(p, pre.filter, mv, bb, back as int, promoting),
            ) by {
            let rd = rel_index(mv->Piece_0.destin.index as int, p.active);
            lemma_listed_before_all(bb, rd);
            assert(tally(ctx.listed(), mv) == tally(pre.listed(), mv) + one_if(
                rel_listed_in(p, pre.filter, mv, bb, back as int, promoting) && listed_before(destins@, k as int, rd),
            ));
        }
    }
}

/// Relative index `r` is among the first `k` of a list.
pub open spec fn listed_before(list: Seq<u8>, k: int, r: int) -> bool {
    exists|l: int| 0 <= l < k && #[trigger] list[l] == r
}

/// One entry further, the indices listed before are those that were and
/// the new entry, which was not among them.
pub proof fn lemma_listed_before_next(raw: u64, k: int, r: int)
    requires
        0 <= k < set_bits(raw).len(),
    ensures
        listed_before(set_bits(raw), k + 1, r) <==> listed_before(set_bits(raw), k, r) || r == set_bits(raw)[k],
        !listed_before(set_bits(raw), k, set_bits(raw)[k] as int),
{
    let list = set_bits(raw);
    lemma_set_bits(raw);
    if listed_before(list, k, r) {
        let l = choose|l: int| 0 <= l < k && #[trigger] list[l] == r;
        assert(0 <= l < k + 1 && list[l] == r);
    }
    if r == list[k] {
        assert(0 <= k < k + 1 && list[k] == r);
    }
    if listed_before(list, k + 1, r) {
        let l = choose|l: int| 0 <= l < k + 1 && #[trigger] list[l] == r;
        if l < k {
            assert(0 <= l < k && list[l] == r);
        }
    }
    if listed_before(list, k, list[k] as int) {
        let l = choose|l: int| 0 <= l < k && #[trigger] list[l] == list[k] as int;
        assert(list[l] < list[k]);
    }
}

/// Listed before the end are the indices whose bit is set.
pub proof fn lemma_listed_before_all(raw: u64, r: int)
    ensures
        listed_before(set_bits(raw), set_bits(raw).len() as int, r) <==> bit_at(raw, r),
{
    let list = set_bits(raw);
    lemma_set_bits(raw);
    if bit_at(raw, r) {
        assert(list.contains(r as u8));
        let l = choose|l: int| 0 <= l < list.len() && list[l] == r as u8;
        assert(bit_at(raw, list[l] as int));
        assert(0 <= l < list.len() && list[l] == r);
    }
    if listed_before(list, list.len() as int, r) {
        let l = choose|l: int| 0 <= l < list.len() && #[trigger] list[l] == r;
        assert(bit_at(raw, list[l] as int));
    }
}

/// The move is listed and follows the rule of a pawn's single advance.
pub open spec fn push_listed(p: Position, filter: bool, mv: AnyMove) -> bool {
    mv is Piece && pawn_push_rule(p, mv->Piece_0) && keeps(p, filter, mv->Piece_0)
}

/// Lists the single advances of the pawns of the side to move: the
/// promoting ones first.
pub fn movegen_forward1(ctx: &mut MGContext, state: &mut ChessGame)
    requires
        old(ctx).wf(),
        old(state).coherent(),
        old(state).abs().playable(),
    ensures
        same_position(*final(state), *old(state)),
        final(ctx).continues(*old(ctx)),
        forall|mv: AnyMove|
            #![trigger final(ctx).listed().contains(mv)]
            final(ctx).listed().contains(mv) <==> old(ctx).listed().contains(mv) || push_listed(
                old(state).abs(),
                old(ctx).filter,
                mv,
            ),
        forall|mv: AnyMove|
            #![trigger tally(final(ctx).listed(), mv)]
            tally(final(ctx).listed(), mv) == tally(old(ctx).listed(), mv) + one_if(
                push_listed(old(state).abs(), old(ctx).filter, mv),
            ),
{
    let ghost pre = *ctx;
    let ghost pre_state = *state;
    let ghost p = state.abs();
    let own: u64 = *state.bbs.affilia_rel_bbs.get(state.active_player());
    let pawns: u64 = own & state.bbs.pawn_rel_bb;
    let ahead: u64 = pawns << 8;
    let occupied: u64 = state.bbs.rel_occupancy();
    let bb: u64 = ahead & !occupied;
    let promoting: u64 = bb & LAST_RANK;
    let plain: u64 = bb & !LAST_RANK;
    proof {
        assert forall|j: int| 0 <= j < 64 implies bit_at(bb, j) == (8 <= j && own_piece_on(
            p,
            rel_index(j - 8, p.active),
            Species::Pawn,
        ) && p.grid[rel_index(j, p.active)] is None) by {
            lemma_bit_logic(ahead, !occupied, j);
            lemma_bit_logic(occupied, occupied, j);
            lemma_bit_shl(pawns, 8, j);
            lemma_rel_bits(*state, j);
            if j >= 8 {
                lemma_rel_bits(*state, j - 8);
            }
        }
        assert forall|j: int| bit_at(promoting, j) == (bit_at(bb, j) && 56 <= j) by {
            lemma_bit_logic(bb, LAST_RANK, j);
            if 0 <= j < 64 {
                lemma_bit_masks(j);
            }
        }
        assert forall|j: int| bit_at(plain, j) == (bit_at(bb, j) && j < 56) by {
            lemma_bit_logic(bb, !LAST_RANK, j);
            lemma_bit_logic(LAST_RANK, LAST_RANK, j);
            if 0 <= j < 64 {
                lemma_bit_masks(j);
            }
        }
    }
    push_advances(ctx, state, promoting, 8, true);
    let ghost mid = *ctx;
    proof {
        lemma_same_position_valid(pre_state, *state);
    }
    push_advances(ctx, state, plain, 8, false);
    proof {
        lemma_continues(pre, mid, *ctx);
        assert forall|mv: AnyMove|
            #![trigger ctx.listed().contains(mv)]
            ctx.listed().contains(mv) <==> pre.listed().contains(mv) || push_listed(p, pre.filter, mv) by {
            let m = mv->Piece_0;
            assert(mid.listed().contains(mv) <==> pre.listed().contains(mv) || rel_listed_in(
                p,
                pre.filter,
                mv,
                promoting,
                8,
                true,
            ));
            assert(ctx.listed().contains(mv) <==> mid.listed().contains(mv) || rel_listed_in(
                p,
                pre.filter,
                mv,
                plain,
                8,
                false,
            ));
            if mv is Piece && m.wf() {
                lemma_rel_involution(m.origin.index as int, p.active);
                lemma_rel_involution(m.destin.index as int, p.active);
            }
        }
        assert forall|mv: AnyMove|
            #![trigger tally(ctx.listed(), mv)]
            tally(ctx.listed(), mv) == tally(pre.listed(), mv) + one_if(push_listed(p, pre.filter, mv)) by {
            let m = mv->Piece_0;
            assert(tally(mid.listed(), mv) == tally(pre.listed(), mv) + one_if(
                rel_listed_in(p, pre.filter, mv, promoting, 8, true),
            ));
            assert(tally(ctx.listed(), mv) == tally(mid.listed(), mv) + one_if(
                rel_listed_in(p, pre.filter, mv, plain, 8, false),
            ));
            if mv is Piece && m.wf() {
                lemma_rel_involution(m.origin.index as int, p.active);
                lemma_rel_involution(m.destin.index as int, p.active);
            }
        }
    }
}

/// The move is listed and follows the rule of a pawn's double jump.
pub open spec fn jump_listed(p: Position, filter: bool, mv: AnyMove) -> bool {
    mv is Piece && pawn_jump_rule(p, mv->Piece_0) && keeps(p, filter, mv->Piece_0)
}

/// Lists the double jumps of the pawns of the side to move.
pub fn movegen_forward2(ctx: &mut MGContext, state: &mut ChessGame)
    requires
        old(ctx).wf(),
        old(state).coherent(),
        old(state).abs().playable(),
    ensures
        same_position(*final(state), *old(state)),
        final(ctx).continues(*old(ctx)),
        forall|mv: AnyMove|
            #![trigger final(ctx).listed().contains(mv)]
            final(ctx).listed().contains(mv) <==> old(ctx).listed().contains(mv) || jump_listed(
                old(state).abs(),
                old(ctx).filter,
                mv,
            ),
        forall|mv: AnyMove|
            #![trigger tally(final(ctx).listed(), mv)]
            tally(final(ctx).listed(), mv) == tally(old(ctx).listed(), mv) + one_if(
                jump_listed(old(state).abs(), old(ctx).filter, mv),
            ),
{
    let ghost pre = *ctx;
    let ghost p = state.abs();
    let own: u64 = *state.bbs.affilia_rel_bbs.get(state.active_player());
    let pawns: u64 = own & state.bbs.pawn_rel_bb;
    let home: u64 = pawns & SECOND_RANK;
    let occupied: u64 = state.bbs.rel_occupancy();
    let first: u64 = (home << 8) & !occupied;
    let bb: u64 = (first << 8) & !occupied;
    proof {
        assert forall|j: int| 0 <= j < 64 implies bit_at(first, j) == (16 <= j < 24 && own_piece_on(
            p,
            rel_index(j - 8, p.active),
            Species::Pawn,
        ) && p.grid[rel_index(j, p.active)] is None) by {
            lemma_bit_logic(home << 8, !occupied, j);
            lemma_bit_logic(occupied, occupied, j);
            lemma_bit_shl(home, 8, j);
            lemma_bit_logic(pawns, SECOND_RANK, j - 8);
            lemma_rel_bits(*state, j);
            if j >= 8 {
                lemma_rel_bits(*state, j - 8);
                lemma_bit_masks(j - 8);
            }
        }
        assert forall|j: int| 0 <= j < 64 implies bit_at(bb, j) == (24 <= j < 32 && own_piece_on(
            p,
            rel_index(j - 16, p.active),
            Species::Pawn,
        ) && p.grid[rel_index(j - 8, p.active)] is None && p.grid[rel_index(j, p.active)] is None) by {
            lemma_bit_logic(first << 8, !occupied, j);
            lemma_bit_logic(occupied, occupied, j);
            lemma_bit_shl(first, 8, j);
            lemma_rel_bits(*state, j);
        }
        assert forall|j: int| bit_at(bb, j) implies 16 <= j by {
        }
    }
    push_advances(ctx, state, bb, 16, false);
    proof {
        assert forall|mv: AnyMove|
            #![trigger ctx.listed().contains(mv)]
            ctx.listed().contains(mv) <==> pre.listed().contains(mv) || jump_listed(p, pre.filter, mv) by {
            let m = mv->Piece_0;
            assert(ctx.listed().contains(mv) <==> pre.listed().contains(mv) || rel_listed_in(
                p,
                pre.filter,
                mv,
                bb,
                16,
                false,
            ));
            if mv is Piece && m.wf() {
                lemma_rel_involution(m.origin.index as int, p.active);
                lemma_rel_involution(m.destin.index as int, p.active);
            }
        }
        assert forall|mv: AnyMove|
            #![trigger tally(ctx.listed(), mv)]
            tally(ctx.listed(), mv) == tally(pre.listed(), mv) + one_if(jump_listed(p, pre.filter, mv)) by {
            let m = mv->Piece_0;
            assert(tally(ctx.listed(), mv) == tally(pre.listed(), mv) + one_if(
                rel_listed_in(p, pre.filter, mv, bb, 16, false),
            ));
            if mv is Piece && m.wf() {
                lemma_rel_involution(m.origin.index as int, p.active);
                lemma_rel_involution(m.destin.index as int, p.active);
            }
        }
    }
}

/// The move is listed and is a pawn's capture towards the given wing:
/// `step` is 7 towards the queenside, 9 towards the kingside.
pub open spec fn capture_listed(p: Position, filter: bool, mv: AnyMove, step: int) -> bool {
    &&& mv is Piece
    &&& pawn_capture_rule(p, mv->Piece_0)
    &&& rel_index(mv->Piece_0.destin.index as int, p.active) == rel_index(
        mv->Piece_0.origin.index as int,
        p.active,
    ) + step
    &&& keeps(p, filter, mv->Piece_0)
}

/// Which relative indices the capture bitboard of one wing holds.
proof fn lemma_capture_bits(state: ChessGame, step: int, border: u64, bb: u64, j: int)
    requires
        state.boards_ok(),
        step == 7 || step == 9,
        border == (if step == 7 { NOT_FILE_A } else { NOT_FILE_H }),
        bb == (((state.bbs.affilia_rel_bbs.spec_get(state.bbs.active_player) & state.bbs.pawn_rel_bb) & border) << (
        step as u64)) & state.bbs.affilia_rel_bbs.spec_get(state.bbs.active_player.spec_oppo()),
        0 <= j < 64,
    ensures
        bit_at(bb, j) == (step <= j && own_piece_on(
            state.abs(),
            rel_index(j - step, state.bbs.active_player),
            Species::Pawn,
        ) && (j - step) % 8 != (if step == 7 { 0int } else { 7int }) && holds_color(
            state.p_lut@[rel_index(j, state.bbs.active_player)],
            state.bbs.active_player.spec_oppo(),
        )),
{
    let a = state.bbs.active_player;
    let pawns = state.bbs.affilia_rel_bbs.spec_get(a) & state.bbs.pawn_rel_bb;
    let inner = pawns & border;
    let ahead = inner << (step as u64);
    let theirs = state.bbs.affilia_rel_bbs.spec_get(a.spec_oppo());
    lemma_bit_logic(ahead, theirs, j);
    lemma_bit_shl(inner, step, j);
    lemma_bit_logic(pawns, border, j - step);
    lemma_rel_bits(state, j);
    if j >= step {
        lemma_rel_bits(state, j - step);
        lemma_bit_masks(j - step);
    }
}

/// The last rank splits a bitboard of destinations in two.
proof fn lemma_split_last_rank(bb: u64, j: int)
    ensures
        bit_at(bb & LAST_RANK, j) == (bit_at(bb, j) && 56 <= j),
        bit_at(bb & !LAST_RANK, j) == (bit_at(bb, j) && j < 56),
{
    lemma_bit_logic(bb, LAST_RANK, j);
    lemma_bit_logic(bb, !LAST_RANK, j);
    lemma_bit_logic(LAST_RANK, LAST_RANK, j);
    if 0 <= j < 64 {
        lemma_bit_masks(j);
    }
}

/// A move is listed by the two runs over the capture bitboard exactly when
/// it is a listed capture towards that wing.
proof fn lemma_capture_listed(state: ChessGame, filter: bool, mv: AnyMove, step: int, border: u64, bb: u64)
    requires
        state.boards_ok(),
        step == 7 || step == 9,
        border == (if step == 7 { NOT_FILE_A } else { NOT_FILE_H }),
        bb == (((state.bbs.affilia_rel_bbs.spec_get(state.bbs.active_player) & state.bbs.pawn_rel_bb) & border) << (
        step as u64)) & state.bbs.affilia_rel_bbs.spec_get(state.bbs.active_player.spec_oppo()),
    ensures
        capture_listed(state.abs(), filter, mv, step) <==> rel_listed_in(
            state.abs(),
            filter,
            mv,
            bb & LAST_RANK,
            step,
            true,
        ) || rel_listed_in(state.abs(), filter, mv, bb & !LAST_RANK, step, false),
        !(rel_listed_in(state.abs(), filter, mv, bb & LAST_RANK, step, true) && rel_listed_in(
            state.abs(),
            filter,
            mv,
            bb & !LAST_RANK,
            step,
            false,
        )),
{
    let p = state.abs();
    let m = mv->Piece_0;
    if mv is Piece && m.wf() {
        let ro = rel_index(m.origin.index as int, p.active);
        let rd = rel_index(m.destin.index as int, p.active);
        lemma_rel_involution(m.origin.index as int, p.active);
        lemma_rel_involution(m.destin.index as int, p.active);
        lemma_capture_bits(state, step, border, bb, rd);
        lemma_split_last_rank(bb, rd);
    }
}

/// Lists the captures of the pawns of the side to move towards one wing,
/// the promoting ones first.
fn movegen_capture(ctx: &mut MGContext, state: &mut ChessGame, step: u8)
    requires
        old(ctx).wf(),
        old(state).coherent(),
        old(state).abs().playable(),
        step == 7 || step == 9,
    ensures
        same_position(*final(state), *old(state)),
        final(ctx).continues(*old(ctx)),
        forall|mv: AnyMove|
            #![trigger final(ctx).listed().contains(mv)]
            final(ctx).listed().contains(mv) <==> old(ctx).listed().contains(mv) || capture_listed(
                old(state).abs(),
                old(ctx).filter,
                mv,
                step as int,
            ),
        forall|mv: AnyMove|
            #![trigger tally(final(ctx).listed(), mv)]
            tally(final(ctx).listed(), mv) == tally(old(ctx).listed(), mv) + one_if(
                capture_listed(old(state).abs(), old(ctx).filter, mv, step as int),
            ),
{
    let ghost pre = *ctx;
    let ghost pre_state = *state;
    let ghost p = state.abs();
    let own: u64 = *state.bbs.affilia_rel_bbs.get(state.active_player());
    let pawns: u64 = own & state.bbs.pawn_rel_bb;
    let border: u64 = if step == 7 {
        NOT_FILE_A
    } else {
        NOT_FILE_H
    };
    let inner: u64 = pawns & border;
    let ahead: u64 = inner << (step as u64);
    let theirs: u64 = *state.bbs.affilia_rel_bbs.get(state.active_player().oppo());
    let bb: u64 = ahead & theirs;
    let promoting: u64 = bb & LAST_RANK;
    let plain: u64 = bb & !LAST_RANK;
    proof {
        assert forall|j: int| bit_at(promoting, j) implies step <= j by {
            lemma_split_last_rank(bb, j);
        }
        assert forall|j: int| bit_at(plain, j) implies step <= j by {
            lemma_split_last_rank(bb, j);
            lemma_capture_bits(*state, step as int, border, bb, j);
        }
    }
    push_advances(ctx, state, promoting, step, true);
    let ghost mid = *ctx;
    proof {
        lemma_same_position_valid(pre_state, *state);
    }
    push_advances(ctx, state, plain, step, false);
    proof {
        lemma_continues(pre, mid, *ctx);
        assert forall|mv: AnyMove|
            #![trigger ctx.listed().contains(mv)]
            ctx.listed().contains(mv) <==> pre.listed().contains(mv) || capture_listed(
                p,
                pre.filter,
                mv,
                step as int,
            ) by {
            assert(mid.listed().contains(mv) <==> pre.listed().contains(mv) || rel_listed_in(
                p,
                pre.filter,
                mv,
                promoting,
                step as int,
                true,
            ));
            assert(ctx.listed().contains(mv) <==> mid.listed().contains(mv) || rel_listed_in(
                p,
                pre.filter,
                mv,
                plain,
                step as int,
                false,
            ));
            lemma_capture_listed(pre_state, pre.filter, mv, step as int, border, bb);
        }
        assert forall|mv: AnyMove|
            #![trigger tally(ctx.listed(), mv)]
            tally(ctx.listed(), mv) == tally(pre.listed(), mv) + one_if(
                capture_listed(p, pre.filter, mv, step as int),
            ) by {
            assert(tally(mid.listed(), mv) == tally(pre.listed(), mv) + one_if(
                rel_listed_in(p, pre.filter, mv, promoting, step as int, true),
            ));
            assert(tally(ctx.listed(), mv) == tally(mid.listed(), mv) + one_if(
                rel_listed_in(p, pre.filter, mv, plain, step as int, false),
            ));
            lemma_capture_listed(pre_state, pre.filter, mv, step as int, border, bb);
        }
    }
}

/// Lists the captures of the pawns of the side to move towards the
/// queenside.
pub fn movegen_capture_queenside(ctx: &mut MGContext, state: &mut ChessGame)
    requires
        old(ctx).wf(),
        old(state).coherent(),
        old(state).abs().playable(),
    ensures
        same_position(*final(state), *old(state)),
        final(ctx).continues(*old(ctx)),
        forall|mv: AnyMove|
            #![trigger final(ctx).listed().contains(mv)]
            final(ctx).listed().contains(mv) <==> old(ctx).listed().contains(mv) || capture_listed(
                old(state).abs(),
                old(ctx).filter,
                mv,
                7,
            ),
        forall|mv: AnyMove|
            #![trigger tally(final(ctx).listed(), mv)]
            tally(final(ctx).listed(), mv) == tally(old(ctx).listed(), mv) + one_if(
                capture_listed(old(state).abs(), old(ctx).filter, mv, 7),
            ),
{
    movegen_capture(ctx, state, 7);
}

/// Lists the captures of the pawns of the side to move towards the
/// kingside.
pub fn movegen_capture_kingside(ctx: &mut MGContext, state: &mut ChessGame)
    requires
        old(ctx).wf(),
        old(state).coherent(),
        old(state).abs().playable(),
    ensures
        same_position(*final(state), *old(state)),
        final(ctx).continues(*old(ctx)),
        forall|mv: AnyMove|
            #![trigger final(ctx).listed().contains(mv)]
            final(ctx).listed().contains(mv) <==> old(ctx).listed().contains(mv) || capture_listed(
                old(state).abs(),
                old(ctx).filter,
                mv,
                9,
            ),
        forall|mv: AnyMove|
            #![trigger tally(final(ctx).listed(), mv)]
            tally(final(ctx).listed(), mv) == tally(old(ctx).listed(), mv) + one_if(
                capture_listed(old(state).abs(), old(ctx).filter, mv, 9),
            ),
{
    movegen_capture(ctx, state, 9);
}

/// The move is listed and follows the rule of capturing en passant.
pub open spec fn ep_listed(p: Position, filter: bool, mv: AnyMove) -> bool {
    mv is Piece && en_passant_rule(p, mv->Piece_0) && keeps(p, filter, mv->Piece_0)
}

/// The move ends on relative index `rd`, starts on a relative index that
/// is a set bit of `bb`, does not promote, and is listed.
pub open spec fn rel_listed_from(p: Position, filter: bool, mv: AnyMove, bb: u64, rd: int) -> bool {
    &&& mv is Piece
    &&& bit_at(bb, rel_index(mv->Piece_0.origin.index as int, p.active))
    &&& rel_listed(p, filter, mv, rel_index(mv->Piece_0.origin.index as int, p.active), rd, false)
}

/// Lists, for every origin whose relative index is a set bit of `bb`, the
/// move from there to the tile of relative index `destin_rmrel`, without
/// promotion.
fn push_from(ctx: &mut MGContext, state: &mut ChessGame, bb: RawBitboard, destin_rmrel: RMRelCoord)
    requires
        old(ctx).wf(),
        old(state).coherent(),
        old(state).abs().playable(),
        destin_rmrel < 64,
    ensures
        same_position(*final(state), *old(state)),
        final(ctx).continues(*old(ctx)),
        forall|mv: AnyMove|
            #![trigger final(ctx).listed().contains(mv)]
            final(ctx).listed().contains(mv) <==> old(ctx).listed().contains(mv) || rel_listed_from(
                old(state).abs(),
                old(ctx).filter,
                mv,
                bb,
                destin_rmrel as int,
            ),
        forall|mv: AnyMove|
            #![trigger tally(final(ctx).listed(), mv)]
            tally(final(ctx).listed(), mv) == tally(old(ctx).listed(), mv) + one_if(
                rel_listed_from(old(state).abs(), old(ctx).filter, mv, bb, destin_rmrel as int),
            ),
{
    let ghost pre = *ctx;
    let ghost pre_state = *state;
    let ghost p = state.abs();
    let origins: Vec<u8> = scan_bits(bb);
    let mut k: usize = 0;
    proof {
        lemma_set_bits(bb);
        assert(ctx.pmoves@.subrange(0, pre.pmoves@.len() as int) =~= pre.pmoves@);
    }
    while k < origins.len()
        invariant
            k <= origins.len(),
            origins@ == set_bits(bb),
            destin_rmrel < 64,
            same_position(*state, pre_state),
            state.coherent(),
            state.abs() == p,
            p.playable(),
            ctx.continues(pre),
            forall|mv: AnyMove|
                #![trigger ctx.listed().contains(mv)]
                ctx.listed().contains(mv) <==> pre.listed().contains(mv) || (rel_listed_from(
                    p,
                    pre.filter,
                    mv,
                    bb,
                    destin_rmrel as int,
                ) && listed_before(origins@, k as int, rel_index(mv->Piece_0.origin.index as int, p.active))),
            forall|mv: AnyMove|
                #![trigger tally(ctx.listed(), mv)]
                tally(ctx.listed(), mv) == tally(pre.listed(), mv) + one_if(
                    rel_listed_from(p, pre.filter, mv, bb, destin_rmrel as int) && listed_before(
                        origins@,
                        k as int,
                        rel_index(mv->Piece_0.origin.index as int, p.active),
                    ),
                ),
        decreases origins.len() - k,
    {
        let ghost before = *ctx;
        proof {
            lemma_set_bits(bb);
        }
        let origin_rmrel: u8 = origins[k];
        push_basic(ctx, state, origin_rmrel, destin_rmrel);
        proof {
            lemma_same_position_valid(pre_state, *state);
            lemma_continues(pre, before, *ctx);
            assert forall|mv: AnyMove|
                #![trigger ctx.listed().contains(mv)]
                ctx.listed().contains(mv) <==> pre.listed().contains(mv) || (rel_listed_from(
                    p,
                    pre.filter,
                    mv,
                    bb,
                    destin_rmrel as int,
                ) && listed_before(origins@, k + 1, rel_index(mv->Piece_0.origin.index as int, p.active))) by {
                let ro = rel_index(mv->Piece_0.origin.index as int, p.active);
                lemma_listed_before_next(bb, k as int, ro);
                assert(before.listed().contains(mv) <==> pre.listed().contains(mv) || (rel_listed_from(
                    p,
                    pre.filter,
                    mv,
                    bb,
                    destin_rmrel as int,
                ) && listed_before(origins@, k as int, ro)));
                assert(ctx.listed().contains(mv) <==> before.listed().contains(mv) || rel_listed(
                    p,
                    pre.filter,
                    mv,
                    origin_rmrel as int,
                    destin_rmrel as int,
                    false,
                ));
            }
            assert forall|mv: AnyMove|
                #![trigger tally(ctx.listed(), mv)]
                tally(ctx.listed(), mv) == tally(pre.listed(), mv) + one_if(
                    rel_listed_from(p, pre.filter, mv, bb, destin_rmrel as int) && listed_before(
                        origins@,
                        k + 1,
                        rel_index(mv->Piece_0.origin.index as int, p.active),
                    ),
                ) by {
                let ro = rel_index(mv->Piece_0.origin.index as int, p.active);
                lemma_listed_before_next(bb, k as int, ro);
                assert(tally(before.listed(), mv) == tally(pre.listed(), mv) + one_if(
                    rel_listed_from(p, pre.filter, mv, bb, destin_rmrel as int) && listed_before(
                        origins@,
                        k as int,
                        ro,
                    ),
                ));
                assert(tally(ctx.listed(), mv) == tally(before.listed(), mv) + one_if(
                    rel_listed(p, pre.filter, mv, origin_rmrel as int, destin_rmrel as int, false),
                ));
            }
        }
        k += 1;
    }
    proof {
        assert forall|mv: AnyMove|
            #![trigger ctx.listed().contains(mv)]
            ctx.listed().contains(mv) <==> pre.listed().contains(mv) || rel_listed_from(
                p,
                pre.filter,
                mv,
                bb,
                destin_rmrel as int,
            ) by {
            let ro = rel_index(mv->Piece_0.origin.index as int, p.active);
            lemma_listed_before_all(bb, ro);
            assert(ctx.listed().contains(mv) <==> pre.listed().contains(mv) || (rel_listed_from(
                p,
                pre.filter,
                mv,
                bb,
                destin_rmrel as int,
            ) && listed_before(origins@, k as int, ro)));
        }
        assert forall|mv: AnyMove|
            #![trigger tally(ctx.listed(), mv)]
            tally(ctx.listed(), mv) == tally(pre.listed(), mv) + one_if(
                rel_listed_from(p, pre.filter, mv, bb, destin_rmrel as int),
            ) by {
            let ro = rel_index(mv->Piece_0.origin.index as int, p.active);
            lemma_listed_before_all(bb, ro);
            assert(tally(ctx.listed(), mv) == tally(pre.listed(), mv) + one_if(
                rel_listed_from(p, pre.filter, mv, bb, destin_rmrel as int) && listed_before(origins@, k as int, ro),
            ));
        }
    }
}

/// Lists the captures en passant of the side to move, if the last move
/// was a pawn's double jump over a tile that is still empty.
pub fn movegen_enpassant(ctx: &mut MGContext, state: &mut ChessGame)
    requires
        old(ctx).wf(),
        old(state).coherent(),
        old(state).abs().playable(),
    ensures
        same_position(*final(state), *old(state)),
        final(ctx).continues(*old(ctx)),
        forall|mv: AnyMove|
            #![trigger final(ctx).listed().contains(mv)]
            final(ctx).listed().contains(mv) <==> old(ctx).listed().contains(mv) || ep_listed(
                old(state).abs(),
                old(ctx).filter,
                mv,
            ),
        forall|mv: AnyMove|
            #![trigger tally(final(ctx).listed(), mv)]
            tally(final(ctx).listed(), mv) == tally(old(ctx).listed(), mv) + one_if(
                ep_listed(old(state).abs(), old(ctx).filter, mv),
            ),
{
    let ghost pre = *ctx;
    let ghost pre_state = *state;
    let ghost p = state.abs();
    proof {
        assert(ctx.pmoves@.subrange(0, pre.pmoves@.len() as int) =~= pre.pmoves@);
    }
    let n: usize = state.movelog.len();
    if n == 0 {
        return ;
    }
    let last_entry = state.movelog[n - 1];
    assert(last_entry == p.log.last());
    assert(p.log[n - 1].wf());
    let pmove = match last_entry.lmove {
        LoggedMove::Piece(pmove) => pmove,
        LoggedMove::Castle(_) => {
            return ;
        },
    };
    if !pmove.is_pdj {
        return ;
    }
    let active = state.active_player();
    let target_rmrel: u8 = relativize(pmove.mgmove.destin, active);
    proof {
        lemma_rel_involution(pmove.mgmove.destin.index as int, active);
    }
    let destin_rmrel: u8 = target_rmrel + 8;
    let destin: crate::grid::StandardCoordinate = absolutize(destin_rmrel, active);
    proof {
        lemma_rel_involution(destin_rmrel as int, active);
    }
    if state.p_lut.get(destin).is_some() {
        return ;
    }
    let attack: u64 = reverse_pawn_attack(destin_rmrel);
    let own: u64 = *state.bbs.affilia_rel_bbs.get(active);
    let pawns: u64 = state.bbs.pawn_rel_bb;
    let bb: u64 = attack & (own & pawns);
    push_from(ctx, state, bb, destin_rmrel);
    proof {
        assert forall|mv: AnyMove|
            rel_listed_from(p, pre.filter, mv, bb, destin_rmrel as int) == ep_listed(p, pre.filter, mv) by {
            let m = mv->Piece_0;
            let ro = rel_index(m.origin.index as int, p.active);
            if mv is Piece && m.wf() {
                lemma_rel_involution(m.origin.index as int, p.active);
                lemma_rel_involution(m.destin.index as int, p.active);
                lemma_bit_logic(attack, own & pawns, ro);
                lemma_rel_bits(pre_state, ro);
            }
        }
        assert forall|mv: AnyMove|
            #![trigger ctx.listed().contains(mv)]
            ctx.listed().contains(mv) <==> pre.listed().contains(mv) || ep_listed(p, pre.filter, mv) by {
            assert(rel_listed_from(p, pre.filter, mv, bb, destin_rmrel as int) == ep_listed(p, pre.filter, mv));
        }
        assert forall|mv: AnyMove|
            #![trigger tally(ctx.listed(), mv)]
            tally(ctx.listed(), mv) == tally(pre.listed(), mv) + one_if(ep_listed(p, pre.filter, mv)) by {
            assert(rel_listed_from(p, pre.filter, mv, bb, destin_rmrel as int) == ep_listed(p, pre.filter, mv));
        }
    }
}

/// The move is a listed move of a pawn.
pub open spec fn pawn_listed(p: Position, filter: bool, mv: AnyMove) -> bool {
    &&& mv is Piece
    &&& keeps(p, filter, mv->Piece_0)
    &&& (pawn_push_rule(p, mv->Piece_0) || pawn_jump_rule(p, mv->Piece_0) || pawn_capture_rule(p, mv->Piece_0)
        || en_passant_rule(p, mv->Piece_0))
}

/// Lists the moves of the pawns of the side to move: single advances,
/// double jumps, captures towards the queenside, captures towards the
/// kingside, captures en passant.
pub fn movegen_pawns(ctx: &mut MGContext, state: &mut ChessGame)
    requires
        old(ctx).wf(),
        old(state).coherent(),
        old(state).abs().playable(),
    ensures
        same_position(*final(state), *old(state)),
        final(ctx).continues(*old(ctx)),
        forall|mv: AnyMove|
            #![trigger final(ctx).listed().contains(mv)]
            final(ctx).listed().contains(mv) <==> old(ctx).listed().contains(mv) || pawn_listed(
                old(state).abs(),
                old(ctx).filter,
                mv,
            ),
        forall|mv: AnyMove|
            #![trigger tally(final(ctx).listed(), mv)]
            tally(final(ctx).listed(), mv) == tally(old(ctx).listed(), mv) + one_if(
                pawn_listed(old(state).abs(), old(ctx).filter, mv),
            ),
{
    let ghost pre = *ctx;
    let ghost pre_state = *state;
    let ghost p = state.abs();
    movegen_forward1(ctx, state);
    let ghost c1 = *ctx;
    proof {
        lemma_same_position_valid(pre_state, *state);
    }
    movegen_forward2(ctx, state);
    let ghost c2 = *ctx;
    proof {
        lemma_same_position_valid(pre_state, *state);
        lemma_continues(pre, c1, c2);
    }
    movegen_capture_queenside(ctx, state);
    let ghost c3 = *ctx;
    proof {
        lemma_same_position_valid(pre_state, *state);
        lemma_continues(pre, c2, c3);
    }
    movegen_capture_kingside(ctx, state);
    let ghost c4 = *ctx;
    proof {
        lemma_same_position_valid(pre_state, *state);
        lemma_continues(pre, c3, c4);
    }
    movegen_enpassant(ctx, state);
    proof {
        lemma_continues(pre, c4, *ctx);
        assert forall|mv: AnyMove|
            #![trigger ctx.listed().contains(mv)]
            ctx.listed().contains(mv) <==> pre.listed().contains(mv) || pawn_listed(p, pre.filter, mv) by {
            assert(c1.listed().contains(mv) <==> pre.listed().contains(mv) || push_listed(p, pre.filter, mv));
            assert(c2.listed().contains(mv) <==> c1.listed().contains(mv) || jump_listed(p, pre.filter, mv));
            assert(c3.listed().contains(mv) <==> c2.listed().contains(mv) || capture_listed(p, pre.filter, mv, 7));
            assert(c4.listed().contains(mv) <==> c3.listed().contains(mv) || capture_listed(p, pre.filter, mv, 9));
            assert(ctx.listed().contains(mv) <==> c4.listed().contains(mv) || ep_listed(p, pre.filter, mv));
        }
        assert forall|mv: AnyMove|
            #![trigger tally(ctx.listed(), mv)]
            tally(ctx.listed(), mv) == tally(pre.listed(), mv) + one_if(pawn_listed(p, pre.filter, mv)) by {
            assert(tally(c1.listed(), mv) == tally(pre.listed(), mv) + one_if(push_listed(p, pre.filter, mv)));
            assert(tally(c2.listed(), mv) == tally(c1.listed(), mv) + one_if(jump_listed(p, pre.filter, mv)));
            assert(tally(c3.listed(), mv) == tally(c2.listed(), mv) + one_if(capture_listed(p, pre.filter, mv, 7)));
            assert(tally(c4.listed(), mv) == tally(c3.listed(), mv) + one_if(capture_listed(p, pre.filter, mv, 9)));
            assert(tally(ctx.listed(), mv) == tally(c4.listed(), mv) + one_if(ep_listed(p, pre.filter, mv)));
        }
    }
}

} // verus!
