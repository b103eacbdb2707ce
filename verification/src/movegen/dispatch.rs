//! The generator as a whole: every kind of piece in turn, then castling.

use vstd::prelude::*;
use crate::gamestate::{same_position, ChessGame, Position};
use crate::makemove::lemma_same_position_valid;
use crate::misc::{Push, PushCount};
use crate::mov::AnyMove;
use crate::movegen::bishop::movegen_bishops;
use crate::movegen::castle::movegen_castle;
use crate::movegen::king::movegen_king;
use crate::movegen::knight::movegen_knights;
use crate::movegen::pawn::{movegen_pawns, pawn_listed};
use crate::movegen::queen::movegen_queens;
use crate::movegen::rook::movegen_rooks;
use crate::movegen::slider::slide_listed;
use crate::movegen::types::{
    keeps, lemma_continues, lemma_no_duplicates_tally, lemma_tally_contains, lemma_tally_no_duplicates, moves_of,
    one_if, ordinals_ok, tally, GeneratedMove, MGContext,
};
use crate::piece::Species;
use crate::rules::{castle_legal, legal, pmove_safe, pseudo_legal};

verus! {

/// What a run of the generator lists: the pseudo-legal piece moves, only
/// those that leave the mover's king unattacked where the run is
/// filtered, and the legal castles.
pub open spec fn generated(p: Position, filter: bool, mv: AnyMove) -> bool {
    match mv {
        AnyMove::Piece(m) => pseudo_legal(p, m) && (filter ==> pmove_safe(p, m)),
        AnyMove::Castle(side) => castle_legal(p, side),
    }
}

/// Runs every generator: king, knights, bishops, rooks, queens, pawns,
/// castling. Each move that is to be listed is listed once.
pub fn movegen_dispatch(ctx: &mut MGContext, state: &mut ChessGame)
    requires
        old(ctx).wf(),
        old(state).coherent(),
        old(state).abs().playable(),
    ensures
        same_position(*final(state), *old(state)),
        final(ctx).continues(*old(ctx)),
        forall|mv: AnyMove|
            #![trigger final(ctx).listed().contains(mv)]
            final(ctx).listed().contains(mv) <==> old(ctx).listed().contains(mv) || generated(
                old(state).abs(),
                old(ctx).filter,
                mv,
            ),
        forall|mv: AnyMove|
            #![trigger tally(final(ctx).listed(), mv)]
            tally(final(ctx).listed(), mv) == tally(old(ctx).listed(), mv) + one_if(
                generated(old(state).abs(), old(ctx).filter, mv),
            ),
{
    let ghost pre = *ctx;
    let ghost pre_state = *state;
    let ghost p = state.abs();
    let ghost f = ctx.filter;
    movegen_king(ctx, state);
    let ghost c1 = *ctx;
    proof {
        lemma_same_position_valid(pre_state, *state);
    }
    movegen_knights(ctx, state);
    let ghost c2 = *ctx;
    proof {
        lemma_same_position_valid(pre_state, *state);
        lemma_continues(pre, c1, c2);
    }
    movegen_bishops(ctx, state);
    let ghost c3 = *ctx;
    proof {
        lemma_same_position_valid(pre_state, *state);
        lemma_continues(pre, c2, c3);
    }
    movegen_rooks(ctx, state);
    let ghost c4 = *ctx;
    proof {
        lemma_same_position_valid(pre_state, *state);
        lemma_continues(pre, c3, c4);
    }
    movegen_queens(ctx, state);
    let ghost c5 = *ctx;
    proof {
        lemma_same_position_valid(pre_state, *state);
        lemma_continues(pre, c4, c5);
    }
    movegen_pawns(ctx, state);
    let ghost c6 = *ctx;
    proof {
        lemma_same_position_valid(pre_state, *state);
        lemma_continues(pre, c5, c6);
    }
    movegen_castle(ctx, state);
    proof {
        lemma_continues(pre, c6, *ctx);
        assert forall|mv: AnyMove|
            #![trigger ctx.listed().contains(mv)]
            ctx.listed().contains(mv) <==> pre.listed().contains(mv) || generated(p, f, mv) by {
            let m = mv->Piece_0;
            assert(c1.listed().contains(mv) <==> pre.listed().contains(mv) || (mv is Piece
                && crate::rules::king_rule(p, m) && keeps(p, f, m)));
            assert(c2.listed().contains(mv) <==> c1.listed().contains(mv) || (mv is Piece
                && crate::rules::knight_rule(p, m) && keeps(p, f, m)));
            assert(c3.listed().contains(mv) <==> c2.listed().contains(mv) || slide_listed(
                p,
                f,
                mv,
                Species::Bishop,
                2,
            ) || slide_listed(p, f, mv, Species::Bishop, 3));
            assert(c4.listed().contains(mv) <==> c3.listed().contains(mv) || slide_listed(p, f, mv, Species::Rook, 1)
                || slide_listed(p, f, mv, Species::Rook, 0));
            assert(c5.listed().contains(mv) <==> c4.listed().contains(mv) || slide_listed(
                p,
                f,
                mv,
                Species::Queen,
                1,
            ) || slide_listed(p, f, mv, Species::Queen, 0) || slide_listed(p, f, mv, Species::Queen, 2)
                || slide_listed(p, f, mv, Species::Queen, 3));
            assert(c6.listed().contains(mv) <==> c5.listed().contains(mv) || pawn_listed(p, f, mv));
            assert(ctx.listed().contains(mv) <==> c6.listed().contains(mv) || (mv is Castle && castle_legal(
                p,
                mv->Castle_0,
            )));
        }
        assert forall|mv: AnyMove|
            #![trigger tally(ctx.listed(), mv)]
            tally(ctx.listed(), mv) == tally(pre.listed(), mv) + one_if(generated(p, f, mv)) by {
            let m = mv->Piece_0;
            assert(tally(c1.listed(), mv) == tally(pre.listed(), mv) + one_if(
                mv is Piece && crate::rules::king_rule(p, m) && keeps(p, f, m),
            ));
            assert(tally(c2.listed(), mv) == tally(c1.listed(), mv) + one_if(
                mv is Piece && crate::rules::knight_rule(p, m) && keeps(p, f, m),
            ));
            assert(tally(c3.listed(), mv) == tally(c2.listed(), mv) + one_if(
                slide_listed(p, f, mv, Species::Bishop, 2) || slide_listed(p, f, mv, Species::Bishop, 3),
            ));
            assert(tally(c4.listed(), mv) == tally(c3.listed(), mv) + one_if(
                slide_listed(p, f, mv, Species::Rook, 1) || slide_listed(p, f, mv, Species::Rook, 0),
            ));
            assert(tally(c5.listed(), mv) == tally(c4.listed(), mv) + one_if(
                slide_listed(p, f, mv, Species::Queen, 1) || slide_listed(p, f, mv, Species::Queen, 0) || slide_listed(
                    p,
                    f,
                    mv,
                    Species::Queen,
                    2,
                ) || slide_listed(p, f, mv, Species::Queen, 3),
            ));
            assert(tally(c6.listed(), mv) == tally(c5.listed(), mv) + one_if(pawn_listed(p, f, mv)));
            assert(tally(ctx.listed(), mv) == tally(c6.listed(), mv) + one_if(
                mv is Castle && castle_legal(p, mv->Castle_0),
            ));
        }
    }
}

/// A list holds exactly the legal moves of a position, each once and
/// under its ordinal.
pub open spec fn lists_legal(p: Position, list: Seq<GeneratedMove>) -> bool {
    &&& ordinals_ok(list)
    &&& moves_of(list).no_duplicates()
    &&& forall|mv: AnyMove| #[trigger] moves_of(list).contains(mv) <==> legal(p, mv)
}

/// A list that adds each of its moves once to an empty list holds no move
/// twice.
proof fn lemma_once_each(empty: Seq<AnyMove>, list: Seq<AnyMove>, p: Position, filter: bool)
    requires
        empty.len() == 0,
        forall|mv: AnyMove| #[trigger] tally(list, mv) == tally(empty, mv) + one_if(generated(p, filter, mv)),
    ensures
        list.no_duplicates(),
{
    assert forall|mv: AnyMove| #[trigger] tally(list, mv) <= 1 by {
        lemma_tally_contains(empty, mv);
        assert(tally(list, mv) == tally(empty, mv) + one_if(generated(p, filter, mv)));
    }
    lemma_tally_no_duplicates(list);
}

/// A list of the legal moves of a position holds every legal move once
/// and no other move.
pub proof fn lemma_listed_once(p: Position, list: Seq<GeneratedMove>, mv: AnyMove)
    requires
        lists_legal(p, list),
    ensures
        tally(moves_of(list), mv) == one_if(legal(p, mv)),
{
    lemma_no_duplicates_tally(moves_of(list), mv);
    lemma_tally_contains(moves_of(list), mv);
    assert(moves_of(list).contains(mv) <==> legal(p, mv));
}

/// The number of legal moves of a position.
pub open spec fn legal_count(p: Position) -> nat {
    Set::new(|mv: AnyMove| legal(p, mv)).len()
}

/// A list of the legal moves of a position is as long as the position has
/// legal moves, so two such lists have one length.
pub proof fn lemma_legal_list_length(p: Position, list: Seq<GeneratedMove>)
    requires
        lists_legal(p, list),
    ensures
        list.len() == legal_count(p),
{
    let moves = moves_of(list);
    moves.unique_seq_to_set();
    assert(moves.to_set() =~= Set::new(|mv: AnyMove| legal(p, mv))) by {
        assert forall|mv: AnyMove| moves.to_set().contains(mv) == legal(p, mv) by {
            assert(moves.contains(mv) <==> legal(p, mv));
        }
    }
}

/// The legal moves of the position, each once and under its ordinal. The
/// state is left as it was found.
pub fn legal_moves(state: &mut ChessGame) -> (list: Vec<GeneratedMove>)
    requires
        old(state).coherent(),
        old(state).abs().playable(),
    ensures
        same_position(*final(state), *old(state)),
        lists_legal(old(state).abs(), list@),
        list@.len() == legal_count(old(state).abs()),
{
    let ghost p = state.abs();
    let mut ctx = MGContext::new(true);
    let ghost empty = ctx;
    assert forall|mv: AnyMove| !empty.listed().contains(mv) by {
        assert(empty.listed().len() == 0);
    }
    movegen_dispatch(&mut ctx, state);
    proof {
        assert forall|mv: AnyMove| #[trigger] moves_of(ctx.pmoves@).contains(mv) <==> legal(p, mv) by {
            assert(ctx.listed().contains(mv) <==> empty.listed().contains(mv) || generated(p, true, mv));
        }
        lemma_once_each(empty.listed(), ctx.listed(), p, true);
        lemma_legal_list_length(p, ctx.pmoves@);
    }
    ctx.pmoves
}

/// The pseudo-legal moves of the position: what the generator lists when
/// nothing is left out for the king's sake. These are the pseudo-legal
/// piece moves and the legal castles, each once.
pub fn pseudo_legal_moves(state: &mut ChessGame) -> (list: Vec<GeneratedMove>)
    requires
        old(state).coherent(),
        old(state).abs().playable(),
    ensures
        same_position(*final(state), *old(state)),
        ordinals_ok(list@),
        moves_of(list@).no_duplicates(),
        forall|mv: AnyMove| #[trigger] moves_of(list@).contains(mv) <==> generated(old(state).abs(), false, mv),
{
    let ghost p = state.abs();
    let mut ctx = MGContext::new(false);
    let ghost empty = ctx;
    assert forall|mv: AnyMove| !empty.listed().contains(mv) by {
        assert(empty.listed().len() == 0);
    }
    movegen_dispatch(&mut ctx, state);
    proof {
        assert forall|mv: AnyMove| #[trigger] moves_of(ctx.pmoves@).contains(mv) <==> generated(p, false, mv) by {
            assert(ctx.listed().contains(mv) <==> empty.listed().contains(mv) || generated(p, false, mv));
        }
        lemma_once_each(empty.listed(), ctx.listed(), p, false);
    }
    ctx.pmoves
}

/// Pushes the legal moves of the position, each under its ordinal, into
/// `moves`. The state is left as it was found.
pub fn movegen_legal<P: Push<GeneratedMove>>(state: &mut ChessGame, moves: &mut P)
    requires
        old(state).coherent(),
        old(state).abs().playable(),
        old(moves).wf(),
    ensures
        same_position(*final(state), *old(state)),
        final(moves).wf(),
        final(moves).rest() == old(moves).rest(),
        final(moves).pushed().len() == old(moves).pushed().len() + legal_count(old(state).abs()),
        exists|list: Seq<GeneratedMove>|
            lists_legal(old(state).abs(), list) && list.len() <= usize::MAX && final(moves).pushed() == old(
                moves,
            ).pushed() + list,
{
    let list: Vec<GeneratedMove> = legal_moves(state);
    let mut i: usize = 0;
    let ghost before = moves.pushed();
    proof {
        assert(before + list@.subrange(0, 0) =~= before);
    }
    while i < list.len()
        invariant
            i <= list.len(),
            moves.wf(),
            moves.rest() == old(moves).rest(),
            moves.pushed() == before + list@.subrange(0, i as int),
        decreases list.len() - i,
    {
        moves.push(list[i]);
        proof {
            assert((before + list@.subrange(0, i as int)).push(list@[i as int]) =~= before + list@.subrange(
                0,
                i + 1,
            ));
        }
        i += 1;
    }
    proof {
        assert(list@.subrange(0, list@.len() as int) =~= list@);
    }
}

/// The number of legal moves of the position: the length of every list
/// that holds each of them once. The state is left as it was found.
pub fn count_legal_moves(state: &mut ChessGame) -> (n: usize)
    requires
        old(state).coherent(),
        old(state).abs().playable(),
    ensures
        same_position(*final(state), *old(state)),
        n == legal_count(old(state).abs()),
        exists|list: Seq<GeneratedMove>| lists_legal(old(state).abs(), list) && n == list.len(),
        n == 0 <==> forall|mv: AnyMove| !legal(old(state).abs(), mv),
{
    let mut counter: PushCount<GeneratedMove> = PushCount::new();
    movegen_legal(state, &mut counter);
    proof {
        let p = old(state).abs();
        let list = choose|list: Seq<GeneratedMove>|
            lists_legal(p, list) && list.len() <= usize::MAX && counter.pushed() == Seq::<GeneratedMove>::empty()
                + list;
        assert(Seq::<GeneratedMove>::empty() + list =~= list);
        assert(counter.count == crate::misc::capped(list.len()));
        lemma_legal_list_length(p, list);
        if list.len() == 0 {
            assert forall|mv: AnyMove| !legal(p, mv) by {
                assert(!moves_of(list).contains(mv));
            }
        } else {
            assert(moves_of(list)[0] == list[0].mov);
            assert(moves_of(list).contains(list[0].mov));
        }
    }
    counter.count()
}

/// Every move that the generator lists as legal it also lists when nothing
/// is left out for the king's sake, and what it then lists beyond the
/// legal moves are exactly the piece moves that leave the mover's king
/// attacked.
pub proof fn lemma_legal_list_within_pseudo_legal_list(
    p: Position,
    legal_list: Seq<GeneratedMove>,
    pseudo_list: Seq<GeneratedMove>,
    mv: AnyMove,
)
    requires
        lists_legal(p, legal_list),
        forall|m: AnyMove| #[trigger] moves_of(pseudo_list).contains(m) <==> generated(p, false, m),
    ensures
        moves_of(legal_list).contains(mv) ==> moves_of(pseudo_list).contains(mv),
        moves_of(pseudo_list).contains(mv) && !moves_of(legal_list).contains(mv) <==> mv is Piece && pseudo_legal(
            p,
            mv->Piece_0,
        ) && crate::gamestate::in_check(crate::rules::after_pmove(p, mv->Piece_0)),
{
    assert(moves_of(legal_list).contains(mv) <==> legal(p, mv));
    assert(moves_of(pseudo_list).contains(mv) <==> generated(p, false, mv));
}

} // verus!
