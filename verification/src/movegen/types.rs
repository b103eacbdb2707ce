//! What the generators share: the list they fill, and the test every
//! candidate passes before it is listed.

use vstd::prelude::*;
use crate::bitboard::Bitboard;
use crate::bits::{bit_at, lemma_set_bits, set_bits};
use crate::coordinates::{decode_in, encode_in, lemma_encode_bijective, Coordinate, CoordinateSystem};
use crate::gamestate::{same_position, ChessGame, Position};
use crate::grid::StandardCoordinate;
use crate::makemove::test_pmove_legality;
use crate::mov::{get_target_sq, AnyMove, PieceMove};
use crate::piece::{Piece, Species};
use crate::rules::{pmove_applicable, pmove_safe};

verus! {

/// A move as the generator lists it, with its ordinal in the list.
#[derive(Clone, Copy, Debug, PartialEq, Eq)]
pub struct GeneratedMove {
    pub mov: AnyMove,
    pub gen_id: u8,
}

/// The ordinal of the `i`-th listed move: `i`, held at 255 from there on.
pub open spec fn ordinal(i: int) -> u8 {
    if i < 255 {
        i as u8
    } else {
        255
    }
}

/// The moves of a list of generated moves, in order.
pub open spec fn moves_of(list: Seq<GeneratedMove>) -> Seq<AnyMove> {
    Seq::new(list.len(), |i: int| list[i].mov)
}

/// Every move of the list carries its ordinal.
pub open spec fn ordinals_ok(list: Seq<GeneratedMove>) -> bool {
    forall|i: int| 0 <= i < list.len() ==> (#[trigger] list[i]).gen_id == ordinal(i)
}

/// The list a run of the generator fills.
pub struct MGContext {
    pub pmoves: Vec<GeneratedMove>,
    pub next_gen_id: u8,
    /// Whether piece moves that leave the mover's king attacked are left
    /// out.
    pub filter: bool,
}

/// A candidate is listed: it can be applied, and it leaves the mover's
/// king unattacked where the list is filtered.
pub open spec fn keeps(p: Position, filter: bool, m: PieceMove) -> bool {
    pmove_applicable(p, m) && (filter ==> pmove_safe(p, m))
}

/// A longer sequence contains what the shorter did, and the new item.
pub proof fn lemma_contains_push<T>(s: Seq<T>, x: T, y: T)
    ensures
        s.push(x).contains(y) == (s.contains(y) || x == y),
{
    let t = s.push(x);
    if s.contains(y) {
        let i = choose|i: int| 0 <= i < s.len() && s[i] == y;
        assert(t[i] == y);
    }
    if x == y {
        assert(t[s.len() as int] == y);
    }
    if t.contains(y) {
        let i = choose|i: int| 0 <= i < t.len() && t[i] == y;
        if i < s.len() {
            assert(s[i] == y);
        }
    }
}

/// How often a move occurs in a list.
pub open spec fn tally(list: Seq<AnyMove>, mv: AnyMove) -> nat {
    list.to_multiset().count(mv)
}

/// One where the condition holds, zero where it does not.
pub open spec fn one_if(b: bool) -> nat {
    if b {
        1
    } else {
        0
    }
}

/// A longer sequence holds the new item once more, and every other item
/// as often as the shorter did.
pub proof fn lemma_tally_push(s: Seq<AnyMove>, x: AnyMove, y: AnyMove)
    ensures
        tally(s.push(x), y) == tally(s, y) + one_if(x == y),
{
    broadcast use vstd::multiset::group_multiset_axioms;

    vstd::seq_lib::to_multiset_build(s, x);
}

/// A list contains the moves that occur in it at least once.
pub proof fn lemma_tally_contains(s: Seq<AnyMove>, y: AnyMove)
    ensures
        s.contains(y) <==> tally(s, y) > 0,
{
    vstd::seq_lib::to_multiset_contains(s, y);
}

/// A list in which every move occurs at most once holds no move twice.
pub proof fn lemma_tally_no_duplicates(s: Seq<AnyMove>)
    requires
        forall|mv: AnyMove| #[trigger] tally(s, mv) <= 1,
    ensures
        s.no_duplicates(),
    decreases s.len(),
{
    if s.len() > 0 {
        let head = s.drop_last();
        let x = s.last();
        assert(s =~= head.push(x));
        assert forall|mv: AnyMove| #[trigger] tally(head, mv) <= 1 by {
            lemma_tally_push(head, x, mv);
            assert(tally(s, mv) <= 1);
        }
        lemma_tally_no_duplicates(head);
        lemma_tally_push(head, x, x);
        assert(tally(s, x) <= 1);
        lemma_tally_contains(head, x);
        assert forall|i: int, j: int| 0 <= i < s.len() && 0 <= j < s.len() && i != j implies s[i] != s[j] by {
            if i < head.len() && j < head.len() {
                assert(head[i] != head[j]);
            } else if i < head.len() {
                assert(head[i] == s[i]);
            } else {
                assert(head[j] == s[j]);
            }
        }
    }
}

/// A list that holds no move twice holds every move at most once.
pub proof fn lemma_no_duplicates_tally(s: Seq<AnyMove>, mv: AnyMove)
    requires
        s.no_duplicates(),
    ensures
        tally(s, mv) <= 1,
    decreases s.len(),
{
    if s.len() == 0 {
        lemma_tally_contains(s, mv);
    } else {
        let head = s.drop_last();
        let x = s.last();
        assert(s =~= head.push(x));
        lemma_tally_push(head, x, mv);
        lemma_no_duplicates_tally(head, mv);
        if x == mv && head.contains(mv) {
            let i = choose|i: int| 0 <= i < head.len() && head[i] == mv;
            assert(s[i] == s[s.len() - 1]);
        }
        lemma_tally_contains(head, mv);
    }
}

impl MGContext {
    /// The moves listed so far.
    pub open spec fn listed(&self) -> Seq<AnyMove> {
        moves_of(self.pmoves@)
    }

    /// Every listed move carries its ordinal, and the next ordinal is
    /// ready.
    pub open spec fn wf(&self) -> bool {
        ordinals_ok(self.pmoves@) && self.next_gen_id == ordinal(self.pmoves@.len() as int)
    }

    /// `self` continues `pre`: same filter, and what `pre` listed still
    /// heads the list.
    pub open spec fn continues(&self, pre: MGContext) -> bool {
        &&& self.wf()
        &&& self.filter == pre.filter
        &&& pre.pmoves@.len() <= self.pmoves@.len()
        &&& self.pmoves@.subrange(0, pre.pmoves@.len() as int) == pre.pmoves@
    }

    /// An empty list.
    pub fn new(filter: bool) -> (ctx: Self)
        ensures
            ctx.wf(),
            ctx.filter == filter,
            ctx.pmoves@.len() == 0,
    {
        Self { pmoves: Vec::new(), next_gen_id: 0, filter }
    }

    /// Lists a move under the next ordinal.
    pub fn push_legal(&mut self, mov: AnyMove)
        requires
            old(self).wf(),
        ensures
            final(self).continues(*old(self)),
            final(self).listed() == old(self).listed().push(mov),
            final(self).pmoves@ == old(self).pmoves@.push(GeneratedMove { mov, gen_id: old(self).next_gen_id }),
    {
        let gen_id: u8 = self.next_gen_id;
        if self.next_gen_id < 255 {
            self.next_gen_id += 1;
        }
        self.pmoves.push(GeneratedMove { mov, gen_id });
        proof {
            assert(self.listed() =~= old(self).listed().push(mov));
            assert(self.pmoves@.subrange(0, old(self).pmoves@.len() as int) =~= old(self).pmoves@);
        }
    }

    /// Lists a candidate piece move if it can be applied and, where the
    /// list is filtered, leaves the mover's king unattacked.
    pub fn push_p(&mut self, state: &mut ChessGame, mov: PieceMove)
        requires
            old(self).wf(),
            old(state).coherent(),
            old(state).abs().playable(),
            mov.wf(),
        ensures
            same_position(*final(state), *old(state)),
            final(self).continues(*old(self)),
            final(self).listed() == (if keeps(old(state).abs(), old(self).filter, mov) {
                old(self).listed().push(AnyMove::Piece(mov))
            } else {
                old(self).listed()
            }),
    {
        proof {
            assert(self.pmoves@.subrange(0, self.pmoves@.len() as int) =~= self.pmoves@);
        }
        if !can_apply(state, mov) {
            return ;
        }
        let is_legal: bool = if self.filter {
            test_pmove_legality(state, mov)
        } else {
            true
        };
        if is_legal {
            self.push_legal(AnyMove::Piece(mov));
        }
    }
}

/// Continuing a continuation continues the first list.
pub proof fn lemma_continues(a: MGContext, b: MGContext, c: MGContext)
    requires
        b.continues(a),
        c.continues(b),
    ensures
        c.continues(a),
{
    assert(c.pmoves@.subrange(0, a.pmoves@.len() as int) =~= a.pmoves@) by {
        assert(c.pmoves@.subrange(0, b.pmoves@.len() as int) == b.pmoves@);
        assert(b.pmoves@.subrange(0, a.pmoves@.len() as int) == a.pmoves@);
    }
}

/// Whether a piece move can be applied to the state: it picks up a piece
/// of the side to move, captures neither a king nor a piece of the mover's
/// color, and promotes only a pawn and only to rook, knight, bishop or
/// queen.
pub fn can_apply(state: &ChessGame, mov: PieceMove) -> (ok: bool)
    requires
        state.boards_ok(),
        mov.wf(),
    ensures
        ok == pmove_applicable(state.abs(), mov),
{
    let active = state.active_player();
    let piece: Piece = match state.p_lut.get(mov.origin) {
        Some(p) => p,
        None => {
            return false;
        },
    };
    if piece.color() != active {
        return false;
    }
    let target = get_target_sq(mov, state);
    match state.p_lut.get(target) {
        Some(victim) => {
            if victim.species() == Species::King || victim.color() == active {
                return false;
            }
        },
        None => {},
    }
    match mov.promote {
        Some(sp) => piece.species() == Species::Pawn && sp != Species::King && sp != Species::Pawn,
        None => true,
    }
}

/// The move goes from `origin` to a tile of the board without promotion,
/// and is listed under the filter.
pub open spec fn basic_from(p: Position, filter: bool, mv: AnyMove, origin: StandardCoordinate) -> bool {
    &&& mv is Piece
    &&& mv->Piece_0.origin == origin
    &&& mv->Piece_0.destin.wf()
    &&& mv->Piece_0.promote is None
    &&& keeps(p, filter, mv->Piece_0)
}

/// Tile `t` is among the first `k` of a list of coordinates in the
/// traversal numbered `slot`.
pub open spec fn among_first<C: CoordinateSystem>(coords: Seq<Coordinate<C>>, slot: int, k: int, t: int) -> bool {
    exists|l: int| 0 <= l < k && t == decode_in(slot, (#[trigger] coords[l]).index as int)
}

/// The coordinates are the set bits of `raw`, lowest first.
pub open spec fn scanned<C: CoordinateSystem>(coords: Seq<Coordinate<C>>, raw: u64) -> bool {
    &&& coords.len() == set_bits(raw).len()
    &&& forall|l: int| 0 <= l < coords.len() ==> (#[trigger] coords[l]).index == set_bits(raw)[l]
}

/// One coordinate further, the tiles among the first are those that were
/// and the tile of the new coordinate, which was not among them.
pub proof fn lemma_among_first_next<C: CoordinateSystem>(
    coords: Seq<Coordinate<C>>,
    raw: u64,
    slot: int,
    k: int,
    t: int,
)
    requires
        0 <= slot < 4,
        0 <= k < coords.len(),
        scanned(coords, raw),
    ensures
        among_first(coords, slot, k + 1, t) <==> among_first(coords, slot, k, t) || t == decode_in(
            slot,
            coords[k].index as int,
        ),
        !among_first(coords, slot, k, decode_in(slot, coords[k].index as int)),
{
    lemma_set_bits(raw);
    lemma_encode_bijective(slot);
    if among_first(coords, slot, k, t) {
        let l = choose|l: int| 0 <= l < k && t == decode_in(slot, (#[trigger] coords[l]).index as int);
        assert(0 <= l < k + 1 && t == decode_in(slot, coords[l].index as int));
    }
    if t == decode_in(slot, coords[k].index as int) {
        assert(0 <= k < k + 1 && t == decode_in(slot, coords[k].index as int));
    }
    if among_first(coords, slot, k + 1, t) {
        let l = choose|l: int| 0 <= l < k + 1 && t == decode_in(slot, (#[trigger] coords[l]).index as int);
        if l < k {
            assert(0 <= l < k && t == decode_in(slot, coords[l].index as int));
        }
    }
    if among_first(coords, slot, k, decode_in(slot, coords[k].index as int)) {
        let l = choose|l: int|
            0 <= l < k && decode_in(slot, coords[k].index as int) == decode_in(
                slot,
                (#[trigger] coords[l]).index as int,
            );
        assert(coords[l].index == set_bits(raw)[l] && coords[k].index == set_bits(raw)[k]);
        assert(set_bits(raw)[l] < set_bits(raw)[k]);
        assert(encode_in(slot, decode_in(slot, coords[l].index as int)) == coords[l].index);
        assert(encode_in(slot, decode_in(slot, coords[k].index as int)) == coords[k].index);
    }
}

/// Among all the coordinates are the tiles whose bit is set.
pub proof fn lemma_among_first_all<C: CoordinateSystem>(coords: Seq<Coordinate<C>>, raw: u64, slot: int, t: int)
    requires
        0 <= slot < 4,
        0 <= t < 64,
        scanned(coords, raw),
    ensures
        among_first(coords, slot, coords.len() as int, t) <==> bit_at(raw, encode_in(slot, t)),
{
    lemma_set_bits(raw);
    lemma_encode_bijective(slot);
    let j = encode_in(slot, t);
    if bit_at(raw, j) {
        assert(set_bits(raw).contains(j as u8));
        let l = choose|l: int| 0 <= l < set_bits(raw).len() && set_bits(raw)[l] == j as u8;
        assert(coords[l].index == j);
        assert(0 <= l < coords.len() && t == decode_in(slot, coords[l].index as int));
    }
    if among_first(coords, slot, coords.len() as int, t) {
        let l = choose|l: int| 0 <= l < coords.len() && t == decode_in(slot, (#[trigger] coords[l]).index as int);
        assert(bit_at(raw, set_bits(raw)[l] as int));
        assert(encode_in(slot, t) == coords[l].index);
    }
}

/// Lists the moves from `origin` to the tiles of `targets`, lowest
/// coordinate first.
pub fn push_targets<C: CoordinateSystem>(
    ctx: &mut MGContext,
    state: &mut ChessGame,
    origin: StandardCoordinate,
    targets: Bitboard<C>,
)
    requires
        old(ctx).wf(),
        old(state).coherent(),
        old(state).abs().playable(),
        origin.wf(),
    ensures
        same_position(*final(state), *old(state)),
        final(ctx).continues(*old(ctx)),
        forall|mv: AnyMove|
            #![trigger final(ctx).listed().contains(mv)]
            final(ctx).listed().contains(mv) <==> old(ctx).listed().contains(mv) || (basic_from(
                old(state).abs(),
                old(ctx).filter,
                mv,
                origin,
            ) && targets.has(mv->Piece_0.destin.index as int)),
        forall|mv: AnyMove|
            #![trigger tally(final(ctx).listed(), mv)]
            tally(final(ctx).listed(), mv) == tally(old(ctx).listed(), mv) + one_if(
                basic_from(old(state).abs(), old(ctx).filter, mv, origin) && targets.has(
                    mv->Piece_0.destin.index as int,
                ),
            ),
{
    let ghost p = state.abs();
    let ghost pre_state = *state;
    let ghost pre = *ctx;
    let ghost slot = C::spec_slot();
    let coords: Vec<Coordinate<C>> = targets.scan();
    let mut k: usize = 0;
    proof {
        C::lemma_slot();
        lemma_encode_bijective(slot);
        lemma_set_bits(targets.raw_bb);
        assert(ctx.pmoves@.subrange(0, pre.pmoves@.len() as int) =~= pre.pmoves@);
    }
    while k < coords.len()
        invariant
            k <= coords.len(),
            0 <= slot < 4,
            slot == C::spec_slot(),
            origin.wf(),
            coords@.len() == set_bits(targets.raw_bb).len(),
            forall|l: int|
                0 <= l < coords@.len() ==> (#[trigger] coords@[l]).index == set_bits(targets.raw_bb)[l]
                    && coords@[l].wf(),
            same_position(*state, pre_state),
            state.coherent(),
            state.abs() == p,
            p.playable(),
            ctx.continues(pre),
            forall|mv: AnyMove|
                #![trigger ctx.listed().contains(mv)]
                ctx.listed().contains(mv) <==> pre.listed().contains(mv) || (basic_from(p, pre.filter, mv, origin)
                    && among_first(coords@, slot, k as int, mv->Piece_0.destin.index as int)),
            forall|mv: AnyMove|
                #![trigger tally(ctx.listed(), mv)]
                tally(ctx.listed(), mv) == tally(pre.listed(), mv) + one_if(
                    basic_from(p, pre.filter, mv, origin) && among_first(
                        coords@,
                        slot,
                        k as int,
                        mv->Piece_0.destin.index as int,
                    ),
                ),
        decreases coords.len() - k,
    {
        let ghost before = *ctx;
        let destin: StandardCoordinate = coords[k].to_std();
        let mov = PieceMove::new_basic(origin, destin);
        ctx.push_p(state, mov);
        proof {
            crate::makemove::lemma_same_position_valid(pre_state, *state);
            lemma_continues(pre, before, *ctx);
            assert forall|mv: AnyMove|
                #![trigger ctx.listed().contains(mv)]
                ctx.listed().contains(mv) <==> pre.listed().contains(mv) || (basic_from(p, pre.filter, mv, origin)
                    && among_first(coords@, slot, k + 1, mv->Piece_0.destin.index as int)) by {
                lemma_contains_push(before.listed(), AnyMove::Piece(mov), mv);
                let m = mv->Piece_0;
                let t = m.destin.index as int;
                assert(before.listed().contains(mv) <==> pre.listed().contains(mv) || (basic_from(
                    p,
                    pre.filter,
                    mv,
                    origin,
                ) && among_first(coords@, slot, k as int, t)));
                if among_first(coords@, slot, k as int, t) {
                    let l = choose|l: int| 0 <= l < k && t == decode_in(slot, (#[trigger] coords@[l]).index as int);
                    assert(0 <= l < k + 1 && t == decode_in(slot, coords@[l].index as int));
                }
                if among_first(coords@, slot, k + 1, t) && !among_first(coords@, slot, k as int, t) {
                    let l = choose|l: int|
                        0 <= l < k + 1 && t == decode_in(slot, (#[trigger] coords@[l]).index as int);
                    if l < k {
                        assert(0 <= l < k && t == decode_in(slot, coords@[l].index as int));
                    }
                    assert(l == k);
                    assert(t == mov.destin.index);
                    if basic_from(p, pre.filter, mv, origin) {
                        assert(m.destin == mov.destin);
                        assert(m == mov);
                    }
                }
                if mv == AnyMove::Piece(mov) {
                    assert(t == decode_in(slot, coords@[k as int].index as int));
                    assert(among_first(coords@, slot, k + 1, t));
                }
            }
            assert(scanned(coords@, targets.raw_bb));
            assert forall|mv: AnyMove|
                #![trigger tally(ctx.listed(), mv)]
                tally(ctx.listed(), mv) == tally(pre.listed(), mv) + one_if(
                    basic_from(p, pre.filter, mv, origin) && among_first(
                        coords@,
                        slot,
                        k + 1,
                        mv->Piece_0.destin.index as int,
                    ),
                ) by {
                let t = mv->Piece_0.destin.index as int;
                lemma_tally_push(before.listed(), AnyMove::Piece(mov), mv);
                lemma_among_first_next(coords@, targets.raw_bb, slot, k as int, t);
                assert(tally(before.listed(), mv) == tally(pre.listed(), mv) + one_if(
                    basic_from(p, pre.filter, mv, origin) && among_first(coords@, slot, k as int, t),
                ));
                if basic_from(p, pre.filter, mv, origin) && t == mov.destin.index {
                    assert(mv->Piece_0 == mov);
                }
            }
        }
        k += 1;
    }
    proof {
        assert forall|mv: AnyMove|
            #![trigger ctx.listed().contains(mv)]
            ctx.listed().contains(mv) <==> pre.listed().contains(mv) || (basic_from(p, pre.filter, mv, origin)
                && targets.has(mv->Piece_0.destin.index as int)) by {
            let m = mv->Piece_0;
            let t = m.destin.index as int;
            assert(ctx.listed().contains(mv) <==> pre.listed().contains(mv) || (basic_from(p, pre.filter, mv, origin)
                && among_first(coords@, slot, k as int, t)));
            if basic_from(p, pre.filter, mv, origin) {
                if targets.has(t) {
                    let j = encode_in(slot, t);
                    assert(bit_at(targets.raw_bb, j));
                    assert(set_bits(targets.raw_bb).contains(j as u8));
                    let l = choose|l: int|
                        0 <= l < set_bits(targets.raw_bb).len() && set_bits(targets.raw_bb)[l] == j as u8;
                    assert(coords@[l].index == j);
                    assert(0 <= l < k && t == decode_in(slot, coords@[l].index as int));
                    assert(among_first(coords@, slot, k as int, t));
                }
                if among_first(coords@, slot, k as int, t) {
                    let l = choose|l: int| 0 <= l < k && t == decode_in(slot, (#[trigger] coords@[l]).index as int);
                    let j = coords@[l].index as int;
                    assert(bit_at(targets.raw_bb, set_bits(targets.raw_bb)[l] as int));
                    assert(encode_in(slot, t) == j);
                    assert(targets.has(t));
                }
            }
        }
        assert(scanned(coords@, targets.raw_bb));
        assert forall|mv: AnyMove|
            #![trigger tally(ctx.listed(), mv)]
            tally(ctx.listed(), mv) == tally(pre.listed(), mv) + one_if(
                basic_from(p, pre.filter, mv, origin) && targets.has(mv->Piece_0.destin.index as int),
            ) by {
            let t = mv->Piece_0.destin.index as int;
            assert(tally(ctx.listed(), mv) == tally(pre.listed(), mv) + one_if(
                basic_from(p, pre.filter, mv, origin) && among_first(coords@, slot, k as int, t),
            ));
            if basic_from(p, pre.filter, mv, origin) {
                lemma_among_first_all(coords@, targets.raw_bb, slot, t);
            }
        }
    }
}

} // verus!
