//! Scoring a position: at once, from what stands on the board, and to a
//! depth, by looking ahead.

use vstd::prelude::*;
use std::time::Instant;
use crate::cache::{Cache, CacheValue, HashChars, InternalCacheEntry};
use crate::gamestate::{in_check, lemma_king_on, position_hash, same_position, ChessGame, Position};
use crate::grid::Side;
use crate::makemove::{lemma_same_position_valid, make_move, unmake_move};
use crate::mat_eval::{calc_matdiff, spec_matdiff};
use crate::misc::{Max, Push, SegVec};
use crate::mov::AnyMove;
use crate::movegen::dispatch::{count_legal_moves, lists_legal, movegen_legal};
use crate::movegen::types::{moves_of, GeneratedMove};
use crate::piece::Color;
use crate::repetitions::{count_repetitions, spec_count_repetitions};
use crate::rules::{legal, lemma_legal_applicable, spec_make};

verus! {

/// The best score there is.
pub const MAX_SCORE: i16 = 32766;

/// The worst score there is: the side to move is checkmated. Its negation
/// is `MAX_SCORE`.
pub const MIN_SCORE: i16 = -32766;

/// A value below every score, to start a search for the best from.
pub const BELOW_MIN_SCORE: i16 = -32767;

/// A point in time, as the standard library's clock gives it.
#[verifier::external_type_specification]
#[verifier::external_body]
pub struct ExInstant(std::time::Instant);

/// Reads the clock (`Instant::now`). Nothing is claimed of the answer: it
/// depends on when the call is made.
#[verifier::external_body]
fn clock_now() -> (now: Instant) {
    Instant::now()
}

/// Whether one point in time lies after another (`Instant`'s `>`). The two
/// are opaque here, so nothing is claimed of the answer.
#[verifier::external_body]
fn is_after(a: &Instant, b: &Instant) -> (after: bool) {
    *a > *b
}

/// Whether the deadline lies in the past.
fn deadline_elapsed(deadline: &Instant) -> (elapsed: bool) {
    let now: Instant = clock_now();
    is_after(&now, deadline)
}

/// The side to move has no legal move.
pub open spec fn no_legal_moves(p: Position) -> bool {
    forall|mv: AnyMove| !legal(p, mv)
}

/// What castling is worth to a color: one for each wing on which it may
/// still castle or, if it has castled, for each wing.
pub open spec fn castle_bonus(p: Position, c: Color) -> int {
    (if p.crights.has(Side::Queenside, c) || p.castled[c.spec_index()] {
        1int
    } else {
        0int
    }) + (if p.crights.has(Side::Kingside, c) || p.castled[c.spec_index()] {
        1int
    } else {
        0int
    })
}

/// The score of a position by what stands on the board: four times the
/// material balance, plus what castling is worth to the side to move,
/// less what it is worth to the opponent.
pub open spec fn spec_static_score(p: Position) -> int {
    4 * spec_matdiff(p.grid, p.active) + castle_bonus(p, p.active) - castle_bonus(p, p.active.spec_oppo())
}

/// The score of a position whose game is over, if it is: the worst score
/// for a side that cannot move and is in check, zero for one that cannot
/// move and is not, and zero for a position that has occurred three times
/// before or has gone a hundred plies without capture or pawn move.
pub open spec fn spec_leaf_eval(p: Position, cant_move: bool) -> Option<i16> {
    if cant_move {
        if in_check(p) {
            Some(MIN_SCORE)
        } else {
            Some(0i16)
        }
    } else if spec_count_repetitions(p) >= 3 || p.clock >= 100 {
        Some(0i16)
    } else {
        None
    }
}

/// The score of a position without looking ahead.
pub open spec fn spec_shallow_eval(p: Position) -> int {
    match spec_leaf_eval(p, no_legal_moves(p)) {
        Some(v) => v as int,
        None => spec_static_score(p),
    }
}

/// Every score the table holds is a score.
pub open spec fn cache_sane(cache: Cache) -> bool {
    &&& cache.wf()
    &&& forall|i: int|
        0 <= i < cache.vec@.len() ==> (#[trigger] cache.vec@[i] matches Some(e) ==> MIN_SCORE <= e.value.score
            <= MAX_SCORE)
}

/// What in a search frame is not an answer: the time is up, or the branch
/// is cut because the opponent has a better choice elsewhere.
#[derive(Clone, Copy, Debug, PartialEq, Eq)]
pub enum DeepEvalException {
    DeadlineElapsed,
    Cut,
}

/// What a look ahead works with.
pub struct DeepEvalContext<'a, 'b, 'c> {
    pub gstate: &'a mut ChessGame,
    /// The number of plies to play out before the position is scored as
    /// it stands.
    pub lookahead: u8,
    /// The buffer for the moves of this frame and of those beneath it. Its
    /// top segment is this frame's, and empty at the start.
    pub movebuf: &'b mut SegVec<GeneratedMove>,
    pub deadline: Instant,
    /// The best score the side that moved before is sure of so far. A
    /// branch that would let this side do better is cut.
    pub cutoff: i16,
    pub cache: &'c mut Cache,
}

/// The score of the position for the side to move, without looking ahead:
/// see `spec_shallow_eval`. The state is left as it was found.
pub fn shallow_eval(gstate: &mut ChessGame) -> (score: i16)
    requires
        old(gstate).valid(),
    ensures
        same_position(*final(gstate), *old(gstate)),
        score == spec_shallow_eval(old(gstate).abs()),
        MIN_SCORE <= score <= MAX_SCORE,
{
    let ghost pre = *gstate;
    let ghost p = gstate.abs();
    let cant_move: bool = count_legal_moves(gstate) == 0;
    proof {
        lemma_same_position_valid(pre, *gstate);
    }
    match leaf_eval(gstate, cant_move) {
        Some(value) => {
            return value;
        },
        None => {},
    }
    let active_player: Color = gstate.active_player();
    let mut score: i16 = 0;
    let matdiff: i16 = calc_matdiff(&gstate.bbs);
    assert(gstate.bbs.coherent(gstate.p_lut@));
    score += matdiff * 4;
    let own_castled: bool = *gstate.has_castled.get(active_player);
    let castle_qs: bool = gstate.crights.get(Side::Queenside, active_player) || own_castled;
    let castle_ks: bool = gstate.crights.get(Side::Kingside, active_player) || own_castled;
    if castle_qs {
        score += 1;
    }
    if castle_ks {
        score += 1;
    }
    let opponent: Color = active_player.oppo();
    let their_castled: bool = *gstate.has_castled.get(opponent);
    let their_qs: bool = gstate.crights.get(Side::Queenside, opponent) || their_castled;
    let their_ks: bool = gstate.crights.get(Side::Kingside, opponent) || their_castled;
    if their_qs {
        score -= 1;
    }
    if their_ks {
        score -= 1;
    }
    score
}

/// The score of a position whose game is over, or `None` if it goes on:
/// see `spec_leaf_eval`.
pub fn leaf_eval(gstate: &ChessGame, cant_move: bool) -> (score: Option<i16>)
    requires
        gstate.valid(),
    ensures
        score == spec_leaf_eval(gstate.abs(), cant_move),
{
    if cant_move {
        proof {
            lemma_king_on(gstate.bbs, gstate.p_lut@, gstate.bbs.active_player);
        }
        let check: bool = gstate.bbs.is_check();
        assert(gstate.bbs.coherent(gstate.p_lut@));
        return if check {
            Some(MIN_SCORE)
        } else {
            Some(0)
        };
    }
    let by_repetition: bool = count_repetitions(gstate) >= 3;
    let by_50moverule: bool = gstate.halfmoveclock >= 100;
    if by_repetition || by_50moverule {
        return Some(0);
    }
    None
}

/// Every move of the list is legal in the position.
pub open spec fn all_legal(p: Position, list: Seq<GeneratedMove>) -> bool {
    forall|k: int| 0 <= k < list.len() ==> legal(p, (#[trigger] list[k]).mov)
}

/// A list of exactly the legal moves holds only legal moves.
pub proof fn lemma_listed_are_legal(p: Position, list: Seq<GeneratedMove>)
    requires
        lists_legal(p, list),
    ensures
        all_legal(p, list),
        list.len() == 0 <==> no_legal_moves(p),
{
    assert forall|k: int| 0 <= k < list.len() implies legal(p, (#[trigger] list[k]).mov) by {
        assert(moves_of(list)[k] == list[k].mov);
        assert(moves_of(list).contains(list[k].mov));
    }
    if list.len() == 0 {
        assert forall|mv: AnyMove| !legal(p, mv) by {
            assert(!moves_of(list).contains(mv));
        }
    } else {
        assert(legal(p, list[0].mov));
    }
}

/// What a frame makes of the answer that came back from behind one of its
/// moves. Time that is up ends the frame. A cut behind the move means the
/// move is no better than the best so far, and the frame goes on. A score
/// is the opponent's: negated it is the move's. The side that moved
/// before is sure of `cutoff` elsewhere; if the move is worth `-cutoff` or
/// more, coming here leaves that side no better off, it will not come,
/// and the frame is cut. Otherwise the move is kept if it is at least as
/// good as the best so far. The answer says why the frame ends, or `None`
/// if it goes on.
pub fn judge_child(
    best: &mut Max<GeneratedMove>,
    cutoff: i16,
    genmove: GeneratedMove,
    result: Result<i16, DeepEvalException>,
) -> (ends: Option<DeepEvalException>)
    requires
        result matches Ok(score) ==> MIN_SCORE <= score <= MAX_SCORE,
        BELOW_MIN_SCORE <= cutoff <= MAX_SCORE,
    ensures
        (ends, *final(best)) == spec_judge(*old(best), cutoff, genmove, result),
{
    match result {
        Err(DeepEvalException::DeadlineElapsed) => Some(DeepEvalException::DeadlineElapsed),
        Err(DeepEvalException::Cut) => None,
        Ok(score) => {
            if -score >= -cutoff {
                return Some(DeepEvalException::Cut);
            }
            best.push(genmove, -score);
            None
        },
    }
}

/// What a frame of the look ahead leaves of its surroundings: the state as
/// it was, the move buffer as it was beneath the frame's segment, and a
/// table that still holds only scores.
pub open spec fn frame_kept(
    before: ChessGame,
    after: ChessGame,
    buf_before: SegVec<GeneratedMove>,
    buf_after: SegVec<GeneratedMove>,
    cache_after: Cache,
) -> bool {
    &&& same_position(after, before)
    &&& buf_after.segs_ok()
    &&& buf_after.begin == buf_before.begin
    &&& buf_after.below() == buf_before.below()
    &&& cache_sane(cache_after)
}

/// What `judge_child` makes of an answer: why the frame ends, if it does,
/// and the best move and score after it.
pub open spec fn spec_judge(
    best: Max<GeneratedMove>,
    cutoff: i16,
    genmove: GeneratedMove,
    result: Result<i16, DeepEvalException>,
) -> (Option<DeepEvalException>, Max<GeneratedMove>) {
    match result {
        Err(DeepEvalException::DeadlineElapsed) => (Some(DeepEvalException::DeadlineElapsed), best),
        Err(DeepEvalException::Cut) => (None, best),
        Ok(score) => if -score >= -cutoff {
            (Some(DeepEvalException::Cut), best)
        } else if -score >= best.value {
            (None, Max { item: Some(genmove), value: (-score) as i16 })
        } else {
            (None, best)
        },
    }
}

/// The best so far of a frame that has looked at no move yet.
pub open spec fn fresh_best() -> Max<GeneratedMove> {
    Max { item: None, value: BELOW_MIN_SCORE }
}

/// Holds of all values. It names the three that `frame_reached` binds,
/// where every term that holds the table is a relation defined through
/// `frame_reached` itself and so gives the solver nothing to look for.
pub open spec fn came_back(
    before: Max<GeneratedMove>,
    cache_before: Seq<Option<InternalCacheEntry>>,
    child: Result<i16, DeepEvalException>,
) -> bool {
    true
}

/// A look ahead of `lookahead` plies from position `p`, with the table as
/// in `cache_in`, may answer `r` and leave the table as in `cache_out`.
/// Either the time is up when it starts, and the table is left alone; or
/// it answers as `answered` says. What is left open is only what the clock
/// says, whenever it is read, and the order in which the generator lists
/// the legal moves.
pub open spec fn looked_ahead(
    chs: HashChars,
    p: Position,
    lookahead: u8,
    cutoff: i16,
    cache_in: Seq<Option<InternalCacheEntry>>,
    r: Result<i16, DeepEvalException>,
    cache_out: Seq<Option<InternalCacheEntry>>,
) -> bool
    decreases lookahead, 3nat, 0nat,
{
    (r == Err::<i16, DeepEvalException>(DeepEvalException::DeadlineElapsed) && cache_out == cache_in) || answered(
        chs,
        p,
        lookahead,
        cutoff,
        cache_in,
        r,
        cache_out,
    )
}

/// A look ahead that starts in time may answer `r` and leave the table as
/// in `cache_out`. With nothing to look ahead the answer is the score of
/// the position as it stands; for a position whose game is over, its
/// score; for a position that the table answers for at this depth, the
/// score remembered: all with the table left alone. Otherwise the legal
/// moves are looked behind one after the other, from the end of their
/// list, and the frame ends with one of them or after the last, as
/// `frame_ended` says.
pub open spec fn answered(
    chs: HashChars,
    p: Position,
    lookahead: u8,
    cutoff: i16,
    cache_in: Seq<Option<InternalCacheEntry>>,
    r: Result<i16, DeepEvalException>,
    cache_out: Seq<Option<InternalCacheEntry>>,
) -> bool
    decreases lookahead, 2nat, 0nat,
{
    if lookahead == 0 {
        (r matches Ok(score) && score == spec_shallow_eval(p)) && cache_out == cache_in
    } else {
        match spec_leaf_eval(p, no_legal_moves(p)) {
            Some(v) => r == Ok::<i16, DeepEvalException>(v) && cache_out == cache_in,
            None => match crate::cache::spec_lookup(cache_in, position_hash(chs, p), lookahead) {
                Some(value) => r == Ok::<i16, DeepEvalException>(value.score) && cache_out == cache_in,
                None => exists|list: Seq<GeneratedMove>, k: nat, best: Max<GeneratedMove>, cache_mid: Seq<
                    Option<InternalCacheEntry>,
                >| #[trigger]
                    frame_at(list, k, best, cache_mid) && lists_legal(p, list) && frame_reached(
                        chs,
                        p,
                        lookahead,
                        cutoff,
                        list,
                        k,
                        best,
                        cache_mid,
                        cache_in,
                    ) && frame_ended(chs, p, lookahead, cutoff, list, k, best, cache_mid, r, cache_out),
            },
        }
    }
}

/// Holds of all values. It names the four that `answered` binds, where
/// every term that holds them all is a relation defined through
/// `answered` itself and so gives the solver nothing to look for.
pub open spec fn frame_at(
    list: Seq<GeneratedMove>,
    k: nat,
    best: Max<GeneratedMove>,
    cache_mid: Seq<Option<InternalCacheEntry>>,
) -> bool {
    true
}

/// A frame that started with the table as in `cache_in` may have looked
/// behind the last `k` moves of `list` and still go on, with `best` its
/// best so far and the table as in `cache_mid`. At the start nothing is
/// best and the table is as it was. Each move is looked behind one ply
/// less deep and against the best score so far, and `judge_child` makes of
/// what comes back the best so far for the next.
pub open spec fn frame_reached(
    chs: HashChars,
    p: Position,
    lookahead: u8,
    cutoff: i16,
    list: Seq<GeneratedMove>,
    k: nat,
    best: Max<GeneratedMove>,
    cache_mid: Seq<Option<InternalCacheEntry>>,
    cache_in: Seq<Option<InternalCacheEntry>>,
) -> bool
    decreases lookahead, 1nat, k,
{
    if lookahead == 0 || k > list.len() {
        false
    } else if k == 0 {
        best == fresh_best() && cache_mid == cache_in
    } else {
        let genmove = list[list.len() - k];
        exists|before: Max<GeneratedMove>, cache_before: Seq<Option<InternalCacheEntry>>, child: Result<
            i16,
            DeepEvalException,
        >| #[trigger]
            came_back(before, cache_before, child) && frame_reached(
                chs,
                p,
                lookahead,
                cutoff,
                list,
                (k - 1) as nat,
                before,
                cache_before,
                cache_in,
            ) && looked_ahead(
                chs,
                spec_make(p, genmove.mov),
                (lookahead - 1) as u8,
                before.value,
                cache_before,
                child,
                cache_mid,
            ) && spec_judge(before, cutoff, genmove, child) == (None::<DeepEvalException>, best)
    }
}

/// A frame that has looked behind the last `k` moves of `list` and still
/// goes on may end there with answer `r` and the table as in `cache_out`.
/// With every move looked behind, the answer is the best score, which is
/// remembered in the table for the position. Else the next move is looked
/// behind, and what comes back ends the frame as `judge_child` says.
pub open spec fn frame_ended(
    chs: HashChars,
    p: Position,
    lookahead: u8,
    cutoff: i16,
    list: Seq<GeneratedMove>,
    k: nat,
    best: Max<GeneratedMove>,
    cache_mid: Seq<Option<InternalCacheEntry>>,
    r: Result<i16, DeepEvalException>,
    cache_out: Seq<Option<InternalCacheEntry>>,
) -> bool
    decreases lookahead, 1nat, 0nat,
{
    if lookahead == 0 || k > list.len() {
        false
    } else if k == list.len() {
        r == Ok::<i16, DeepEvalException>(best.value) && cache_out == crate::cache::spec_update(
            cache_mid,
            position_hash(chs, p),
            lookahead,
            CacheValue { bestmov_id: best.item->Some_0.gen_id, score: best.value },
        )
    } else {
        let genmove = list[list.len() - 1 - k];
        exists|child: Result<i16, DeepEvalException>|
            #![trigger spec_judge(best, cutoff, genmove, child)]
            looked_ahead(
                chs,
                spec_make(p, genmove.mov),
                (lookahead - 1) as u8,
                best.value,
                cache_mid,
                child,
                cache_out,
            ) && spec_judge(best, cutoff, genmove, child).0 is Some && r == Err::<i16, DeepEvalException>(
                spec_judge(best, cutoff, genmove, child).0->Some_0,
            )
    }
}

/// The best score the side to move is sure of when both sides look
/// `lookahead` plies ahead and play their best. The answer is a score, or
/// the time is up, or the branch is cut: the opponent, sure of `cutoff`
/// elsewhere, will not come here. The clock is read once, and
/// `deep_eval_timed` does the rest. The state, and the move buffer beneath
/// this frame's segment, are left as they were found.
pub fn deep_eval(ctx: DeepEvalContext) -> (r: Result<i16, DeepEvalException>)
    requires
        old(ctx.gstate).valid(),
        old(ctx.movebuf).segs_ok(),
        old(ctx.movebuf).seg().len() == 0,
        cache_sane(*old(ctx.cache)),
        BELOW_MIN_SCORE <= ctx.cutoff <= MAX_SCORE,
    ensures
        frame_kept(
            *old(ctx.gstate),
            *final(ctx.gstate),
            *old(ctx.movebuf),
            *final(ctx.movebuf),
            *final(ctx.cache),
        ),
        looked_ahead(
            old(ctx.gstate).hash.chs,
            old(ctx.gstate).abs(),
            ctx.lookahead,
            ctx.cutoff,
            old(ctx.cache).vec@,
            r,
            final(ctx.cache).vec@,
        ),
        r matches Ok(score) ==> MIN_SCORE <= score <= MAX_SCORE,
        ctx.cutoff == BELOW_MIN_SCORE ==> r != Err::<i16, DeepEvalException>(DeepEvalException::Cut),
    decreases ctx.lookahead, 1int,
{
    let elapsed: bool = deadline_elapsed(&ctx.deadline);
    deep_eval_timed(ctx, elapsed)
}

/// The look ahead, told whether the time is up. If it is, that is the
/// answer, and the table is left alone. Else the answer and the table are
/// as `answered` says.
pub fn deep_eval_timed(ctx: DeepEvalContext, elapsed: bool) -> (r: Result<i16, DeepEvalException>)
    requires
        old(ctx.gstate).valid(),
        old(ctx.movebuf).segs_ok(),
        old(ctx.movebuf).seg().len() == 0,
        cache_sane(*old(ctx.cache)),
        BELOW_MIN_SCORE <= ctx.cutoff <= MAX_SCORE,
    ensures
        frame_kept(
            *old(ctx.gstate),
            *final(ctx.gstate),
            *old(ctx.movebuf),
            *final(ctx.movebuf),
            *final(ctx.cache),
        ),
        elapsed ==> r == Err::<i16, DeepEvalException>(DeepEvalException::DeadlineElapsed) && final(ctx.cache).vec@
            == old(ctx.cache).vec@,
        !elapsed ==> answered(
            old(ctx.gstate).hash.chs,
            old(ctx.gstate).abs(),
            ctx.lookahead,
            ctx.cutoff,
            old(ctx.cache).vec@,
            r,
            final(ctx.cache).vec@,
        ),
        r matches Ok(score) ==> MIN_SCORE <= score <= MAX_SCORE,
        ctx.cutoff == BELOW_MIN_SCORE ==> r != Err::<i16, DeepEvalException>(DeepEvalException::Cut),
    decreases ctx.lookahead, 0int,
{
    let DeepEvalContext { gstate, lookahead, movebuf, deadline, cutoff, cache } = ctx;
    let ghost pre = *gstate;
    let ghost p = gstate.abs();
    let ghost chs = gstate.hash.chs;
    let ghost buf0 = *movebuf;
    let ghost cache0 = cache.vec@;
    proof {
        assert(buf0.below().len() == buf0.begin);
    }
    if elapsed {
        return Err(DeepEvalException::DeadlineElapsed);
    }
    if lookahead == 0 {
        return Ok(shallow_eval(gstate));
    }
    movegen_legal(gstate, movebuf);
    let ghost list = movebuf.seg();
    proof {
        lemma_same_position_valid(pre, *gstate);
        let l = choose|l: Seq<GeneratedMove>|
            lists_legal(p, l) && l.len() <= usize::MAX && movebuf.pushed() == Seq::<GeneratedMove>::empty() + l;
        assert(Seq::<GeneratedMove>::empty() + l =~= l);
        lemma_listed_are_legal(p, list);
        assert(movebuf.below().len() == movebuf.begin);
        assert(list.subrange(0, list.len() as int) =~= list);
    }
    let cant_move: bool = movebuf.is_empty();
    match leaf_eval(gstate, cant_move) {
        Some(value) => {
            return Ok(value);
        },
        None => {},
    }
    match cache.lookup_score_atleast(gstate, lookahead) {
        Some(value) => {
            proof {
                let slot = crate::cache::slot_of(gstate.hash.value, cache.vec@.len());
                assert(cache.vec@[slot] is Some);
            }
            return Ok(value);
        },
        None => {},
    }
    let mut best: Max<GeneratedMove> = Max::new(BELOW_MIN_SCORE);
    let ghost total = list.len();
    loop
        invariant
            frame_kept(pre, *gstate, buf0, *movebuf, *cache),
            p == pre.abs(),
            chs == pre.hash.chs,
            pre.valid(),
            pre == *old(ctx.gstate),
            buf0 == *old(ctx.movebuf),
            cache0 == old(ctx.cache).vec@,
            *final(gstate) == *final(ctx.gstate),
            *final(movebuf) == *final(ctx.movebuf),
            *final(cache) == *final(ctx.cache),
            lists_legal(p, list),
            all_legal(p, list),
            total == list.len(),
            movebuf.seg().len() <= total,
            movebuf.seg() == list.subrange(0, movebuf.seg().len() as int),
            lookahead > 0,
            lookahead == ctx.lookahead,
            cutoff == ctx.cutoff,
            !elapsed,
            spec_leaf_eval(p, no_legal_moves(p)) is None,
            crate::cache::spec_lookup(cache0, position_hash(chs, p), lookahead) is None,
            BELOW_MIN_SCORE <= cutoff <= MAX_SCORE,
            BELOW_MIN_SCORE <= best.value <= MAX_SCORE,
            best.item is Some ==> MIN_SCORE <= best.value,
            best.item is None ==> best.value == BELOW_MIN_SCORE,
            movebuf.seg().len() < total ==> best.item is Some,
            total > 0,
            frame_reached(
                chs,
                p,
                lookahead,
                cutoff,
                list,
                (total - movebuf.seg().len()) as nat,
                best,
                cache.vec@,
                cache0,
            ),
        ensures
            frame_kept(pre, *gstate, buf0, *movebuf, *cache),
            best.item is Some,
            MIN_SCORE <= best.value <= MAX_SCORE,
            movebuf.seg().len() == 0,
            frame_reached(chs, p, lookahead, cutoff, list, total as nat, best, cache.vec@, cache0),
        decreases movebuf.seg().len(),
    {
        let ghost seg_before = movebuf.seg();
        let ghost k = (total - seg_before.len()) as nat;
        let ghost cache_mid = cache.vec@;
        let genmove: GeneratedMove = match movebuf.pop() {
            Some(genmove) => genmove,
            None => {
                break ;
            },
        };
        proof {
            lemma_same_position_valid(pre, *gstate);
            assert(genmove == list[total - 1 - k]);
            assert(legal(p, list[total - 1 - k].mov));
            assert(movebuf.seg() =~= list.subrange(0, movebuf.seg().len() as int));
        }
        let ghost buf_at_call = *movebuf;
        let result = eval_child(gstate, movebuf, cache, &deadline, lookahead - 1, best.value(), genmove.mov);
        proof {
            assert(same_position(*gstate, pre));
            assert(movebuf.seg() =~= buf_at_call.seg());
            assert(frame_kept(pre, *gstate, buf0, *movebuf, *cache));
        }
        let ghost best_before = best;
        let ghost cache_next = cache.vec@;
        let ends: Option<DeepEvalException> = judge_child(&mut best, cutoff, genmove, result);
        proof {
            if best_before.item is None {
                assert(best_before.value == BELOW_MIN_SCORE);
                assert(result != Err::<i16, DeepEvalException>(DeepEvalException::Cut));
            }
            assert(spec_judge(best_before, cutoff, genmove, result) == (ends, best));
            assert(came_back(best_before, cache_mid, result));
            match ends {
                Some(why) => {
                    assert(frame_ended(
                        chs,
                        p,
                        lookahead,
                        cutoff,
                        list,
                        k,
                        best_before,
                        cache_mid,
                        Err::<i16, DeepEvalException>(why),
                        cache_next,
                    ));
                    assert(frame_at(list, k, best_before, cache_mid));
                },
                None => {
                    assert(list[list.len() - (k + 1)] == genmove);
                    assert(frame_reached(chs, p, lookahead, cutoff, list, k + 1, best, cache_next, cache0));
                },
            }
        }
        match ends {
            Some(why) => {
                return Err(why);
            },
            None => {},
        }
    }
    let bestmov_id: u8 = best.item().unwrap().gen_id;
    let ghost cache_mid = cache.vec@;
    proof {
        lemma_same_position_valid(pre, *gstate);
    }
    cache.update(gstate, lookahead, CacheValue { bestmov_id, score: best.value() });
    proof {
        let hash = gstate.hash.value;
        let slot = crate::cache::slot_of(hash, cache.vec@.len());
        assert(cache.vec@[slot] is Some);
        assert(frame_ended(
            chs,
            p,
            lookahead,
            cutoff,
            list,
            total as nat,
            best,
            cache_mid,
            Ok::<i16, DeepEvalException>(best.value),
            cache.vec@,
        ));
        assert(frame_at(list, total as nat, best, cache_mid));
    }
    Ok(best.value())
}

/// Looks ahead behind one move: the move is made, the position it leads
/// to is scored for the side then to move, `lookahead` plies deep, and the
/// move is taken back. The state and the whole of the move buffer are
/// left as they were found.
pub fn eval_child(
    gstate: &mut ChessGame,
    movebuf: &mut SegVec<GeneratedMove>,
    cache: &mut Cache,
    deadline: &Instant,
    lookahead: u8,
    cutoff: i16,
    mov: AnyMove,
) -> (r: Result<i16, DeepEvalException>)
    requires
        old(gstate).valid(),
        legal(old(gstate).abs(), mov),
        old(movebuf).segs_ok(),
        cache_sane(*old(cache)),
        BELOW_MIN_SCORE <= cutoff <= MAX_SCORE,
    ensures
        frame_kept(*old(gstate), *final(gstate), *old(movebuf), *final(movebuf), *final(cache)),
        final(movebuf).vec@ == old(movebuf).vec@,
        looked_ahead(
            old(gstate).hash.chs,
            spec_make(old(gstate).abs(), mov),
            lookahead,
            cutoff,
            old(cache).vec@,
            r,
            final(cache).vec@,
        ),
        r matches Ok(score) ==> MIN_SCORE <= score <= MAX_SCORE,
        cutoff == BELOW_MIN_SCORE ==> r != Err::<i16, DeepEvalException>(DeepEvalException::Cut),
        lookahead == 0 ==> (r matches Ok(score) && score == spec_shallow_eval(spec_make(old(gstate).abs(), mov)))
            || r == Err::<i16, DeepEvalException>(DeepEvalException::DeadlineElapsed),
    decreases lookahead, 2int,
{
    let ghost pre = *gstate;
    let ghost p = gstate.abs();
    let ghost held = movebuf.vec@;
    let ghost buf0 = *movebuf;
    proof {
        lemma_legal_applicable(p, mov);
    }
    make_move(gstate, mov);
    let ghost made_state = *gstate;
    let mark: usize = movebuf.extend();
    let result = deep_eval(
        DeepEvalContext { gstate, lookahead, movebuf, deadline: *deadline, cutoff, cache },
    );
    movebuf.release(mark);
    let ghost back = *gstate;
    proof {
        lemma_same_position_valid(made_state, back);
        assert(movebuf.vec@ == held);
        assert(movebuf.below() =~= buf0.below());
    }
    unmake_move(gstate);
    proof {
        assert(crate::makemove::made(pre, mov, made_state) && same_position(back, made_state));
        crate::makemove::lemma_unmade_after_made(pre, back, *gstate, mov);
    }
    result
}

} // verus!
