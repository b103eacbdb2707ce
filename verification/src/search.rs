//! The search for the best move: to one depth, and deeper and deeper until
//! the time is up.

use vstd::prelude::*;
use std::time::Instant;
use vstd::seq_lib::{to_multiset_contains, to_multiset_len};
use crate::cache::{Cache, CacheValue, HashChars, InternalCacheEntry};
use crate::eval::{all_legal, cache_sane, eval_child, frame_kept, fresh_best, lemma_listed_are_legal};
use crate::eval::{looked_ahead, no_legal_moves};
use crate::eval::{shallow_eval, spec_shallow_eval, DeepEvalException, BELOW_MIN_SCORE, MAX_SCORE, MIN_SCORE};
use crate::gamestate::{position_hash, same_position, ChessGame, Position};
use crate::makemove::{lemma_same_position_valid, lemma_unmade_after_made, make_move, unmake_move};
use crate::misc::{Max, Push, SegVec};
use crate::mov::AnyMove;
use crate::movegen::dispatch::{lists_legal, movegen_legal};
use crate::movegen::types::{moves_of, GeneratedMove};
use crate::movesort::{movegen_legal_sorted, sorted_for_search};
use crate::rules::{legal, lemma_legal_applicable, lemma_make_keeps_playable, spec_make};

verus! {

/// What a search to one depth works with.
pub struct SearchContext<'a, 'b, 'c> {
    pub gstate: &'a mut ChessGame,
    pub lookahead: u8,
    pub movebuf: &'b mut SegVec<GeneratedMove>,
    pub deadline: Instant,
    pub cache: &'c mut Cache,
}

/// The time was up before the search was through.
#[derive(Clone, Copy, Debug, PartialEq, Eq)]
pub struct DeadlineElapsed;

/// A list with the same members as a list of legal moves holds legal
/// moves only, and as many.
pub proof fn lemma_permuted_legal(p: Position, list: Seq<GeneratedMove>, seg: Seq<GeneratedMove>)
    requires
        lists_legal(p, list),
        seg.to_multiset() == list.to_multiset(),
    ensures
        all_legal(p, seg),
        seg.len() == list.len(),
        forall|mv: AnyMove| legal(p, mv) ==> #[trigger] moves_of(seg).contains(mv),
{
    lemma_listed_are_legal(p, list);
    to_multiset_len(seg);
    to_multiset_len(list);
    assert forall|k: int| 0 <= k < seg.len() implies legal(p, (#[trigger] seg[k]).mov) by {
        to_multiset_contains(seg, seg[k]);
        to_multiset_contains(list, seg[k]);
        assert(seg.contains(seg[k]));
        let i = choose|i: int| 0 <= i < list.len() && list[i] == seg[k];
        assert(legal(p, list[i].mov));
    }
    assert forall|mv: AnyMove| legal(p, mv) implies #[trigger] moves_of(seg).contains(mv) by {
        assert(moves_of(list).contains(mv));
        let i = choose|i: int| 0 <= i < moves_of(list).len() && moves_of(list)[i] == mv;
        let g = list[i];
        assert(list.contains(g));
        to_multiset_contains(list, g);
        to_multiset_contains(seg, g);
        let k = choose|k: int| 0 <= k < seg.len() && seg[k] == g;
        assert(moves_of(seg)[k] == mv);
    }
}

/// The score of a move for the side that makes it, when the position it
/// leads to is scored without looking further.
pub open spec fn shallow_score(p: Position, mov: AnyMove) -> int {
    -spec_shallow_eval(spec_make(p, mov))
}

/// What `judge_root_child` makes of an answer: whether the search ends,
/// and the best move and score after it.
pub open spec fn spec_judge_root(
    best: Max<GeneratedMove>,
    genmov: GeneratedMove,
    result: Result<i16, DeepEvalException>,
) -> (bool, Max<GeneratedMove>) {
    match result {
        Err(DeepEvalException::DeadlineElapsed) => (true, best),
        Err(DeepEvalException::Cut) => (false, best),
        Ok(score) => if -score >= best.value {
            (false, Max { item: Some(genmov), value: (-score) as i16 })
        } else {
            (false, best)
        },
    }
}

/// A search `lookahead` plies deep from position `p`, with the table as in
/// `cache_in`, may answer `r` and leave the table as in `cache_out`. The
/// legal moves, ordered as `sorted_for_search` says, are looked behind
/// one after the other, from the end of their list, and the search ends
/// with one of them or after the last, as `root_ended` says. What is left
/// open is what the clock says, whenever it is read, and the order among
/// moves that the ordering does not tell apart.
pub open spec fn searched(
    chs: HashChars,
    p: Position,
    lookahead: u8,
    cache_in: Seq<Option<InternalCacheEntry>>,
    r: Result<AnyMove, DeadlineElapsed>,
    cache_out: Seq<Option<InternalCacheEntry>>,
) -> bool {
    exists|seg: Seq<GeneratedMove>, k: nat, best: Max<GeneratedMove>, cache_mid: Seq<Option<InternalCacheEntry>>|
        sorted_for_search(p, cache_in, position_hash(chs, p), seg) && #[trigger] root_reached(
            chs,
            p,
            lookahead,
            seg,
            k,
            best,
            cache_mid,
            cache_in,
        ) && root_ended(
            chs,
            p,
            lookahead,
            seg,
            k,
            best,
            cache_mid,
            r,
            cache_out,
        )
}

/// A search that started with the table as in `cache_in` may have looked
/// behind the last `k` moves of `seg` and still go on, with `best` its
/// best so far and the table as in `cache_mid`. Each move is looked
/// behind one ply less deep and against the best score so far, and
/// `judge_root_child` makes of what comes back the best so far for the
/// next.
pub open spec fn root_reached(
    chs: HashChars,
    p: Position,
    lookahead: u8,
    seg: Seq<GeneratedMove>,
    k: nat,
    best: Max<GeneratedMove>,
    cache_mid: Seq<Option<InternalCacheEntry>>,
    cache_in: Seq<Option<InternalCacheEntry>>,
) -> bool
    decreases k,
{
    if lookahead == 0 || k > seg.len() {
        false
    } else if k == 0 {
        best == fresh_best() && cache_mid == cache_in
    } else {
        let genmov = seg[seg.len() - k];
        let behind = spec_make(p, genmov.mov);
        let deeper = (lookahead - 1) as u8;
        exists|before: Max<GeneratedMove>, cache_before: Seq<Option<InternalCacheEntry>>, child: Result<
            i16,
            DeepEvalException,
        >|
            #![trigger
                looked_ahead(chs, behind, deeper, before.value, cache_before, child, cache_mid),
                spec_judge_root(before, genmov, child)
            ]
            root_reached(chs, p, lookahead, seg, (k - 1) as nat, before, cache_before, cache_in) && looked_ahead(
                chs,
                behind,
                deeper,
                before.value,
                cache_before,
                child,
                cache_mid,
            ) && spec_judge_root(before, genmov, child) == (false, best)
    }
}

/// A search that has looked behind the last `k` moves of `seg` and still
/// goes on may end there with answer `r` and the table as in `cache_out`.
/// With every move looked behind, the answer is the best move, which is
/// remembered in the table for the position with its score. Else the next
/// move is looked behind, and the time is up behind it.
pub open spec fn root_ended(
    chs: HashChars,
    p: Position,
    lookahead: u8,
    seg: Seq<GeneratedMove>,
    k: nat,
    best: Max<GeneratedMove>,
    cache_mid: Seq<Option<InternalCacheEntry>>,
    r: Result<AnyMove, DeadlineElapsed>,
    cache_out: Seq<Option<InternalCacheEntry>>,
) -> bool {
    if lookahead == 0 || k > seg.len() {
        false
    } else if k == seg.len() {
        r == Ok::<AnyMove, DeadlineElapsed>(best.item->Some_0.mov) && cache_out == crate::cache::spec_update(
            cache_mid,
            position_hash(chs, p),
            lookahead,
            CacheValue { bestmov_id: best.item->Some_0.gen_id, score: best.value },
        )
    } else {
        let genmov = seg[seg.len() - 1 - k];
        r == Err::<AnyMove, DeadlineElapsed>(DeadlineElapsed) && looked_ahead(
            chs,
            spec_make(p, genmov.mov),
            (lookahead - 1) as u8,
            best.value,
            cache_mid,
            Err::<i16, DeepEvalException>(DeepEvalException::DeadlineElapsed),
            cache_out,
        )
    }
}

/// What the search at the root makes of the answer that came back from
/// behind one of its moves: time that is up ends the search, a cut means
/// the move is no better than the best so far, and a score, negated, is
/// the move's, which is kept if it is at least as good as the best so far.
/// The answer says whether the search ends.
pub fn judge_root_child(
    best: &mut Max<GeneratedMove>,
    genmov: GeneratedMove,
    result: Result<i16, DeepEvalException>,
) -> (ends: bool)
    requires
        result matches Ok(score) ==> MIN_SCORE <= score <= MAX_SCORE,
    ensures
        (ends, *final(best)) == spec_judge_root(*old(best), genmov, result),
{
    match result {
        Err(DeepEvalException::DeadlineElapsed) => true,
        Err(DeepEvalException::Cut) => false,
        Ok(score) => {
            best.push(genmov, -score);
            false
        },
    }
}

/// What `deepen` makes of the answer of a search: what is found after it,
/// and whether a deeper search is to follow.
pub open spec fn spec_deepen(
    found: IterDeepSearchResult,
    lookahead: u8,
    result: Result<AnyMove, DeadlineElapsed>,
) -> (IterDeepSearchResult, bool) {
    match result {
        Ok(mov) => (IterDeepSearchResult { bestmove: mov, depth_achieved: lookahead }, lookahead < 255),
        Err(_) => (found, false),
    }
}

/// A search against the clock from position `p`, with the table as in
/// `cache_in`, may find `found` and leave the table as in `cache_out`. It
/// starts with a move that no legal move beats when the position each
/// leads to is scored without looking further, counted as depth one. Then
/// the searches one ply deep, two plies deep and so on follow, each as
/// `searched` says, and `deepen` makes of each answer what is found so
/// far, until it says to stop. What is left open is what the clock says,
/// whenever it is read, and the order among moves that neither generator
/// nor ordering tell apart.
pub open spec fn deepened(
    chs: HashChars,
    p: Position,
    cache_in: Seq<Option<InternalCacheEntry>>,
    found: IterDeepSearchResult,
    cache_out: Seq<Option<InternalCacheEntry>>,
) -> bool {
    exists|first: AnyMove, n: u8, so_far: IterDeepSearchResult, cache_mid: Seq<Option<InternalCacheEntry>>|
        legal(p, first) && best_by_shallow_score(p, first) && #[trigger] deepening_reached(
            chs,
            p,
            first,
            n,
            so_far,
            cache_mid,
            cache_in,
        ) && deepening_ended(
            chs,
            p,
            n,
            so_far,
            cache_mid,
            found,
            cache_out,
        )
}

/// A search against the clock that started with the move `first` and the
/// table as in `cache_in` may have come to its search `n` plies deep, with
/// `so_far` found and the table as in `cache_mid`: every shallower search
/// answered a move, which `deepen` took for the best so far.
pub open spec fn deepening_reached(
    chs: HashChars,
    p: Position,
    first: AnyMove,
    n: u8,
    so_far: IterDeepSearchResult,
    cache_mid: Seq<Option<InternalCacheEntry>>,
    cache_in: Seq<Option<InternalCacheEntry>>,
) -> bool
    decreases n,
{
    if n == 0 {
        false
    } else if n == 1 {
        so_far == (IterDeepSearchResult { bestmove: first, depth_achieved: 1 }) && cache_mid == cache_in
    } else {
        exists|m: u8, before: IterDeepSearchResult, cache_before: Seq<Option<InternalCacheEntry>>, mv: AnyMove|
            #![trigger
                searched(chs, p, m, cache_before, Ok::<AnyMove, DeadlineElapsed>(mv), cache_mid),
                spec_deepen(before, m, Ok::<AnyMove, DeadlineElapsed>(mv))
            ]
            m + 1 == n && deepening_reached(chs, p, first, m, before, cache_before, cache_in) && searched(
                chs,
                p,
                m,
                cache_before,
                Ok::<AnyMove, DeadlineElapsed>(mv),
                cache_mid,
            ) && so_far == spec_deepen(before, m, Ok::<AnyMove, DeadlineElapsed>(mv)).0
    }
}

/// A search against the clock that has come to its search `n` plies deep
/// may end with it: `deepen` says of the search's answer that no deeper
/// search is to follow, and what is found.
pub open spec fn deepening_ended(
    chs: HashChars,
    p: Position,
    n: u8,
    so_far: IterDeepSearchResult,
    cache_mid: Seq<Option<InternalCacheEntry>>,
    found: IterDeepSearchResult,
    cache_out: Seq<Option<InternalCacheEntry>>,
) -> bool {
    exists|sr: Result<AnyMove, DeadlineElapsed>| #[trigger]
        searched(chs, p, n, cache_mid, sr, cache_out) && spec_deepen(so_far, n, sr) == (found, false)
}

/// What the search against the clock makes of the answer of the search
/// `lookahead` plies deep: a move replaces the best move, and the depth
/// reached becomes `lookahead`; time that was up leaves both as they are.
/// The answer says whether a deeper search is to follow: after a move,
/// unless the depth cannot be counted any further.
pub fn deepen(
    found: &mut IterDeepSearchResult,
    lookahead: u8,
    result: Result<AnyMove, DeadlineElapsed>,
) -> (go_on: bool)
    ensures
        (*final(found), go_on) == spec_deepen(*old(found), lookahead, result),
        final(found).depth_achieved == depth_reached(
            seq![result is Ok],
            lookahead as int,
            old(found).depth_achieved as int,
        ),
{
    proof {
        reveal_with_fuel(depth_reached, 2);
        let through = seq![result is Ok];
        assert(through.drop_first().len() == 0);
    }
    match result {
        Err(_) => false,
        Ok(mov) => {
            found.bestmove = mov;
            found.depth_achieved = lookahead;
            lookahead < 255
        },
    }
}

/// No legal move scores better than `mov` when the position each leads to
/// is scored without looking further.
pub open spec fn best_by_shallow_score(p: Position, mov: AnyMove) -> bool {
    forall|mv: AnyMove| legal(p, mv) ==> #[trigger] shallow_score(p, mv) <= shallow_score(p, mov)
}

/// Searches `lookahead` plies deep for the best move of the side to move,
/// which must have one. The answer is a legal move, or the time was up. A
/// search one ply deep answers with a move that no legal move beats when
/// the position each leads to is scored without looking further.
/// The state, and the move buffer beneath this frame's segment, are left
/// as they were found.
pub fn search(ctx: SearchContext) -> (r: Result<AnyMove, DeadlineElapsed>)
    requires
        old(ctx.gstate).valid(),
        !no_legal_moves(old(ctx.gstate).abs()),
        old(ctx.movebuf).segs_ok(),
        old(ctx.movebuf).seg().len() == 0,
        cache_sane(*old(ctx.cache)),
        ctx.lookahead >= 1,
    ensures
        frame_kept(
            *old(ctx.gstate),
            *final(ctx.gstate),
            *old(ctx.movebuf),
            *final(ctx.movebuf),
            *final(ctx.cache),
        ),
        searched(
            old(ctx.gstate).hash.chs,
            old(ctx.gstate).abs(),
            ctx.lookahead,
            old(ctx.cache).vec@,
            r,
            final(ctx.cache).vec@,
        ),
        r matches Ok(mv) ==> legal(old(ctx.gstate).abs(), mv),
        ctx.lookahead == 1 ==> (r matches Ok(mv) ==> best_by_shallow_score(old(ctx.gstate).abs(), mv)),
{
    let SearchContext { gstate, lookahead, movebuf, deadline, cache } = ctx;
    let ghost pre = *gstate;
    let ghost p = gstate.abs();
    let ghost chs = gstate.hash.chs;
    let ghost buf0 = *movebuf;
    let ghost cache0 = cache.vec@;
    let mut best: Max<GeneratedMove> = Max::new(BELOW_MIN_SCORE);
    movegen_legal_sorted(gstate, movebuf, cache);
    let ghost seg = movebuf.seg();
    proof {
        lemma_same_position_valid(pre, *gstate);
        let list = choose|list: Seq<GeneratedMove>|
            #![trigger lists_legal(p, list)]
            lists_legal(p, list) && movebuf.seg().to_multiset() == list.to_multiset();
        lemma_permuted_legal(p, list, movebuf.seg());
        lemma_listed_are_legal(p, list);
        assert(seg.subrange(0, seg.len() as int) =~= seg);
    }
    let ghost total = movebuf.seg().len();
    loop
        invariant
            frame_kept(pre, *gstate, buf0, *movebuf, *cache),
            p == pre.abs(),
            pre.valid(),
            pre == *old(ctx.gstate),
            buf0 == *old(ctx.movebuf),
            *final(gstate) == *final(ctx.gstate),
            *final(movebuf) == *final(ctx.movebuf),
            *final(cache) == *final(ctx.cache),
            all_legal(p, movebuf.seg()),
            chs == pre.hash.chs,
            total == seg.len(),
            movebuf.seg() == seg.subrange(0, movebuf.seg().len() as int),
            root_reached(chs, p, lookahead, seg, (total - movebuf.seg().len()) as nat, best, cache.vec@, cache0),
            sorted_for_search(p, cache0, position_hash(chs, p), seg),
            cache0 == old(ctx.cache).vec@,
            lookahead >= 1,
            BELOW_MIN_SCORE <= best.value <= MAX_SCORE,
            best.item matches Some(g) ==> MIN_SCORE <= best.value && legal(p, g.mov),
            best.item is None ==> best.value == BELOW_MIN_SCORE,
            movebuf.seg().len() < total ==> best.item is Some,
            total > 0,
            movebuf.seg().len() <= total,
            lookahead == ctx.lookahead,
            lookahead == 1 ==> (best.item matches Some(g) ==> best.value == shallow_score(p, g.mov)),
            lookahead == 1 ==> forall|mv: AnyMove|
                legal(p, mv) ==> moves_of(movebuf.seg()).contains(mv) || #[trigger] shallow_score(p, mv)
                    <= best.value,
        ensures
            frame_kept(pre, *gstate, buf0, *movebuf, *cache),
            best.item matches Some(g) && MIN_SCORE <= best.value <= MAX_SCORE && legal(p, g.mov),
            movebuf.seg().len() == 0,
            root_reached(chs, p, lookahead, seg, total as nat, best, cache.vec@, cache0),
            lookahead == 1 ==> (best.item matches Some(g) ==> best.value == shallow_score(p, g.mov)),
            lookahead == 1 ==> forall|mv: AnyMove|
                legal(p, mv) ==> moves_of(movebuf.seg()).contains(mv) || #[trigger] shallow_score(p, mv)
                    <= best.value,
        decreases movebuf.seg().len(),
    {
        let ghost seg_before = movebuf.seg();
        let ghost k = (total - seg_before.len()) as nat;
        let ghost cache_mid = cache.vec@;
        let genmov: GeneratedMove = match movebuf.pop() {
            Some(genmov) => genmov,
            None => {
                break ;
            },
        };
        proof {
            lemma_same_position_valid(pre, *gstate);
            assert(legal(p, seg_before[seg_before.len() - 1].mov));
            assert forall|j: int| 0 <= j < movebuf.seg().len() implies legal(p, (#[trigger] movebuf.seg()[j]).mov) by {
                assert(movebuf.seg()[j] == seg_before[j]);
            }
            assert(genmov == seg[total - 1 - k]);
            assert(movebuf.seg() =~= seg.subrange(0, movebuf.seg().len() as int));
        }
        let ghost buf_at_call = *movebuf;
        let result = eval_child(gstate, movebuf, cache, &deadline, lookahead - 1, best.value(), genmov.mov);
        proof {
            assert(same_position(*gstate, pre));
            assert(movebuf.seg() =~= buf_at_call.seg());
            assert(frame_kept(pre, *gstate, buf0, *movebuf, *cache));
        }
        let ghost best_before = best;
        let ghost cache_next = cache.vec@;
        let ends: bool = judge_root_child(&mut best, genmov, result);
        proof {
            assert(looked_ahead(
                chs,
                spec_make(p, genmov.mov),
                (lookahead - 1) as u8,
                best_before.value,
                cache_mid,
                result,
                cache_next,
            ));
            assert(spec_judge_root(best_before, genmov, result) == (ends, best));
            assert(root_reached(chs, p, lookahead, seg, k, best_before, cache_mid, cache0));
            if ends {
                assert(root_ended(
                    chs,
                    p,
                    lookahead,
                    seg,
                    k,
                    best_before,
                    cache_mid,
                    Err::<AnyMove, DeadlineElapsed>(DeadlineElapsed),
                    cache_next,
                ));
            } else {
                assert(seg[seg.len() - (k + 1)] == genmov);
                assert(root_reached(chs, p, lookahead, seg, k + 1, best, cache_next, cache0));
            }
            if best_before.item is None {
                assert(best_before.value == BELOW_MIN_SCORE);
                assert(result != Err::<i16, DeepEvalException>(DeepEvalException::Cut));
            }
            if !ends {
                match result {
                    Ok(score) => {
                        assert(MIN_SCORE <= -score <= MAX_SCORE);
                        assert(best.item is Some);
                    },
                    Err(e) => {
                        assert(e == DeepEvalException::Cut);
                        assert(best.item is Some);
                    },
                }
                if lookahead == 1 {
                    assert(result is Ok);
                    assert forall|mv: AnyMove| legal(p, mv) implies moves_of(movebuf.seg()).contains(mv)
                        || #[trigger] shallow_score(p, mv) <= best.value by {
                        if moves_of(seg_before).contains(mv) && shallow_score(p, mv) > best_before.value {
                            let j = choose|j: int| 0 <= j < moves_of(seg_before).len() && moves_of(seg_before)[j] == mv;
                            if j < seg_before.len() - 1 {
                                assert(moves_of(movebuf.seg())[j] == mv);
                            } else {
                                assert(mv == genmov.mov);
                            }
                        }
                    }
                }
            }
        }
        if ends {
            return Err(DeadlineElapsed);
        }
    }
    let chosen: GeneratedMove = best.item().unwrap();
    let ghost cache_mid = cache.vec@;
    proof {
        lemma_same_position_valid(pre, *gstate);
        if lookahead == 1 {
            assert forall|mv: AnyMove| legal(p, mv) implies #[trigger] shallow_score(p, mv) <= shallow_score(
                p,
                chosen.mov,
            ) by {
                assert(moves_of(movebuf.seg()).len() == 0);
            }
        }
    }
    cache.update(gstate, lookahead, CacheValue { score: best.value(), bestmov_id: chosen.gen_id });
    proof {
        assert(root_ended(
            chs,
            p,
            lookahead,
            seg,
            total as nat,
            best,
            cache_mid,
            Ok::<AnyMove, DeadlineElapsed>(chosen.mov),
            cache.vec@,
        ));
        assert(root_reached(chs, p, lookahead, seg, total as nat, best, cache_mid, cache0));
    }
    Ok(chosen.mov)
}

/// The score of a legal move for the side that makes it: the move is
/// made, the position it leads to is scored without looking further, and
/// the move is taken back.
pub fn shallow_child(gstate: &mut ChessGame, mov: AnyMove) -> (score: i16)
    requires
        old(gstate).valid(),
        legal(old(gstate).abs(), mov),
    ensures
        same_position(*final(gstate), *old(gstate)),
        score == shallow_score(old(gstate).abs(), mov),
        MIN_SCORE <= score <= MAX_SCORE,
{
    let ghost before = *gstate;
    let ghost p = gstate.abs();
    proof {
        lemma_legal_applicable(p, mov);
        lemma_make_keeps_playable(p, mov);
    }
    make_move(gstate, mov);
    let ghost made_state = *gstate;
    let score: i16 = -shallow_eval(gstate);
    let ghost back = *gstate;
    proof {
        lemma_same_position_valid(made_state, back);
    }
    unmake_move(gstate);
    proof {
        assert(crate::makemove::made(before, mov, made_state) && same_position(back, made_state));
        lemma_unmade_after_made(before, back, *gstate, mov);
    }
    score
}

/// The move whose result scores best for the side to move, which must
/// have one, when each result is scored without looking further: a legal
/// move, and none scores better. No deadline applies. The state and the
/// move buffer are left as they were found.
pub fn search_shallow(gstate: &mut ChessGame, movebuf: &mut SegVec<GeneratedMove>) -> (bestmove: AnyMove)
    requires
        old(gstate).valid(),
        !no_legal_moves(old(gstate).abs()),
        old(movebuf).segs_ok(),
        old(movebuf).seg().len() == 0,
    ensures
        same_position(*final(gstate), *old(gstate)),
        final(movebuf).segs_ok(),
        final(movebuf).begin == old(movebuf).begin,
        final(movebuf).vec@ == old(movebuf).vec@,
        legal(old(gstate).abs(), bestmove),
        best_by_shallow_score(old(gstate).abs(), bestmove),
{
    let ghost pre = *gstate;
    let ghost p = gstate.abs();
    let ghost buf0 = *movebuf;
    let mut best: Max<AnyMove> = Max::new(BELOW_MIN_SCORE);
    movegen_legal(gstate, movebuf);
    let ghost list = movebuf.seg();
    proof {
        lemma_same_position_valid(pre, *gstate);
        let l = choose|l: Seq<GeneratedMove>|
            lists_legal(p, l) && l.len() <= usize::MAX && movebuf.pushed() == Seq::<GeneratedMove>::empty() + l;
        assert(Seq::<GeneratedMove>::empty() + l =~= l);
        lemma_listed_are_legal(p, list);
        assert(buf0.below().len() == buf0.begin);
        assert(movebuf.below().len() == movebuf.begin);
        assert(list.subrange(0, list.len() as int) =~= list);
    }
    loop
        invariant
            same_position(*gstate, pre),
            p == pre.abs(),
            pre.valid(),
            lists_legal(p, list),
            movebuf.segs_ok(),
            movebuf.begin == buf0.begin,
            movebuf.below() == buf0.below(),
            movebuf.seg().len() <= list.len(),
            movebuf.seg() == list.subrange(0, movebuf.seg().len() as int),
            list.len() > 0,
            BELOW_MIN_SCORE <= best.value <= MAX_SCORE,
            best.item matches Some(m) ==> legal(p, m) && best.value == shallow_score(p, m),
            best.item is None ==> best.value == BELOW_MIN_SCORE,
            movebuf.seg().len() < list.len() ==> best.item is Some,
            forall|k: int| movebuf.seg().len() <= k < list.len() ==> shallow_score(p, (#[trigger] list[k]).mov) <= best.value,
        ensures
            same_position(*gstate, pre),
            movebuf.segs_ok(),
            movebuf.begin == buf0.begin,
            movebuf.below() == buf0.below(),
            movebuf.seg().len() == 0,
            best.item matches Some(m) && legal(p, m) && best.value == shallow_score(p, m),
            forall|k: int| 0 <= k < list.len() ==> shallow_score(p, (#[trigger] list[k]).mov) <= best.value,
        decreases movebuf.seg().len(),
    {
        let ghost seg_before = movebuf.seg();
        let genmov: GeneratedMove = match movebuf.pop() {
            Some(genmov) => genmov,
            None => {
                break ;
            },
        };
        proof {
            lemma_same_position_valid(pre, *gstate);
            lemma_listed_are_legal(p, list);
            assert(genmov == list[seg_before.len() - 1]);
            assert(movebuf.seg() =~= list.subrange(0, movebuf.seg().len() as int));
        }
        let score: i16 = shallow_child(gstate, genmov.mov);
        best.push(genmov.mov, score);
    }
    let bestmove: AnyMove = best.item().unwrap();
    proof {
        assert forall|mv: AnyMove| legal(p, mv) implies #[trigger] shallow_score(p, mv) <= shallow_score(
            p,
            bestmove,
        ) by {
            assert(moves_of(list).contains(mv));
            let k = choose|k: int| 0 <= k < moves_of(list).len() && moves_of(list)[k] == mv;
            assert(list[k].mov == mv);
        }
        assert(movebuf.vec@ =~= buf0.vec@) by {
            assert(movebuf.below() == buf0.below());
            assert(buf0.seg().len() == 0);
            assert(movebuf.seg().len() == 0);
            assert(buf0.vec@.len() == buf0.begin);
            assert(movebuf.vec@.len() == movebuf.begin);
            assert(movebuf.below() =~= movebuf.vec@);
            assert(buf0.below() =~= buf0.vec@);
        }
    }
    bestmove
}

/// The depth that deepening reports when the searches one ply deep, two
/// plies deep and so on end as `through` says, each `true` for a search
/// that was through in time: the depth of the last search before the first
/// that was not, and one if already the first was not. `lookahead` is the
/// depth of the search that `through` starts with, `depth` the depth
/// reached before it.
pub open spec fn depth_reached(through: Seq<bool>, lookahead: int, depth: int) -> int
    decreases through.len(),
{
    if through.len() == 0 || !through[0] {
        depth
    } else if lookahead >= 255 {
        lookahead
    } else {
        depth_reached(through.drop_first(), lookahead + 1, lookahead)
    }
}

/// Deepening never reports less when more of its searches are through:
/// if every search that is through in one run is through in another, the
/// other run reaches at least the depth of the first.
pub proof fn lemma_deeper_when_more_is_through(a: Seq<bool>, b: Seq<bool>, lookahead: int, depth: int)
    requires
        a.len() <= b.len(),
        forall|i: int| 0 <= i < a.len() && a[i] ==> b[i],
        depth <= lookahead,
    ensures
        depth_reached(a, lookahead, depth) <= depth_reached(b, lookahead, depth),
        depth <= depth_reached(a, lookahead, depth),
    decreases a.len(),
{
    if a.len() > 0 && a[0] && lookahead < 255 {
        assert(b[0]);
        assert forall|i: int| 0 <= i < a.drop_first().len() && a.drop_first()[i] implies b.drop_first()[i] by {
            assert(a.drop_first()[i] == a[i + 1]);
            assert(b.drop_first()[i] == b[i + 1]);
        }
        lemma_deeper_when_more_is_through(a.drop_first(), b.drop_first(), lookahead + 1, lookahead);
    } else if a.len() > 0 && a[0] {
        assert(b[0]);
    } else {
        lemma_depth_never_falls(b, lookahead, depth);
    }
}

/// What is found when the search `n` plies deep begins: depth one before
/// the first search, and after it the depth of the search before.
pub proof fn lemma_depth_when_reached(
    chs: HashChars,
    p: Position,
    first: AnyMove,
    n: u8,
    so_far: IterDeepSearchResult,
    cache_mid: Seq<Option<InternalCacheEntry>>,
    cache_in: Seq<Option<InternalCacheEntry>>,
)
    requires
        deepening_reached(chs, p, first, n, so_far, cache_mid, cache_in),
    ensures
        n >= 1,
        so_far.depth_achieved == (if n == 1 {
            1int
        } else {
            n - 1
        }),
{
}

/// More time never costs depth. Of two runs of the search against the
/// clock on one position, let the second come to a deeper search than the
/// first ends with, as it does where its deadline is later and the clock
/// runs alike. Then it reports at least the depth that the first reports.
pub proof fn lemma_deeper_with_more_time(
    chs: HashChars,
    p: Position,
    first_a: AnyMove,
    n_a: u8,
    so_far_a: IterDeepSearchResult,
    mid_a: Seq<Option<InternalCacheEntry>>,
    cache_a: Seq<Option<InternalCacheEntry>>,
    found_a: IterDeepSearchResult,
    out_a: Seq<Option<InternalCacheEntry>>,
    first_b: AnyMove,
    n_b: u8,
    so_far_b: IterDeepSearchResult,
    mid_b: Seq<Option<InternalCacheEntry>>,
    cache_b: Seq<Option<InternalCacheEntry>>,
    found_b: IterDeepSearchResult,
    out_b: Seq<Option<InternalCacheEntry>>,
)
    requires
        deepening_reached(chs, p, first_a, n_a, so_far_a, mid_a, cache_a),
        deepening_ended(chs, p, n_a, so_far_a, mid_a, found_a, out_a),
        deepening_reached(chs, p, first_b, n_b, so_far_b, mid_b, cache_b),
        deepening_ended(chs, p, n_b, so_far_b, mid_b, found_b, out_b),
        n_a < n_b,
    ensures
        found_a.depth_achieved <= found_b.depth_achieved,
{
    lemma_depth_when_reached(chs, p, first_a, n_a, so_far_a, mid_a, cache_a);
    lemma_depth_when_reached(chs, p, first_b, n_b, so_far_b, mid_b, cache_b);
    let sr_a = choose|sr: Result<AnyMove, DeadlineElapsed>| #[trigger]
        searched(chs, p, n_a, mid_a, sr, out_a) && spec_deepen(so_far_a, n_a, sr) == (found_a, false);
    let sr_b = choose|sr: Result<AnyMove, DeadlineElapsed>| #[trigger]
        searched(chs, p, n_b, mid_b, sr, out_b) && spec_deepen(so_far_b, n_b, sr) == (found_b, false);
}

/// Deepening never reports less than it had reached.
pub proof fn lemma_depth_never_falls(through: Seq<bool>, lookahead: int, depth: int)
    requires
        depth <= lookahead,
    ensures
        depth <= depth_reached(through, lookahead, depth),
    decreases through.len(),
{
    if through.len() > 0 && through[0] && lookahead < 255 {
        lemma_depth_never_falls(through.drop_first(), lookahead + 1, lookahead);
    }
}

/// What a search against the clock works with.
pub struct IterDeepSearchContext<'a, 'b, 'c> {
    pub gstate: &'a mut ChessGame,
    pub movebuf: &'b mut SegVec<GeneratedMove>,
    pub deadline: Instant,
    pub cache: &'c mut Cache,
}

/// What a search against the clock found: the best move of the deepest
/// search that was through in time, and that search's depth.
#[derive(Clone, Copy, Debug, PartialEq, Eq)]
pub struct IterDeepSearchResult {
    pub bestmove: AnyMove,
    pub depth_achieved: u8,
}

/// Searches for the best move of the side to move, which must have one,
/// deeper and deeper until the deadline. A search one ply deep is always
/// carried through, whatever the deadline, so there is always a legal move
/// to return; each deeper search that is through in time replaces it.
/// Where no search deeper than one ply was through, the move is one that
/// no legal move beats when the position each leads to is scored without
/// looking further. The searches work in segments of their own on top of
/// the move buffer; the state and the buffer are left as they were found.
pub fn iterdeep_search(ctx: IterDeepSearchContext) -> (found: IterDeepSearchResult)
    requires
        old(ctx.gstate).valid(),
        !no_legal_moves(old(ctx.gstate).abs()),
        old(ctx.movebuf).segs_ok(),
        cache_sane(*old(ctx.cache)),
    ensures
        final(ctx.movebuf).vec@ == old(ctx.movebuf).vec@,
        frame_kept(
            *old(ctx.gstate),
            *final(ctx.gstate),
            *old(ctx.movebuf),
            *final(ctx.movebuf),
            *final(ctx.cache),
        ),
        deepened(
            old(ctx.gstate).hash.chs,
            old(ctx.gstate).abs(),
            old(ctx.cache).vec@,
            found,
            final(ctx.cache).vec@,
        ),
        legal(old(ctx.gstate).abs(), found.bestmove),
        found.depth_achieved >= 1,
        found.depth_achieved == 1 ==> best_by_shallow_score(old(ctx.gstate).abs(), found.bestmove),
{
    let IterDeepSearchContext { gstate, movebuf, deadline, cache } = ctx;
    let ghost pre = *gstate;
    let ghost p = gstate.abs();
    let ghost chs = gstate.hash.chs;
    let ghost cache0 = cache.vec@;
    let ghost buf0 = *movebuf;
    proof {
        assert(buf0.below().len() == buf0.begin);
    }
    let outer: usize = movebuf.extend();
    let bestmove: AnyMove = search_shallow(gstate, movebuf);
    movebuf.release(outer);
    proof {
        assert(movebuf.vec@ =~= buf0.vec@);
    }
    let mut found = IterDeepSearchResult { bestmove, depth_achieved: 1 };
    let mut eval_lookahead: u8 = 1;
    loop
        invariant_except_break
            deepening_reached(chs, p, bestmove, eval_lookahead, found, cache.vec@, cache0),
        invariant
            frame_kept(pre, *gstate, buf0, *movebuf, *cache),
            movebuf.vec@ == buf0.vec@,
            p == pre.abs(),
            chs == pre.hash.chs,
            legal(p, bestmove),
            best_by_shallow_score(p, bestmove),
            pre.valid(),
            !no_legal_moves(p),
            legal(p, found.bestmove),
            1 <= found.depth_achieved,
            1 <= eval_lookahead,
            found.depth_achieved <= eval_lookahead,
            found.depth_achieved == 1 ==> best_by_shallow_score(p, found.bestmove),
        ensures
            frame_kept(pre, *gstate, buf0, *movebuf, *cache),
            movebuf.vec@ == buf0.vec@,
            legal(p, found.bestmove),
            1 <= found.depth_achieved,
            found.depth_achieved == 1 ==> best_by_shallow_score(p, found.bestmove),
            deepened(chs, p, cache0, found, cache.vec@),
        decreases 255 - eval_lookahead,
    {
        proof {
            lemma_same_position_valid(pre, *gstate);
        }
        let mark: usize = movebuf.extend();
        let ghost held = movebuf.vec@;
        let ghost cache_mid = cache.vec@;
        let ghost so_far = found;
        let result = search(SearchContext { gstate, lookahead: eval_lookahead, movebuf, deadline, cache });
        movebuf.release(mark);
        proof {
            assert(movebuf.vec@ == held);
            assert(movebuf.below() =~= buf0.below());
        }
        let go_on: bool = deepen(&mut found, eval_lookahead, result);
        proof {
            if go_on {
                let mv = result->Ok_0;
                assert(deepening_reached(chs, p, bestmove, eval_lookahead, so_far, cache_mid, cache0));
                assert(found == spec_deepen(so_far, eval_lookahead, Ok::<AnyMove, DeadlineElapsed>(mv)).0);
                assert(searched(
                    chs,
                    p,
                    eval_lookahead,
                    cache_mid,
                    Ok::<AnyMove, DeadlineElapsed>(mv),
                    cache.vec@,
                ));
                assert(deepening_reached(chs, p, bestmove, (eval_lookahead + 1) as u8, found, cache.vec@, cache0));
            } else {
                assert(searched(chs, p, eval_lookahead, cache_mid, result, cache.vec@));
                assert(deepening_ended(chs, p, eval_lookahead, so_far, cache_mid, found, cache.vec@));
                assert(deepening_reached(chs, p, bestmove, eval_lookahead, so_far, cache_mid, cache0));
            }
        }
        if !go_on {
            break ;
        }
        eval_lookahead += 1;
    }
    found
}

} // verus!
