//! The order in which a search looks at the moves of a position.

use vstd::prelude::*;
use vstd::seq_lib::{to_multiset_build, to_multiset_remove, to_multiset_update};
use crate::cache::{spec_lookup, Cache};
use crate::gamestate::{same_position, ChessGame, Position};
use crate::makemove::lemma_same_position_valid;
use crate::mat_eval::{get_species_value, value_of};
use crate::misc::{Push, SegVec};
use crate::mov::{get_target_sq, AnyMove};
use crate::movegen::dispatch::{legal_moves, lists_legal};
use crate::movegen::types::GeneratedMove;
use crate::piece::Species;
use crate::rules::spec_target;

verus! {

/// How promising a move looks: 4 for a capture of a piece worth more than
/// the capturer, 3 for a castle, 2 for a pawn's advance, 1 for any other
/// move.
pub open spec fn spec_score_mov(p: Position, mov: AnyMove) -> u8 {
    match mov {
        AnyMove::Castle(_) => 3,
        AnyMove::Piece(m) => {
            let mover = p.grid[m.origin.index as int]->Some_0;
            match p.grid[spec_target(p, m)] {
                Some(victim) => if value_of(victim.species) > value_of(mover.species) {
                    4
                } else {
                    1
                },
                None => if mover.species == Species::Pawn {
                    2
                } else {
                    1
                },
            }
        },
    }
}

/// How promising a move looks: see `spec_score_mov`.
pub fn score_mov(state: &ChessGame, mov: AnyMove) -> (score: u8)
    requires
        state.boards_ok(),
        mov.wf(),
        mov matches AnyMove::Piece(m) ==> state.p_lut@[m.origin.index as int] is Some,
    ensures
        score == spec_score_mov(state.abs(), mov),
        1 <= score <= 4,
{
    match mov {
        AnyMove::Piece(pmov) => {
            let mover = state.p_lut.get(pmov.origin).unwrap();
            let target = get_target_sq(pmov, state);
            match state.p_lut.get(target) {
                Some(victim) => {
                    let victim_value: u8 = get_species_value(victim.species());
                    let mover_value: u8 = get_species_value(mover.species());
                    if victim_value > mover_value {
                        return 4;
                    }
                },
                None => {
                    if mover.species() == Species::Pawn {
                        return 2;
                    }
                },
            }
            1
        },
        AnyMove::Castle(_) => 3,
    }
}

/// The keys of a list descend.
pub open spec fn descending(keys: Seq<u8>) -> bool {
    forall|a: int, b: int| 0 <= a <= b < keys.len() ==> keys[a] >= keys[b]
}

/// Each key belongs to the move at its place.
pub open spec fn keyed(list: Seq<GeneratedMove>, keys: Seq<u8>, p: Position) -> bool {
    &&& keys.len() == list.len()
    &&& forall|k: int| 0 <= k < list.len() ==> keys[k] == spec_score_mov(p, (#[trigger] list[k]).mov)
}

/// Exchanges two neighbours in a list and in its keys.
fn swap_neighbours(
    list: &mut Vec<GeneratedMove>,
    keys: &mut Vec<u8>,
    j: usize,
    Ghost(p): Ghost<Position>,
)
    requires
        keyed(old(list)@, old(keys)@, p),
        0 < j < old(list)@.len(),
    ensures
        keyed(final(list)@, final(keys)@, p),
        final(list)@ == old(list)@.update(j - 1, old(list)@[j as int]).update(j as int, old(list)@[j - 1]),
        final(keys)@ == old(keys)@.update(j - 1, old(keys)@[j as int]).update(j as int, old(keys)@[j - 1]),
        final(list)@.to_multiset() == old(list)@.to_multiset(),
{
    let a: GeneratedMove = list[j - 1];
    let b: GeneratedMove = list[j];
    let ka: u8 = keys[j - 1];
    let kb: u8 = keys[j];
    list[j - 1] = b;
    list[j] = a;
    keys[j - 1] = kb;
    keys[j] = ka;
    proof {
        broadcast use vstd::multiset::group_multiset_axioms;

        let s0 = old(list)@;
        let s1 = s0.update(j - 1, b);
        to_multiset_update(s0, j - 1, b);
        to_multiset_update(s1, j as int, a);
        vstd::seq_lib::to_multiset_contains(s0, a);
        vstd::seq_lib::to_multiset_contains(s0, b);
        assert(s0.contains(a) && s0.contains(b));
        assert(list@ == s1.update(j as int, a));
        assert(s0[j - 1] == a && s0[j as int] == b && s1[j as int] == b);
        assert(list@.to_multiset() =~= s0.to_multiset());
    }
}

/// Sorts a list of moves by their keys, highest first, keeping the moves
/// that were there.
fn sort_by_keys(list: &mut Vec<GeneratedMove>, keys: &mut Vec<u8>, Ghost(p): Ghost<Position>)
    requires
        keyed(old(list)@, old(keys)@, p),
    ensures
        keyed(final(list)@, final(keys)@, p),
        descending(final(keys)@),
        final(list)@.to_multiset() == old(list)@.to_multiset(),
{
    let n: usize = list.len();
    let mut i: usize = 1;
    while i < n
        invariant
            n == list@.len(),
            1 <= i,
            keyed(list@, keys@, p),
            list@.to_multiset() == old(list)@.to_multiset(),
            forall|a: int, b: int| 0 <= a <= b < i && b < n ==> keys@[a] >= keys@[b],
        decreases n - i,
    {
        let mut j: usize = i;
        while j > 0 && keys[j - 1] < keys[j]
            invariant
                j <= i < n,
                n == list@.len(),
                keyed(list@, keys@, p),
                list@.to_multiset() == old(list)@.to_multiset(),
                forall|a: int, b: int| 0 <= a <= b < j ==> keys@[a] >= keys@[b],
                forall|a: int, b: int| j <= a <= b <= i ==> keys@[a] >= keys@[b],
                forall|a: int, b: int| 0 <= a < j && j < b <= i ==> keys@[a] >= keys@[b],
            decreases j,
        {
            swap_neighbours(list, keys, j, Ghost(p));
            j -= 1;
        }
        i += 1;
    }
}

/// How many moves of a list of `len` moves are sorted by score: all but
/// the last where a remembered move was put there.
pub open spec fn sorted_count(len: nat, hinted: bool) -> int {
    if hinted {
        len - 1
    } else {
        len as int
    }
}

/// A list ordered for a search: the remembered move, if one was taken out,
/// comes last, and the moves before it descend in score, the most
/// promising first.
pub open spec fn search_order(p: Position, seg: Seq<GeneratedMove>, hinted: bool) -> bool {
    forall|a: int, b: int|
        #![trigger seg[a], seg[b]]
        0 <= a <= b < sorted_count(seg.len(), hinted) ==> spec_score_mov(p, seg[a].mov) >= spec_score_mov(
            p,
            seg[b].mov,
        )
}

/// Whether the table has a hint for the position that names a move of a
/// list of `len` moves.
pub open spec fn hint_in_range(slots: Seq<Option<crate::cache::InternalCacheEntry>>, hash: u64, len: nat) -> bool {
    spec_lookup(slots, hash, 0) matches Some(v) && (v.bestmov_id as nat) < len
}

/// `seg` holds the legal moves of the position in the order a search
/// wants them, given what the table with the slots `slots` remembers for
/// the position, whose fingerprint is `hash`: the moves are those of a list
/// of the legal moves; if the table remembers a best move whose ordinal
/// names a move of that list, that move comes last; and the moves before
/// it, or all moves if there is none, descend in score.
pub open spec fn sorted_for_search(
    p: Position,
    slots: Seq<Option<crate::cache::InternalCacheEntry>>,
    hash: u64,
    seg: Seq<GeneratedMove>,
) -> bool {
    exists|list: Seq<GeneratedMove>|
        {
            &&& #[trigger] lists_legal(p, list)
            &&& seg.to_multiset() == list.to_multiset()
            &&& search_order(p, seg, hint_in_range(slots, hash, list.len()))
            &&& hint_in_range(slots, hash, list.len()) ==> seg.len() > 0 && seg.last() == list[spec_lookup(
                slots,
                hash,
                0,
            )->Some_0.bestmov_id as int]
        }
}

/// Fills the top segment of `moves` with the legal moves of the position
/// in the order a search wants them. If the table remembers a best move
/// for the position and its ordinal names a move of the list, that move is
/// taken out first and put last; the other moves are sorted by
/// `score_mov`, highest first. The state is left as it was found.
pub fn movegen_legal_sorted(state: &mut ChessGame, moves: &mut SegVec<GeneratedMove>, cache: &Cache)
    requires
        old(state).valid(),
        old(moves).segs_ok(),
        old(moves).seg().len() == 0,
        cache.wf(),
    ensures
        same_position(*final(state), *old(state)),
        final(moves).segs_ok(),
        final(moves).begin == old(moves).begin,
        final(moves).below() == old(moves).below(),
        sorted_for_search(old(state).abs(), cache.vec@, old(state).hash.value, final(moves).seg()),
{
    let ghost pre = *state;
    let ghost p = state.abs();
    let ghost buf0 = *moves;
    let mut list: Vec<GeneratedMove> = legal_moves(state);
    let ghost full = list@;
    proof {
        lemma_same_position_valid(pre, *state);
        crate::eval::lemma_listed_are_legal(p, full);
        assert(buf0.below().len() == buf0.begin);
    }
    let mut bestmov: Option<GeneratedMove> = None;
    match cache.lookup_any(state) {
        Some(value) => {
            let bestmov_id: usize = value.bestmov_id as usize;
            if bestmov_id < list.len() {
                let removed = list.swap_remove(bestmov_id);
                bestmov = Some(removed);
                proof {
                    broadcast use vstd::multiset::group_multiset_axioms;

                    let s1 = full.update(bestmov_id as int, full.last());
                    to_multiset_update(full, bestmov_id as int, full.last());
                    to_multiset_remove(s1, s1.len() - 1);
                    vstd::seq_lib::to_multiset_contains(full, removed);
                    vstd::seq_lib::to_multiset_contains(full, full.last());
                    assert(full.contains(removed) && full.contains(full.last()));
                    assert(s1.remove(s1.len() - 1) =~= list@);
                    assert(s1[s1.len() - 1] == full.last() || bestmov_id == s1.len() - 1);
                    assert(list@.to_multiset().insert(removed) =~= full.to_multiset());
                }
            }
        },
        None => {},
    }
    let ghost hinted = bestmov is Some;
    let ghost rest = list@;
    let mut keys: Vec<u8> = Vec::new();
    let mut k: usize = 0;
    while k < list.len()
        invariant
            k <= list.len(),
            list@ == rest,
            state.valid(),
            state.abs() == p,
            keys@.len() == k,
            forall|i: int| 0 <= i < rest.len() ==> crate::rules::legal(p, (#[trigger] rest[i]).mov),
            forall|i: int| 0 <= i < k ==> keys@[i] == spec_score_mov(p, (#[trigger] rest[i]).mov),
        decreases list.len() - k,
    {
        proof {
            assert(crate::rules::legal(p, rest[k as int].mov));
            crate::rules::lemma_legal_applicable(p, rest[k as int].mov);
        }
        let key: u8 = score_mov(state, list[k].mov);
        keys.push(key);
        k += 1;
    }
    proof {
        assert forall|i: int| 0 <= i < rest.len() implies crate::rules::legal(p, (#[trigger] rest[i]).mov) by {
        }
    }
    sort_by_keys(&mut list, &mut keys, Ghost(p));
    let ghost sorted = list@;
    let mut i: usize = 0;
    proof {
        assert(moves.seg() + sorted.subrange(0, 0) =~= Seq::<GeneratedMove>::empty());
    }
    while i < list.len()
        invariant
            i <= list.len(),
            list@ == sorted,
            moves.segs_ok(),
            moves.begin == buf0.begin,
            moves.below() == buf0.below(),
            moves.seg() == sorted.subrange(0, i as int),
        decreases list.len() - i,
    {
        moves.push(list[i]);
        proof {
            assert(sorted.subrange(0, i as int).push(sorted[i as int]) =~= sorted.subrange(0, i + 1));
            assert(moves.below().len() == moves.begin);
        }
        i += 1;
    }
    proof {
        assert(sorted.subrange(0, sorted.len() as int) =~= sorted);
    }
    match bestmov {
        Some(mov) => {
            moves.push(mov);
            proof {
                broadcast use vstd::multiset::group_multiset_axioms;

                assert(moves.below().len() == moves.begin);
                to_multiset_build(sorted, mov);
                assert(moves.seg().drop_last() =~= sorted);
                assert(moves.seg() =~= sorted.push(mov));
            }
        },
        None => {},
    }
    proof {
        assert(lists_legal(p, full));
        assert(hinted == hint_in_range(cache.vec@, pre.hash.value, full.len()));
        assert(moves.seg().to_multiset() =~= full.to_multiset());
        assert(search_order(p, moves.seg(), hinted)) by {
            let seg = moves.seg();
            assert(sorted_count(seg.len(), hinted) == sorted.len());
            assert forall|a: int, b: int|
                #![trigger seg[a], seg[b]]
                0 <= a <= b < sorted_count(seg.len(), hinted) implies spec_score_mov(p, seg[a].mov) >= spec_score_mov(
                p,
                seg[b].mov,
            ) by {
                assert(seg[a] == sorted[a] && seg[b] == sorted[b]);
                assert(keys@[a] == spec_score_mov(p, sorted[a].mov));
                assert(keys@[b] == spec_score_mov(p, sorted[b].mov));
            }
        }
    }
}

} // verus!
