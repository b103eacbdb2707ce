//! Sliding on the board: a line is cut out of the occupancy as a lane, the
//! lane is scanned, and the answer is laid back onto the board.

use vstd::prelude::*;
use crate::bitboard::Bitboard;
use crate::bits::{bit8_at, bit_at};
use crate::coordinates::{Coordinate, CoordinateSystem};
use crate::coordinates::{decode_in, encode_in, lane_base_in, lane_len_in, lane_offset_in};
use crate::coordinates::{lemma_encode_bijective, lemma_lane, lemma_lane_members, same_line_in};
use crate::gamestate::Bitboards;
use crate::grid::StandardCoordinate;
use crate::piece::Piece;
use crate::sliders::{get_slidelimit, get_slidescan, lane_reach, strictly_between};

verus! {

/// A slider on tile `origin` reaches tile `t` along the line that
/// traversal `slot` keeps together: `t` is another tile of that line and
/// every tile strictly between the two is empty.
pub open spec fn slide_reaches(slot: int, grid: Seq<Option<Piece>>, origin: int, t: int) -> bool {
    &&& 0 <= t < 64
    &&& t != origin
    &&& same_line_in(slot, origin, t)
    &&& forall|u: int|
        0 <= u < 64 && strictly_between(encode_in(slot, origin), #[trigger] encode_in(slot, u), encode_in(slot, t))
            ==> grid[u] is None
}

/// What the lane arithmetic comes to on the board.
proof fn lemma_lane_on_board(
    slot: int,
    grid: Seq<Option<Piece>>,
    origin: int,
    occ_raw: u64,
    occ_bl: u8,
    t: int,
)
    requires
        0 <= slot < 4,
        0 <= origin < 64,
        0 <= t < 64,
        forall|s: int| 0 <= s < 64 ==> bit_at(occ_raw, #[trigger] encode_in(slot, s)) == (grid[s] is Some),
        forall|k: int|
            0 <= k < 8 ==> bit8_at(occ_bl, k) == bit_at(occ_raw, encode_in(slot, lane_base_in(slot, origin)) + k),
    ensures
        slide_reaches(slot, grid, origin, t) == (same_line_in(slot, origin, t) && lane_reach(
            lane_offset_in(slot, origin),
            occ_bl,
            encode_in(slot, t) - encode_in(slot, lane_base_in(slot, origin)),
        )),
{
    lemma_encode_bijective(slot);
    lemma_lane(slot, origin);
    lemma_lane_members(slot, origin, t);
    let be = encode_in(slot, lane_base_in(slot, origin));
    let off = lane_offset_in(slot, origin);
    let len = lane_len_in(slot, origin);
    let d = encode_in(slot, t) - be;
    if same_line_in(slot, origin, t) {
        assert(0 <= d < len);
        if t != origin {
            assert(d != off);
            if slide_reaches(slot, grid, origin, t) {
                assert forall|k: int| strictly_between(off, k, d) implies !bit8_at(occ_bl, k) by {
                    let u = decode_in(slot, be + k);
                    assert(encode_in(slot, u) == be + k);
                    assert(strictly_between(encode_in(slot, origin), encode_in(slot, u), encode_in(slot, t)));
                }
            }
            if lane_reach(off, occ_bl, d) {
                assert forall|u: int|
                    0 <= u < 64 && strictly_between(
                        encode_in(slot, origin),
                        #[trigger] encode_in(slot, u),
                        encode_in(slot, t),
                    ) implies grid[u] is None by {
                    let k = encode_in(slot, u) - be;
                    assert(strictly_between(off, k, d));
                    assert(!bit8_at(occ_bl, k));
                }
            }
        } else {
            assert(d == off);
        }
    }
}

/// The tiles that a slider on `origin` reaches along its line of
/// traversal `C`: every tile up to and including the first occupied one,
/// in both directions.
pub fn lanescan<C: CoordinateSystem>(board: &Bitboards, origin: StandardCoordinate) -> (bb: Bitboard<C>)
    requires
        origin.wf(),
    ensures
        forall|grid: Seq<Option<Piece>>, t: int|
            board.coherent(grid) && 0 <= t < 64 ==> #[trigger] bb.has(t) == #[trigger] slide_reaches(
                C::spec_slot(),
                grid,
                origin.index as int,
                t,
            ),
{
    proof {
        C::lemma_slot();
        lemma_lane(C::spec_slot(), origin.index as int);
        lemma_encode_bijective(C::spec_slot());
    }
    let lane = C::get_lane(origin);
    let occupancy: Bitboard<C> = board.occupancy();
    let base: Coordinate<C> = Coordinate::from_std(lane.base);
    let occ_bl = occupancy.copy_bitlane(base);
    let destin_bl = get_slidescan(lane.local_origin, occ_bl);
    let bb = Bitboard::from_bitlane(base, destin_bl, lane.length);
    proof {
        let slot = C::spec_slot();
        assert forall|grid: Seq<Option<Piece>>, t: int|
            board.coherent(grid) && 0 <= t < 64 implies #[trigger] bb.has(t) == #[trigger] slide_reaches(
            slot,
            grid,
            origin.index as int,
            t,
        ) by {
            assert forall|s: int| 0 <= s < 64 implies bit_at(occupancy.raw_bb, #[trigger] encode_in(slot, s)) == (
            grid[s] is Some) by {
                assert(occupancy.has(s) == (grid[s] is Some));
            }
            lemma_lane_on_board(slot, grid, origin.index as int, occupancy.raw_bb, occ_bl, t);
            lemma_lane_members(slot, origin.index as int, t);
        }
    }
    bb
}

/// The tiles that block a slider on `origin` along its line of traversal
/// `C`: in each direction the first occupied tile, if there is one.
pub fn lanelimit<C: CoordinateSystem>(board: &Bitboards, origin: StandardCoordinate) -> (bb: Bitboard<C>)
    requires
        origin.wf(),
    ensures
        forall|grid: Seq<Option<Piece>>, t: int|
            board.coherent(grid) && 0 <= t < 64 ==> #[trigger] bb.has(t) == (#[trigger] slide_reaches(
                C::spec_slot(),
                grid,
                origin.index as int,
                t,
            ) && grid[t] is Some),
{
    proof {
        C::lemma_slot();
        lemma_lane(C::spec_slot(), origin.index as int);
        lemma_encode_bijective(C::spec_slot());
    }
    let lane = C::get_lane(origin);
    let occupancy: Bitboard<C> = board.occupancy();
    let base: Coordinate<C> = Coordinate::from_std(lane.base);
    let occ_bl = occupancy.copy_bitlane(base);
    let destin_bl = get_slidelimit(lane.local_origin, occ_bl);
    let bb = Bitboard::from_bitlane(base, destin_bl, lane.length);
    proof {
        let slot = C::spec_slot();
        assert forall|grid: Seq<Option<Piece>>, t: int|
            board.coherent(grid) && 0 <= t < 64 implies #[trigger] bb.has(t) == (#[trigger] slide_reaches(
            slot,
            grid,
            origin.index as int,
            t,
        ) && grid[t] is Some) by {
            assert forall|s: int| 0 <= s < 64 implies bit_at(occupancy.raw_bb, #[trigger] encode_in(slot, s)) == (
            grid[s] is Some) by {
                assert(occupancy.has(s) == (grid[s] is Some));
            }
            lemma_lane_on_board(slot, grid, origin.index as int, occupancy.raw_bb, occ_bl, t);
            lemma_lane_members(slot, origin.index as int, t);
            assert(occupancy.has(t) == (grid[t] is Some));
        }
    }
    bb
}

} // verus!
