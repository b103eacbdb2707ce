//! The four traversals of the board. Each orders the 64 tiles so that the
//! tiles of one line (a rank, a file, or a diagonal of one family) are
//! neighbours, which lets a line be cut out of a bitboard as a lane of up to
//! eight bits.

use vstd::prelude::*;
use std::marker::PhantomData;
use crate::grid::{Antidiagonal, File, Prodiagonal, Rank, StandardCoordinate};
use crate::grid::{diag_length, file_of, rank_of, tile};
use crate::misc::const_min_u8;

verus! {

/// The sum `0 + 1 + ... + n`.
pub open spec fn spec_triangle(n: int) -> int {
    n * (n + 1) / 2
}

/// The index at which diagonal `d` starts in a diagonal-major traversal:
/// the number of tiles on the diagonals before it.
pub open spec fn diag_start(d: int) -> int {
    if d <= 0 {
        0
    } else if d == 1 {
        1
    } else if d == 2 {
        3
    } else if d == 3 {
        6
    } else if d == 4 {
        10
    } else if d == 5 {
        15
    } else if d == 6 {
        21
    } else if d == 7 {
        28
    } else if d == 8 {
        36
    } else if d == 9 {
        43
    } else if d == 10 {
        49
    } else if d == 11 {
        54
    } else if d == 12 {
        58
    } else if d == 13 {
        61
    } else if d == 14 {
        63
    } else {
        64
    }
}

/// The diagonal that holds index `i` of a diagonal-major traversal.
pub open spec fn diag_of_coord(i: int) -> int {
    if i < 1 {
        0
    } else if i < 3 {
        1
    } else if i < 6 {
        2
    } else if i < 10 {
        3
    } else if i < 15 {
        4
    } else if i < 21 {
        5
    } else if i < 28 {
        6
    } else if i < 36 {
        7
    } else if i < 43 {
        8
    } else if i < 49 {
        9
    } else if i < 54 {
        10
    } else if i < 58 {
        11
    } else if i < 61 {
        12
    } else if i < 63 {
        13
    } else {
        14
    }
}

/// The index of tile `s` in the traversal numbered `slot`: 0 rank-major,
/// 1 file-major, 2 up-right-diagonal-major, 3 up-left-diagonal-major.
pub open spec fn encode_in(slot: int, s: int) -> int {
    if slot == 0 {
        s
    } else if slot == 1 {
        file_of(s) * 8 + rank_of(s)
    } else if slot == 2 {
        diag_start(StandardCoordinate::spec_prodiagonal(s))
            + StandardCoordinate::spec_prodiagonal_offset(s)
    } else {
        diag_start(StandardCoordinate::spec_antidiagonal(s))
            + StandardCoordinate::spec_antidiagonal_offset(s)
    }
}

/// The tile at index `i` of the traversal numbered `slot`.
pub open spec fn decode_in(slot: int, i: int) -> int {
    if slot == 0 {
        i
    } else if slot == 1 {
        tile(i % 8, i / 8)
    } else if slot == 2 {
        let d = diag_of_coord(i);
        let o = i - diag_start(d);
        tile(Prodiagonal::spec_base_rank(d) + o, Prodiagonal::spec_base_file(d) + o)
    } else {
        let d = diag_of_coord(i);
        let o = i - diag_start(d);
        tile(Antidiagonal::spec_base_rank(d) + o, Antidiagonal::spec_base_file(d) - o)
    }
}

/// The first tile of the line through `s` that traversal `slot` keeps
/// together.
pub open spec fn lane_base_in(slot: int, s: int) -> int {
    if slot == 0 {
        tile(rank_of(s), 0)
    } else if slot == 1 {
        tile(0, file_of(s))
    } else if slot == 2 {
        let d = StandardCoordinate::spec_prodiagonal(s);
        tile(Prodiagonal::spec_base_rank(d), Prodiagonal::spec_base_file(d))
    } else {
        let d = StandardCoordinate::spec_antidiagonal(s);
        tile(Antidiagonal::spec_base_rank(d), Antidiagonal::spec_base_file(d))
    }
}

/// The number of tiles on the line through `s` that traversal `slot` keeps
/// together.
pub open spec fn lane_len_in(slot: int, s: int) -> int {
    if slot == 0 || slot == 1 {
        8
    } else if slot == 2 {
        diag_length(StandardCoordinate::spec_prodiagonal(s))
    } else {
        diag_length(StandardCoordinate::spec_antidiagonal(s))
    }
}

/// How far along its line tile `s` lies, counted from the line's first tile.
pub open spec fn lane_offset_in(slot: int, s: int) -> int {
    if slot == 0 {
        file_of(s)
    } else if slot == 1 {
        rank_of(s)
    } else if slot == 2 {
        StandardCoordinate::spec_prodiagonal_offset(s)
    } else {
        StandardCoordinate::spec_antidiagonal_offset(s)
    }
}

/// Tiles `s` and `t` lie on one line of the kind that traversal `slot`
/// keeps together.
pub open spec fn same_line_in(slot: int, s: int, t: int) -> bool {
    if slot == 0 {
        rank_of(s) == rank_of(t)
    } else if slot == 1 {
        file_of(s) == file_of(t)
    } else if slot == 2 {
        StandardCoordinate::spec_prodiagonal(s) == StandardCoordinate::spec_prodiagonal(t)
    } else {
        StandardCoordinate::spec_antidiagonal(s) == StandardCoordinate::spec_antidiagonal(t)
    }
}

/// Every traversal is a one-to-one renumbering of the 64 tiles.
pub proof fn lemma_encode_bijective(slot: int)
    requires
        0 <= slot < 4,
    ensures
        forall|s: int|
            0 <= s < 64 ==> 0 <= #[trigger] encode_in(slot, s) < 64 && decode_in(
                slot,
                encode_in(slot, s),
            ) == s,
        forall|i: int|
            0 <= i < 64 ==> 0 <= #[trigger] decode_in(slot, i) < 64 && encode_in(
                slot,
                decode_in(slot, i),
            ) == i,
{
    assert forall|s: int| 0 <= s < 64 implies 0 <= #[trigger] encode_in(slot, s) < 64 && decode_in(
        slot,
        encode_in(slot, s),
    ) == s by {
        lemma_encode_one(slot, s);
    }
    assert forall|i: int| 0 <= i < 64 implies 0 <= #[trigger] decode_in(slot, i) < 64 && encode_in(
        slot,
        decode_in(slot, i),
    ) == i by {
        lemma_decode_one(slot, i);
    }
}

proof fn lemma_encode_one(slot: int, s: int)
    requires
        0 <= slot < 4,
        0 <= s < 64,
    ensures
        0 <= encode_in(slot, s) < 64,
        decode_in(slot, encode_in(slot, s)) == s,
{
    let r = rank_of(s);
    let f = file_of(s);
    assert(s == r * 8 + f);
    if slot == 2 {
        let d = 7 - f + r;
        assert(0 <= d < 15);
        let o = f - Prodiagonal::spec_base_file(d);
        assert(0 <= o < diag_length(d));
        assert(diag_of_coord(diag_start(d) + o) == d);
    } else if slot == 3 {
        let d = r + f;
        assert(0 <= d < 15);
        let o = Antidiagonal::spec_base_file(d) - f;
        assert(0 <= o < diag_length(d));
        assert(diag_of_coord(diag_start(d) + o) == d);
    }
}

proof fn lemma_decode_one(slot: int, i: int)
    requires
        0 <= slot < 4,
        0 <= i < 64,
    ensures
        0 <= decode_in(slot, i) < 64,
        encode_in(slot, decode_in(slot, i)) == i,
{
    if slot >= 2 {
        let d = diag_of_coord(i);
        let o = i - diag_start(d);
        assert(0 <= d < 15);
        assert(0 <= o < diag_length(d));
        if slot == 2 {
            let r = Prodiagonal::spec_base_rank(d) + o;
            let f = Prodiagonal::spec_base_file(d) + o;
            assert(0 <= r < 8 && 0 <= f < 8);
            assert(rank_of(tile(r, f)) == r && file_of(tile(r, f)) == f);
        } else {
            let r = Antidiagonal::spec_base_rank(d) + o;
            let f = Antidiagonal::spec_base_file(d) - o;
            assert(0 <= r < 8 && 0 <= f < 8);
            assert(rank_of(tile(r, f)) == r && file_of(tile(r, f)) == f);
        }
    }
}

proof fn lemma_diag_start_step(d: int)
    requires
        0 <= d < 15,
    ensures
        diag_start(d + 1) == diag_start(d) + diag_length(d),
{
}

proof fn lemma_diag_start_monotone(a: int, b: int)
    requires
        0 <= a < b <= 15,
    ensures
        diag_start(a) + diag_length(a) <= diag_start(b),
    decreases b - a,
{
    lemma_diag_start_step(a);
    if a + 1 < b {
        lemma_diag_start_monotone(a + 1, b);
        lemma_diag_start_step(a + 1);
    }
}

/// How a tile sits on its line: the line's first tile is at `encode(base)`,
/// the tile itself `offset` places further, and the line ends `len` places
/// after its start.
pub proof fn lemma_lane(slot: int, s: int)
    requires
        0 <= slot < 4,
        0 <= s < 64,
    ensures
        0 <= lane_base_in(slot, s) < 64,
        1 <= lane_len_in(slot, s) <= 8,
        0 <= lane_offset_in(slot, s) < lane_len_in(slot, s),
        encode_in(slot, s) == encode_in(slot, lane_base_in(slot, s)) + lane_offset_in(slot, s),
        encode_in(slot, lane_base_in(slot, s)) + lane_len_in(slot, s) <= 64,
{
    let r = rank_of(s);
    let f = file_of(s);
    let b = lane_base_in(slot, s);
    assert(s == r * 8 + f);
    if slot == 2 {
        let d = 7 - f + r;
        assert(0 <= d < 15);
        let br = Prodiagonal::spec_base_rank(d);
        let bf = Prodiagonal::spec_base_file(d);
        assert(rank_of(tile(br, bf)) == br && file_of(tile(br, bf)) == bf);
        lemma_diag_start_step(d);
    } else if slot == 3 {
        let d = r + f;
        assert(0 <= d < 15);
        let br = Antidiagonal::spec_base_rank(d);
        let bf = Antidiagonal::spec_base_file(d);
        assert(rank_of(tile(br, bf)) == br && file_of(tile(br, bf)) == bf);
        lemma_diag_start_step(d);
    } else {
        assert(rank_of(b) * 8 + file_of(b) == b);
    }
}

/// A tile is on the line through `s` exactly when its index falls in the
/// line's range of the traversal.
pub proof fn lemma_lane_members(slot: int, s: int, t: int)
    requires
        0 <= slot < 4,
        0 <= s < 64,
        0 <= t < 64,
    ensures
        same_line_in(slot, s, t) <==> encode_in(slot, lane_base_in(slot, s)) <= encode_in(slot, t)
            < encode_in(slot, lane_base_in(slot, s)) + lane_len_in(slot, s),
{
    lemma_lane(slot, s);
    lemma_lane(slot, t);
    let r = rank_of(s);
    let f = file_of(s);
    let tr = rank_of(t);
    let tf = file_of(t);
    assert(s == r * 8 + f);
    assert(t == tr * 8 + tf);
    if slot == 2 || slot == 3 {
        let d = if slot == 2 {
            7 - f + r
        } else {
            r + f
        };
        let td = if slot == 2 {
            7 - tf + tr
        } else {
            tr + tf
        };
        assert(0 <= d < 15 && 0 <= td < 15);
        let start = encode_in(slot, lane_base_in(slot, s));
        let tstart = encode_in(slot, lane_base_in(slot, t));
        assert(start == diag_start(d)) by {
            let b = lane_base_in(slot, s);
            if slot == 2 {
                let br = Prodiagonal::spec_base_rank(d);
                let bf = Prodiagonal::spec_base_file(d);
                assert(rank_of(tile(br, bf)) == br && file_of(tile(br, bf)) == bf);
            } else {
                let br = Antidiagonal::spec_base_rank(d);
                let bf = Antidiagonal::spec_base_file(d);
                assert(rank_of(tile(br, bf)) == br && file_of(tile(br, bf)) == bf);
            }
        }
        assert(tstart == diag_start(td)) by {
            if slot == 2 {
                let br = Prodiagonal::spec_base_rank(td);
                let bf = Prodiagonal::spec_base_file(td);
                assert(rank_of(tile(br, bf)) == br && file_of(tile(br, bf)) == bf);
            } else {
                let br = Antidiagonal::spec_base_rank(td);
                let bf = Antidiagonal::spec_base_file(td);
                assert(rank_of(tile(br, bf)) == br && file_of(tile(br, bf)) == bf);
            }
        }
        if td < d {
            lemma_diag_start_monotone(td, d);
        } else if d < td {
            lemma_diag_start_monotone(d, td);
        }
    } else {
        let b = lane_base_in(slot, s);
        assert(rank_of(b) * 8 + file_of(b) == b);
    }
}

/// A tile's place on its line, as produced by a traversal.
#[derive(Clone, Copy, Debug)]
pub struct LaneLoc {
    pub local_origin: u8,
    pub base: StandardCoordinate,
    pub length: u8,
}

/// One of the four traversals.
pub trait CoordinateSystem: Sized + Copy {
    /// The traversal's number, which is also its place in a
    /// multi-directional bitboard.
    spec fn spec_slot() -> int;

    proof fn lemma_slot()
        ensures
            0 <= Self::spec_slot() < 4,
    ;

    /// The traversal's number.
    fn slot() -> (i: usize)
        ensures
            i == Self::spec_slot(),
            i < 4,
    ;

    /// The index of a tile in this traversal.
    fn encode(stdc: StandardCoordinate) -> (i: u8)
        requires
            stdc.wf(),
        ensures
            i == encode_in(Self::spec_slot(), stdc.index as int),
            i < 64,
    ;

    /// The tile at an index of this traversal.
    fn decode(coord: u8) -> (stdc: StandardCoordinate)
        requires
            coord < 64,
        ensures
            stdc.index == decode_in(Self::spec_slot(), coord as int),
            stdc.wf(),
    ;

    /// Where a tile sits on the line that this traversal keeps together.
    fn get_lane(stdc: StandardCoordinate) -> (lane: LaneLoc)
        requires
            stdc.wf(),
        ensures
            lane.base.wf(),
            lane.base.index == lane_base_in(Self::spec_slot(), stdc.index as int),
            lane.length == lane_len_in(Self::spec_slot(), stdc.index as int),
            lane.local_origin == lane_offset_in(Self::spec_slot(), stdc.index as int),
    ;
}

/// The traversal rank by rank: a tile's index is its canonical index.
#[derive(Clone, Copy, Debug)]
pub struct RankMajorCS;

/// The traversal file by file.
#[derive(Clone, Copy, Debug)]
pub struct FileMajorCS;

/// The traversal by up-right diagonals, from the corner H1 to the corner A8.
#[derive(Clone, Copy, Debug)]
pub struct ProdiagonalMajorCS;

/// The traversal by up-left diagonals, from the corner A1 to the corner H8.
#[derive(Clone, Copy, Debug)]
pub struct AntidiagonalMajorCS;

/// The traversal in which a tile's index is its canonical index.
pub type StandardCS = RankMajorCS;

impl CoordinateSystem for RankMajorCS {
    open spec fn spec_slot() -> int {
        0
    }

    proof fn lemma_slot() {
    }

    fn slot() -> (i: usize) {
        0
    }

    fn encode(stdc: StandardCoordinate) -> (i: u8) {
        stdc.index()
    }

    fn decode(coord: u8) -> (stdc: StandardCoordinate) {
        StandardCoordinate::from_index(coord)
    }

    fn get_lane(stdc: StandardCoordinate) -> (lane: LaneLoc) {
        LaneLoc {
            local_origin: stdc.file().index(),
            base: StandardCoordinate::new(stdc.rank(), File::from_index(0)),
            length: 8,
        }
    }
}

impl CoordinateSystem for FileMajorCS {
    open spec fn spec_slot() -> int {
        1
    }

    proof fn lemma_slot() {
    }

    fn slot() -> (i: usize) {
        1
    }

    fn encode(stdc: StandardCoordinate) -> (i: u8) {
        stdc.file().index() * 8 + stdc.rank().index()
    }

    fn decode(coord: u8) -> (stdc: StandardCoordinate) {
        let rank = Rank::from_index(coord % 8);
        let file = File::from_index(coord / 8);
        StandardCoordinate::new(rank, file)
    }

    fn get_lane(stdc: StandardCoordinate) -> (lane: LaneLoc) {
        LaneLoc {
            local_origin: stdc.rank().index(),
            base: StandardCoordinate::new(Rank::from_index(0), stdc.file()),
            length: 8,
        }
    }
}

impl CoordinateSystem for ProdiagonalMajorCS {
    open spec fn spec_slot() -> int {
        2
    }

    proof fn lemma_slot() {
    }

    fn slot() -> (i: usize) {
        2
    }

    fn encode(stdc: StandardCoordinate) -> (i: u8) {
        proof {
            lemma_encode_bijective(2);
        }
        calc_diag_coord(stdc.prodiagonal().index(), stdc.prodiagonal_offset())
    }

    fn decode(coord: u8) -> (stdc: StandardCoordinate) {
        let d: u8 = find_diag(coord);
        let o: u8 = coord - calc_diag_coord(d, 0);
        let diag = Prodiagonal::from_index(d);
        let rank = Rank::from_index(diag.base_rank().index() + o);
        let file = File::from_index(diag.base_file().index() + o);
        StandardCoordinate::new(rank, file)
    }

    fn get_lane(stdc: StandardCoordinate) -> (lane: LaneLoc) {
        LaneLoc {
            local_origin: stdc.prodiagonal_offset(),
            base: stdc.prodiagonal().base(),
            length: stdc.prodiagonal().length(),
        }
    }
}

impl CoordinateSystem for AntidiagonalMajorCS {
    open spec fn spec_slot() -> int {
        3
    }

    proof fn lemma_slot() {
    }

    fn slot() -> (i: usize) {
        3
    }

    fn encode(stdc: StandardCoordinate) -> (i: u8) {
        proof {
            lemma_encode_bijective(3);
        }
        calc_diag_coord(stdc.antidiagonal().index(), stdc.antidiagonal_offset())
    }

    fn decode(coord: u8) -> (stdc: StandardCoordinate) {
        let d: u8 = find_diag(coord);
        let o: u8 = coord - calc_diag_coord(d, 0);
        let diag = Antidiagonal::from_index(d);
        let rank = Rank::from_index(diag.base_rank().index() + o);
        let file = File::from_index(diag.base_file().index() - o);
        StandardCoordinate::new(rank, file)
    }

    fn get_lane(stdc: StandardCoordinate) -> (lane: LaneLoc) {
        LaneLoc {
            local_origin: stdc.antidiagonal_offset(),
            base: stdc.antidiagonal().base(),
            length: stdc.antidiagonal().length(),
        }
    }
}

/// The sum `0 + 1 + ... + n`.
pub fn triangle_num(n: u8) -> (t: u8)
    requires
        n <= 8,
    ensures
        t == spec_triangle(n as int),
        n == 0 ==> t == 0,
        n == 1 ==> t == 1,
        n == 2 ==> t == 3,
        n == 3 ==> t == 6,
        n == 4 ==> t == 10,
        n == 5 ==> t == 15,
        n == 6 ==> t == 21,
        n == 7 ==> t == 28,
        n == 8 ==> t == 36,
{
    assert(n * n <= 64 && n * (n + 1) == n * n + n) by (nonlinear_arith)
        requires
            n <= 8,
    ;
    (n * n + n) / 2
}

/// The index, in a diagonal-major traversal, of the tile `local_index`
/// places up diagonal `diag_index`.
pub fn calc_diag_coord(diag_index: u8, local_index: u8) -> (coord: u8)
    requires
        diag_index < 15,
        local_index < diag_length(diag_index as int),
    ensures
        coord == diag_start(diag_index as int) + local_index,
        coord < 64,
{
    let mut coord: u8 = 0;
    coord += triangle_num(const_min_u8(7, diag_index));
    coord += local_index;
    let half: u8 = triangle_num(8);
    coord += half;
    coord -= triangle_num(8 - diag_index.saturating_sub(7));
    coord
}

/// The diagonal that holds index `coord` of a diagonal-major traversal.
fn find_diag(coord: u8) -> (d: u8)
    requires
        coord < 64,
    ensures
        d == diag_of_coord(coord as int),
        d < 15,
        diag_start(d as int) <= coord < diag_start(d as int) + diag_length(d as int),
{
    let mut d: u8 = 0;
    while d < 14 && calc_diag_coord(d + 1, 0) <= coord
        invariant
            d < 15,
            coord < 64,
            diag_start(d as int) <= coord,
        decreases 14 - d,
    {
        d += 1;
    }
    d
}

/// A tile's index in traversal `C`.
pub struct Coordinate<C: CoordinateSystem> {
    pub index: u8,
    pub pd: PhantomData<C>,
}

impl<C: CoordinateSystem> Clone for Coordinate<C> {
    fn clone(&self) -> (r: Self)
        ensures
            r == *self,
    {
        *self
    }
}

impl<C: CoordinateSystem> Copy for Coordinate<C> {

}

impl<C: CoordinateSystem> Coordinate<C> {
    pub open spec fn wf(self) -> bool {
        self.index < 64
    }

    /// The tile that the coordinate names.
    pub open spec fn spec_tile(self) -> int {
        decode_in(C::spec_slot(), self.index as int)
    }

    pub fn from_index(index: u8) -> (c: Self)
        requires
            index < 64,
        ensures
            c.index == index,
            c.wf(),
    {
        Self { index, pd: PhantomData }
    }

    pub fn index(self) -> (i: u8)
        ensures
            i == self.index,
    {
        self.index
    }

    /// The coordinate of a tile in this traversal.
    pub fn from_std(value: StandardCoordinate) -> (c: Self)
        requires
            value.wf(),
        ensures
            c.index == encode_in(C::spec_slot(), value.index as int),
            c.spec_tile() == value.index,
            c.wf(),
    {
        proof {
            C::lemma_slot();
            lemma_encode_bijective(C::spec_slot());
        }
        let index: u8 = C::encode(value);
        Self::from_index(index)
    }

    /// The tile that the coordinate names.
    pub fn to_std(self) -> (sq: StandardCoordinate)
        requires
            self.wf(),
        ensures
            sq.index == self.spec_tile(),
            encode_in(C::spec_slot(), sq.index as int) == self.index,
            sq.wf(),
    {
        proof {
            C::lemma_slot();
            lemma_encode_bijective(C::spec_slot());
        }
        C::decode(self.index())
    }
}

} // verus!
