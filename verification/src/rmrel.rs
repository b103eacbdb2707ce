//! The relative rank-major numbering of tiles: the tiles as the side to
//! move sees them, its own first rank at indices 0 to 7 and its opponent's
//! at 56 to 63.

use vstd::prelude::*;
use crate::bits::mirror_index;
use crate::coordinates::{Coordinate, RankMajorCS};
use crate::grid::StandardCoordinate;
use crate::piece::Color;

verus! {

/// The relative index of tile `s` when `active` is to move, and the tile of
/// relative index `s`: the ranks are counted from the other end for Black.
pub open spec fn rel_index(s: int, active: Color) -> int {
    match active {
        Color::White => s,
        Color::Black => mirror_index(s),
    }
}

/// Converting twice gives the index back, and keeps it on the board.
pub proof fn lemma_rel_involution(s: int, active: Color)
    requires
        0 <= s < 64,
    ensures
        0 <= rel_index(s, active) < 64,
        rel_index(rel_index(s, active), active) == s,
        rel_index(s, active) % 8 == s % 8,
        rel_index(s, active) / 8 == (if active == Color::White { s / 8 } else { 7 - s / 8 }),
{
}

/// Converts between relative and absolute indices; the same rule both
/// ways.
fn convert_rmrel_coord(input: u8, active: Color) -> (output: u8)
    requires
        input < 64,
    ensures
        output == rel_index(input as int, active),
        output < 64,
{
    let input_rank: u8 = input / 8;
    let input_file: u8 = input % 8;
    let output_rank: u8 = match active {
        Color::White => input_rank,
        Color::Black => 7 - input_rank,
    };
    output_rank * 8 + input_file
}

/// The tile that a relative index names.
pub fn absolutize(relc: u8, active_player: Color) -> (sq: StandardCoordinate)
    requires
        relc < 64,
    ensures
        sq.index == rel_index(relc as int, active_player),
        sq.wf(),
{
    let abs_rm_index: u8 = convert_rmrel_coord(relc, active_player);
    let abs_rm_coord: Coordinate<RankMajorCS> = Coordinate::from_index(abs_rm_index);
    abs_rm_coord.to_std()
}

/// The relative index of a tile.
pub fn relativize(abs_coord: StandardCoordinate, active: Color) -> (relc: u8)
    requires
        abs_coord.wf(),
    ensures
        relc == rel_index(abs_coord.index as int, active),
        relc < 64,
{
    let abs_rm_coord = Coordinate::<RankMajorCS>::from_std(abs_coord);
    convert_rmrel_coord(abs_rm_coord.index(), active)
}

} // verus!
