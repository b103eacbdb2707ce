//! Material: what the pieces on the board are worth.

use vstd::prelude::*;
use crate::bitboard::Bitboard;
use crate::bits::{bit_at, bits_below};
use crate::coordinates::{encode_in, StandardCS};
use crate::gamestate::Bitboards;
use crate::piece::{Color, Piece, Species};

verus! {

/// The value of each species, by its index: pawn 1, rook 5, knight 3,
/// bishop 3, queen 9, and nothing for the king, which is never captured.
pub const SPECIES_VALUE: [u8; 6] = [1, 5, 3, 3, 9, 0];

/// The value of a species.
pub open spec fn value_of(sp: Species) -> int {
    match sp {
        Species::Pawn => 1,
        Species::Knight => 3,
        Species::Bishop => 3,
        Species::Rook => 5,
        Species::Queen => 9,
        Species::King => 0,
    }
}

/// The number of tiles below `n` that hold the given piece.
pub open spec fn count_tiles(grid: Seq<Option<Piece>>, piece: Piece, n: int) -> nat
    decreases n,
{
    if n <= 0 {
        0
    } else {
        count_tiles(grid, piece, n - 1) + (if grid[n - 1] == Some(piece) {
            1nat
        } else {
            0nat
        })
    }
}

/// The number of pieces of a color and species on the grid.
pub open spec fn count_pieces(grid: Seq<Option<Piece>>, color: Color, species: Species) -> nat {
    count_tiles(grid, Piece { color, species }, 64)
}

/// The value of a color's pieces of one species.
pub open spec fn spec_matval_class(grid: Seq<Option<Piece>>, color: Color, species: Species) -> int {
    count_pieces(grid, color, species) * value_of(species)
}

/// The value of all pieces of a color.
pub open spec fn spec_matval(grid: Seq<Option<Piece>>, color: Color) -> int {
    spec_matval_class(grid, color, Species::King) + spec_matval_class(grid, color, Species::Pawn)
        + spec_matval_class(grid, color, Species::Knight) + spec_matval_class(grid, color, Species::Bishop)
        + spec_matval_class(grid, color, Species::Rook) + spec_matval_class(grid, color, Species::Queen)
}

/// The material balance: the value of the pieces of `active` less the
/// value of its opponent's.
pub open spec fn spec_matdiff(grid: Seq<Option<Piece>>, active: Color) -> int {
    spec_matval(grid, active) - spec_matval(grid, active.spec_oppo())
}

/// A bitboard that holds exactly the tiles of a piece has as many bits as
/// the grid has such tiles.
pub proof fn lemma_count_bits(x: u64, grid: Seq<Option<Piece>>, piece: Piece, n: int)
    requires
        0 <= n <= 64,
        forall|j: int| 0 <= j < n ==> bit_at(x, j) == (grid[j] == Some(piece)),
    ensures
        bits_below(x, n).len() == count_tiles(grid, piece, n),
        count_tiles(grid, piece, n) <= n,
    decreases n,
{
    if n > 0 {
        lemma_count_bits(x, grid, piece, n - 1);
    }
}

/// The value of a species.
pub fn get_species_value(species: Species) -> (v: u8)
    ensures
        v == value_of(species),
{
    SPECIES_VALUE[species.index() as usize]
}

/// The number of pieces of a color and species on the board.
pub fn count_class(board: &Bitboards, color: Color, species: Species) -> (n: i16)
    ensures
        0 <= n <= 64,
        forall|grid: Seq<Option<Piece>>| #[trigger] board.coherent(grid) ==> n == count_pieces(grid, color, species),
{
    let bitboard: Bitboard<StandardCS> = board.class(color, species);
    let n = bitboard.count();
    proof {
        assert forall|grid: Seq<Option<Piece>>| #[trigger] board.coherent(grid) implies n == count_pieces(
            grid,
            color,
            species,
        ) by {
            let piece = Piece { color, species };
            assert forall|j: int| 0 <= j < 64 implies bit_at(bitboard.raw_bb, j) == (grid[j] == Some(piece)) by {
                assert(bitboard.has(j) == (grid[j] == Some(piece)));
                assert(encode_in(0, j) == j);
            }
            lemma_count_bits(bitboard.raw_bb, grid, piece, 64);
        }
    }
    n as i16
}

/// The value of a color's pieces of one species.
pub fn matval_class(board: &Bitboards, color: Color, species: Species) -> (v: i16)
    ensures
        0 <= v <= 576,
        forall|grid: Seq<Option<Piece>>| #[trigger]
            board.coherent(grid) ==> v == spec_matval_class(grid, color, species),
{
    let count: i16 = count_class(board, color, species);
    let value: i16 = get_species_value(species) as i16;
    assert(0 <= count * value <= 576) by (nonlinear_arith)
        requires
            0 <= count <= 64,
            0 <= value <= 9,
    ;
    count * value
}

/// The value of all pieces of a color.
pub fn matval(board: &Bitboards, color: Color) -> (v: i16)
    ensures
        0 <= v <= 3456,
        forall|grid: Seq<Option<Piece>>| #[trigger] board.coherent(grid) ==> v == spec_matval(grid, color),
{
    let mut total: i16 = 0;
    total += matval_class(board, color, Species::King);
    total += matval_class(board, color, Species::Pawn);
    total += matval_class(board, color, Species::Knight);
    total += matval_class(board, color, Species::Bishop);
    total += matval_class(board, color, Species::Rook);
    total += matval_class(board, color, Species::Queen);
    total
}

/// The material balance of the side to move.
pub fn calc_matdiff(board: &Bitboards) -> (v: i16)
    ensures
        -3456 <= v <= 3456,
        forall|grid: Seq<Option<Piece>>| #[trigger]
            board.coherent(grid) ==> v == spec_matdiff(grid, board.active_player),
{
    let mut value: i16 = 0;
    value += matval(board, board.active_player);
    value -= matval(board, board.active_player.oppo());
    value
}

} // verus!
