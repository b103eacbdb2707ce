//! The attack oracle: whether the opponent of the side to move attacks a
//! tile.

use vstd::prelude::*;
use crate::bitboard::Bitboard;
use crate::bits::{bit_at, lemma_bit_logic, lemma_zero_iff_no_bits};
use crate::coordinates::{AntidiagonalMajorCS, Coordinate, CoordinateSystem, FileMajorCS};
use crate::coordinates::{ProdiagonalMajorCS, RankMajorCS};
use crate::coordinates::{decode_in, encode_in, lemma_encode_bijective};
use crate::gamestate::{holds_color, holds_species, Bitboards};
use crate::grid::StandardCoordinate;
use crate::laneutils::{lanelimit, slide_reaches};
use crate::movegen::king::{king_attack, king_step};
use crate::movegen::knight::{knight_attack, knight_step};
use crate::movegen::pawn::{attacks_up, pawn_attack};
use crate::piece::{Color, Piece, Species};
use crate::rmrel::{lemma_rel_involution, rel_index, relativize};

verus! {

/// A piece of species `sp` standing on tile `t` attacks tile `v` on the
/// given grid, where `victim` is the color that does not own the piece.
/// Pawns attack the two tiles diagonally ahead of them, knights a jump
/// away, kings their neighbours; rooks, bishops and queens along their
/// lines up to the first occupied tile.
pub open spec fn species_attacks(grid: Seq<Option<Piece>>, victim: Color, sp: Species, t: int, v: int) -> bool {
    match sp {
        Species::Pawn => attacks_up(rel_index(v, victim), rel_index(t, victim)),
        Species::Knight => knight_step(v, t),
        Species::King => king_step(v, t),
        Species::Rook => slide_reaches(0, grid, v, t) || slide_reaches(1, grid, v, t),
        Species::Bishop => slide_reaches(2, grid, v, t) || slide_reaches(3, grid, v, t),
        Species::Queen => slide_reaches(0, grid, v, t) || slide_reaches(1, grid, v, t) || slide_reaches(
            2,
            grid,
            v,
            t,
        ) || slide_reaches(3, grid, v, t),
    }
}

/// The piece on tile `t` belongs to the opponent of `victim` and attacks
/// tile `v`.
pub open spec fn attacks_tile(grid: Seq<Option<Piece>>, victim: Color, t: int, v: int) -> bool {
    &&& 0 <= t < 64
    &&& grid[t] matches Some(p) && p.color == victim.spec_oppo() && species_attacks(
        grid,
        victim,
        p.species,
        t,
        v,
    )
}

/// Some piece of the opponent of `victim` attacks tile `v`.
pub open spec fn tile_attacked(grid: Seq<Option<Piece>>, victim: Color, v: int) -> bool {
    exists|t: int| attacks_tile(grid, victim, t, v)
}

/// A bitboard is non-empty exactly when it holds some tile.
pub proof fn lemma_nonempty_has<C: CoordinateSystem>(bb: Bitboard<C>)
    ensures
        (bb.raw_bb != 0) == (exists|t: int| 0 <= t < 64 && bb.has(t)),
{
    C::lemma_slot();
    lemma_encode_bijective(C::spec_slot());
    lemma_zero_iff_no_bits(bb.raw_bb);
    if bb.raw_bb != 0 {
        let j = choose|j: int| 0 <= j < 64 && bit_at(bb.raw_bb, j);
        let t = decode_in(C::spec_slot(), j);
        assert(bb.has(t));
    }
}

/// What an attack query asks of: the board and the tile in question.
#[derive(Clone, Copy)]
pub struct AttackQuery<'a> {
    pub board: &'a Bitboards,
    pub vuln_sq: StandardCoordinate,
}

/// Whether a piece of the opponent of the side to move attacks `vuln_sq`.
pub fn is_attacked(board: &Bitboards, vuln_sq: StandardCoordinate) -> (attacked: bool)
    requires
        vuln_sq.wf(),
    ensures
        forall|grid: Seq<Option<Piece>>| #[trigger]
            board.coherent(grid) ==> attacked == tile_attacked(grid, board.active_player, vuln_sq.index as int),
{
    let args = AttackQuery { board, vuln_sq };
    let by_pawn = is_attacked_pawn(args);
    let by_rank = is_attacked_rankslide(args);
    let by_file = is_attacked_fileslide(args);
    let by_pro = is_attacked_prodiag_slide(args);
    let by_anti = is_attacked_antidiag_slide(args);
    let by_knight = is_attacked_knight(args);
    let by_king = is_attacked_king(args);
    let attacked: bool = by_pawn || by_rank || by_file || by_pro || by_anti || by_knight || by_king;
    proof {
        let victim = board.active_player;
        let v = vuln_sq.index as int;
        assert forall|grid: Seq<Option<Piece>>| #[trigger] board.coherent(grid) implies attacked == tile_attacked(
            grid,
            victim,
            v,
        ) by {
            assert(by_pawn == seen_by(grid, victim, Species::Pawn, v));
            assert(by_knight == seen_by(grid, victim, Species::Knight, v));
            assert(by_king == seen_by(grid, victim, Species::King, v));
            assert(by_rank == seen_along(grid, victim, 0, v));
            assert(by_file == seen_along(grid, victim, 1, v));
            assert(by_pro == seen_along(grid, victim, 2, v));
            assert(by_anti == seen_along(grid, victim, 3, v));
            if tile_attacked(grid, victim, v) {
                let t = choose|t: int| attacks_tile(grid, victim, t, v);
                let sp = grid[t]->Some_0.species;
                if sp == Species::Pawn || sp == Species::Knight || sp == Species::King {
                    assert(species_on_attacks(grid, victim, sp, t, v));
                } else {
                    let slot = if slide_reaches(0, grid, v, t) && sp != Species::Bishop {
                        0int
                    } else if slide_reaches(1, grid, v, t) && sp != Species::Bishop {
                        1int
                    } else if slide_reaches(2, grid, v, t) {
                        2int
                    } else {
                        3int
                    };
                    assert(slider_on_attacks(grid, victim, slot, t, v));
                }
                assert(attacked);
            }
            if by_pawn {
                let t = choose|t: int| species_on_attacks(grid, victim, Species::Pawn, t, v);
                assert(attacks_tile(grid, victim, t, v));
            }
            if by_knight {
                let t = choose|t: int| species_on_attacks(grid, victim, Species::Knight, t, v);
                assert(attacks_tile(grid, victim, t, v));
            }
            if by_king {
                let t = choose|t: int| species_on_attacks(grid, victim, Species::King, t, v);
                assert(attacks_tile(grid, victim, t, v));
            }
            if by_rank {
                let t = choose|t: int| slider_on_attacks(grid, victim, 0, t, v);
                assert(attacks_tile(grid, victim, t, v));
            }
            if by_file {
                let t = choose|t: int| slider_on_attacks(grid, victim, 1, t, v);
                assert(attacks_tile(grid, victim, t, v));
            }
            if by_pro {
                let t = choose|t: int| slider_on_attacks(grid, victim, 2, t, v);
                assert(attacks_tile(grid, victim, t, v));
            }
            if by_anti {
                let t = choose|t: int| slider_on_attacks(grid, victim, 3, t, v);
                assert(attacks_tile(grid, victim, t, v));
            }
        }
    }
    attacked
}

/// A piece of species `sp` of the opponent of `victim` stands on `t` and
/// attacks `v`. For pawns, knights and kings.
pub open spec fn species_on_attacks(grid: Seq<Option<Piece>>, victim: Color, sp: Species, t: int, v: int) -> bool {
    &&& 0 <= t < 64
    &&& grid[t] == Some(Piece { color: victim.spec_oppo(), species: sp })
    &&& species_attacks(grid, victim, sp, t, v)
}

/// Some piece of species `sp` of the opponent of `victim` attacks `v`.
pub open spec fn seen_by(grid: Seq<Option<Piece>>, victim: Color, sp: Species, v: int) -> bool {
    exists|t: int| species_on_attacks(grid, victim, sp, t, v)
}

/// Whether a species moves along the lines of traversal `slot`: rooks
/// along ranks and files, bishops along diagonals, queens along all.
pub open spec fn slides_along(sp: Species, slot: int) -> bool {
    match sp {
        Species::Rook => slot == 0 || slot == 1,
        Species::Bishop => slot == 2 || slot == 3,
        Species::Queen => 0 <= slot < 4,
        _ => false,
    }
}

/// A slider of the opponent of `victim` stands on `t`, moves along the
/// lines of traversal `slot`, and reaches `v` along one.
pub open spec fn slider_on_attacks(grid: Seq<Option<Piece>>, victim: Color, slot: int, t: int, v: int) -> bool {
    &&& 0 <= t < 64
    &&& grid[t] matches Some(p) && p.color == victim.spec_oppo() && slides_along(p.species, slot)
    &&& slide_reaches(slot, grid, v, t)
}

/// Some slider of the opponent of `victim` attacks `v` along a line of
/// traversal `slot`.
pub open spec fn seen_along(grid: Seq<Option<Piece>>, victim: Color, slot: int, v: int) -> bool {
    exists|t: int| slider_on_attacks(grid, victim, slot, t, v)
}

/// Whether an opposing pawn attacks the tile.
pub fn is_attacked_pawn(args: AttackQuery) -> (attacked: bool)
    requires
        args.vuln_sq.wf(),
    ensures
        forall|grid: Seq<Option<Piece>>| #[trigger]
            args.board.coherent(grid) ==> attacked == seen_by(
                grid,
                args.board.active_player,
                Species::Pawn,
                args.vuln_sq.index as int,
            ),
{
    let active = args.board.active_player;
    let vuln_rmrel: u8 = relativize(args.vuln_sq, active);
    let attack: u64 = pawn_attack(vuln_rmrel);
    let theirs: u64 = *args.board.affilia_rel_bbs.get(active.oppo());
    let pawns: u64 = args.board.pawn_rel_bb;
    let bb: u64 = attack & theirs & pawns;
    proof {
        let v = args.vuln_sq.index as int;
        lemma_zero_iff_no_bits(bb);
        assert forall|grid: Seq<Option<Piece>>| #[trigger] args.board.coherent(grid) implies (bb != 0) == seen_by(
            grid,
            active,
            Species::Pawn,
            v,
        ) by {
            assert forall|t: int| 0 <= t < 64 implies bit_at(bb, rel_index(t, active)) == species_on_attacks(
                grid,
                active,
                Species::Pawn,
                t,
                v,
            ) by {
                let j = rel_index(t, active);
                lemma_rel_involution(t, active);
                lemma_bit_logic(attack & theirs, pawns, j);
                lemma_bit_logic(attack, theirs, j);
                assert(args.board.rel_color_has(active.spec_oppo(), t) == holds_color(
                    grid[t],
                    active.spec_oppo(),
                ));
                assert(args.board.rel_pawn_has(t) == holds_species(grid[t], Species::Pawn));
            }
            if bb != 0 {
                let j = choose|j: int| 0 <= j < 64 && bit_at(bb, j);
                lemma_rel_involution(j, active);
                assert(species_on_attacks(grid, active, Species::Pawn, rel_index(j, active), v));
            }
            if seen_by(grid, active, Species::Pawn, v) {
                let t = choose|t: int| species_on_attacks(grid, active, Species::Pawn, t, v);
                lemma_rel_involution(t, active);
                assert(bit_at(bb, rel_index(t, active)));
            }
        }
    }
    bb != 0
}

/// Whether an opposing slider that moves along lines of traversal `C`
/// attacks the tile along one: the first occupied tile in either direction
/// holds such a slider.
fn is_attacked_slide<C: CoordinateSystem>(args: AttackQuery, first: Species) -> (attacked: bool)
    requires
        args.vuln_sq.wf(),
        slides_along(first, C::spec_slot()),
        first != Species::Queen,
    ensures
        forall|grid: Seq<Option<Piece>>| #[trigger]
            args.board.coherent(grid) ==> attacked == seen_along(
                grid,
                args.board.active_player,
                C::spec_slot(),
                args.vuln_sq.index as int,
            ),
{
    let firsts: Bitboard<C> = args.board.species_bbs.get(first).get();
    let queens: Bitboard<C> = args.board.species_bbs.get(Species::Queen).get();
    let theirs: Bitboard<C> = args.board.affilia_bbs.get(args.board.active_player.oppo()).get();
    let limit: Bitboard<C> = lanelimit(args.board, args.vuln_sq);
    let bb: Bitboard<C> = firsts.bitor(queens).bitand(theirs).bitand(limit);
    proof {
        let victim = args.board.active_player;
        let v = args.vuln_sq.index as int;
        let slot = C::spec_slot();
        C::lemma_slot();
        lemma_nonempty_has(bb);
        assert forall|grid: Seq<Option<Piece>>| #[trigger] args.board.coherent(grid) implies (bb.raw_bb != 0)
            == seen_along(grid, victim, slot, v) by {
            assert forall|t: int| 0 <= t < 64 implies bb.has(t) == slider_on_attacks(grid, victim, slot, t, v) by {
                assert(args.board.species_bbs.spec_get(first).wf());
                assert(args.board.species_bbs.spec_get(Species::Queen).wf());
                assert(args.board.affilia_bbs.spec_get(victim.spec_oppo()).wf());
                assert(args.board.species_has(first, t) == holds_species(grid[t], first));
                assert(args.board.species_has(Species::Queen, t) == holds_species(grid[t], Species::Queen));
                assert(args.board.color_has(victim.spec_oppo(), t) == holds_color(grid[t], victim.spec_oppo()));
                assert(limit.has(t) == (slide_reaches(slot, grid, v, t) && grid[t] is Some));
            }
            if bb.raw_bb != 0 {
                let t = choose|t: int| 0 <= t < 64 && bb.has(t);
                assert(slider_on_attacks(grid, victim, slot, t, v));
            }
            if seen_along(grid, victim, slot, v) {
                let t = choose|t: int| slider_on_attacks(grid, victim, slot, t, v);
                assert(bb.has(t));
            }
        }
    }
    bb.is_not_empty()
}

/// Whether an opposing rook or queen attacks the tile along its rank.
pub fn is_attacked_rankslide(args: AttackQuery) -> (attacked: bool)
    requires
        args.vuln_sq.wf(),
    ensures
        forall|grid: Seq<Option<Piece>>| #[trigger]
            args.board.coherent(grid) ==> attacked == seen_along(
                grid,
                args.board.active_player,
                0,
                args.vuln_sq.index as int,
            ),
{
    is_attacked_slide::<RankMajorCS>(args, Species::Rook)
}

/// Whether an opposing rook or queen attacks the tile along its file.
pub fn is_attacked_fileslide(args: AttackQuery) -> (attacked: bool)
    requires
        args.vuln_sq.wf(),
    ensures
        forall|grid: Seq<Option<Piece>>| #[trigger]
            args.board.coherent(grid) ==> attacked == seen_along(
                grid,
                args.board.active_player,
                1,
                args.vuln_sq.index as int,
            ),
{
    is_attacked_slide::<FileMajorCS>(args, Species::Rook)
}

/// Whether an opposing bishop or queen attacks the tile along its
/// up-right diagonal.
pub fn is_attacked_prodiag_slide(args: AttackQuery) -> (attacked: bool)
    requires
        args.vuln_sq.wf(),
    ensures
        forall|grid: Seq<Option<Piece>>| #[trigger]
            args.board.coherent(grid) ==> attacked == seen_along(
                grid,
                args.board.active_player,
                2,
                args.vuln_sq.index as int,
            ),
{
    is_attacked_slide::<ProdiagonalMajorCS>(args, Species::Bishop)
}

/// Whether an opposing bishop or queen attacks the tile along its
/// up-left diagonal.
pub fn is_attacked_antidiag_slide(args: AttackQuery) -> (attacked: bool)
    requires
        args.vuln_sq.wf(),
    ensures
        forall|grid: Seq<Option<Piece>>| #[trigger]
            args.board.coherent(grid) ==> attacked == seen_along(
                grid,
                args.board.active_player,
                3,
                args.vuln_sq.index as int,
            ),
{
    is_attacked_slide::<AntidiagonalMajorCS>(args, Species::Bishop)
}

/// Whether an opposing piece of a species that attacks by a fixed mask of
/// tiles, a knight or a king, attacks the tile.
fn is_attacked_by_mask(args: AttackQuery, species: Species, mask: Bitboard<RankMajorCS>) -> (attacked: bool)
    requires
        args.vuln_sq.wf(),
        species == Species::Knight || species == Species::King,
        forall|j: int|
            0 <= j < 64 ==> bit_at(mask.raw_bb, j) == (if species == Species::Knight {
                knight_step(args.vuln_sq.index as int, j)
            } else {
                king_step(args.vuln_sq.index as int, j)
            }),
    ensures
        forall|grid: Seq<Option<Piece>>| #[trigger]
            args.board.coherent(grid) ==> attacked == seen_by(
                grid,
                args.board.active_player,
                species,
                args.vuln_sq.index as int,
            ),
{
    let theirs: Bitboard<RankMajorCS> = args.board.class(args.board.active_player.oppo(), species);
    let bb = theirs.bitand(mask);
    proof {
        let victim = args.board.active_player;
        let v = args.vuln_sq.index as int;
        lemma_nonempty_has(bb);
        assert forall|grid: Seq<Option<Piece>>| #[trigger] args.board.coherent(grid) implies (bb.raw_bb != 0)
            == seen_by(grid, victim, species, v) by {
            assert forall|t: int| 0 <= t < 64 implies bb.has(t) == species_on_attacks(grid, victim, species, t, v) by {
                assert(theirs.has(t) == (grid[t] == Some(Piece { color: victim.spec_oppo(), species })));
                assert(encode_in(0, t) == t);
            }
            if bb.raw_bb != 0 {
                let t = choose|t: int| 0 <= t < 64 && bb.has(t);
                assert(species_on_attacks(grid, victim, species, t, v));
            }
            if seen_by(grid, victim, species, v) {
                let t = choose|t: int| species_on_attacks(grid, victim, species, t, v);
                assert(bb.has(t));
            }
        }
    }
    bb.is_not_empty()
}

/// Whether an opposing knight attacks the tile.
pub fn is_attacked_knight(args: AttackQuery) -> (attacked: bool)
    requires
        args.vuln_sq.wf(),
    ensures
        forall|grid: Seq<Option<Piece>>| #[trigger]
            args.board.coherent(grid) ==> attacked == seen_by(
                grid,
                args.board.active_player,
                Species::Knight,
                args.vuln_sq.index as int,
            ),
{
    let mask = knight_attack(Coordinate::from_std(args.vuln_sq));
    is_attacked_by_mask(args, Species::Knight, mask)
}

/// Whether the opposing king attacks the tile.
pub fn is_attacked_king(args: AttackQuery) -> (attacked: bool)
    requires
        args.vuln_sq.wf(),
    ensures
        forall|grid: Seq<Option<Piece>>| #[trigger]
            args.board.coherent(grid) ==> attacked == seen_by(
                grid,
                args.board.active_player,
                Species::King,
                args.vuln_sq.index as int,
            ),
{
    let mask = king_attack(Coordinate::from_std(args.vuln_sq));
    is_attacked_by_mask(args, Species::King, mask)
}

} // verus!
