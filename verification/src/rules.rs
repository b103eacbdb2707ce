//! The rules of the game, stated on positions alone: what a move makes of
//! a position, what taking it back makes of it, how each piece moves, and
//! which moves are legal.

use vstd::prelude::*;
use crate::attack::tile_attacked;
use crate::crights::CastlingRights;
use crate::gamestate::in_check;
use crate::gamestate::{castle_pieces_home, holds_color, holds_species, is_king_tile, king_home};
use crate::gamestate::{log_ok, rook_home, LoggedMove, LoggedPieceMove, MovelogEntry, Position};
use crate::grid::{base_rank_of, file_of, rank_of, rank_relative_to, tile, Side};
use crate::laneutils::slide_reaches;
use crate::mov::{AnyMove, PieceMove};
use crate::movegen::king::king_step;
use crate::movegen::knight::knight_step;
use crate::movegen::pawn::attacks_up;
use crate::piece::{Color, Piece, Species};
use crate::rmrel::rel_index;

verus! {

/// The rights word with exactly the given rights.
pub open spec fn rights_word(qw: bool, kw: bool, qb: bool, kb: bool) -> CastlingRights {
    CastlingRights {
        data: ((if qw { 1int } else { 0int }) + (if kw { 2int } else { 0int }) + (if qb { 4int } else { 0int })
            + (if kb { 8int } else { 0int })) as u8,
    }
}

/// `rights_word` holds the rights it was made of.
pub proof fn lemma_rights_word(qw: bool, kw: bool, qb: bool, kb: bool)
    ensures
        rights_word(qw, kw, qb, kb).wf(),
        rights_word(qw, kw, qb, kb).has(Side::Queenside, Color::White) == qw,
        rights_word(qw, kw, qb, kb).has(Side::Kingside, Color::White) == kw,
        rights_word(qw, kw, qb, kb).has(Side::Queenside, Color::Black) == qb,
        rights_word(qw, kw, qb, kb).has(Side::Kingside, Color::Black) == kb,
{
    let x = rights_word(qw, kw, qb, kb).data;
    assert(x < 16 ==> (((x >> 0u8) & 1 == 1) == (x % 2 == 1)) && (((x >> 1u8) & 1 == 1) == ((x / 2)
        % 2 == 1)) && (((x >> 2u8) & 1 == 1) == ((x / 4) % 2 == 1)) && (((x >> 3u8) & 1 == 1) == ((x
        / 8) % 2 == 1))) by (bit_vector);
}

/// The rights that survive on a grid: a right is kept when it was there and
/// king and rook of its wing still stand at home.
pub open spec fn kept_rights(cr: CastlingRights, grid: Seq<Option<Piece>>) -> CastlingRights {
    rights_word(
        cr.has(Side::Queenside, Color::White) && castle_pieces_home(grid, Side::Queenside, Color::White),
        cr.has(Side::Kingside, Color::White) && castle_pieces_home(grid, Side::Kingside, Color::White),
        cr.has(Side::Queenside, Color::Black) && castle_pieces_home(grid, Side::Queenside, Color::Black),
        cr.has(Side::Kingside, Color::Black) && castle_pieces_home(grid, Side::Kingside, Color::Black),
    )
}

/// The rights with both rights of `color` taken away.
pub open spec fn revoked_rights(cr: CastlingRights, color: Color) -> CastlingRights {
    rights_word(
        cr.has(Side::Queenside, Color::White) && color != Color::White,
        cr.has(Side::Kingside, Color::White) && color != Color::White,
        cr.has(Side::Queenside, Color::Black) && color != Color::Black,
        cr.has(Side::Kingside, Color::Black) && color != Color::Black,
    )
}

/// The piece that a move picks up.
pub open spec fn mover(p: Position, m: PieceMove) -> Piece {
    p.grid[m.origin.index as int]->Some_0
}

/// The move is a capture en passant: a pawn leaves its file for an empty
/// tile.
pub open spec fn is_en_passant(p: Position, m: PieceMove) -> bool {
    &&& mover(p, m).species == Species::Pawn
    &&& file_of(m.origin.index as int) != file_of(m.destin.index as int)
    &&& p.grid[m.destin.index as int] is None
}

/// The tile whose occupant a move captures: the destination, except en
/// passant, where it is the tile on the destination's file and on the rank
/// that the opponent's pawn jumped to.
pub open spec fn spec_target(p: Position, m: PieceMove) -> int {
    if is_en_passant(p, m) {
        tile(rank_relative_to(p.active.spec_oppo(), 3), file_of(m.destin.index as int))
    } else {
        m.destin.index as int
    }
}

/// The piece that a move puts down: the mover, or what it is promoted to.
pub open spec fn placed_piece(p: Position, m: PieceMove) -> Piece {
    Piece {
        color: p.active,
        species: match m.promote {
            Some(sp) => sp,
            None => mover(p, m).species,
        },
    }
}

/// The move is a pawn's double jump.
pub open spec fn is_double_jump(p: Position, m: PieceMove) -> bool {
    &&& mover(p, m).species == Species::Pawn
    &&& rank_of(m.origin.index as int) == rank_relative_to(p.active, 1)
    &&& rank_of(m.destin.index as int) == rank_relative_to(p.active, 3)
}

/// The grid after a piece move: origin and target emptied, the placed
/// piece on the destination.
pub open spec fn grid_after_pmove(p: Position, m: PieceMove) -> Seq<Option<Piece>> {
    p.grid.update(m.origin.index as int, None).update(spec_target(p, m), None).update(
        m.destin.index as int,
        Some(placed_piece(p, m)),
    )
}

/// The record that a piece move leaves in the log.
pub open spec fn pmove_record(p: Position, m: PieceMove) -> MovelogEntry {
    MovelogEntry {
        prev_crights: p.crights,
        prev_halfmoveclock: p.clock,
        lmove: LoggedMove::Piece(
            LoggedPieceMove {
                mgmove: m,
                capture: p.grid[spec_target(p, m)],
                is_pdj: is_double_jump(p, m),
                target: crate::grid::StandardCoordinate { index: spec_target(p, m) as u8 },
            },
        ),
    }
}

/// The clock one ply later: one more, held at the highest number it can
/// show.
pub open spec fn next_clock(clock: u16) -> u16 {
    if clock < u16::MAX {
        (clock + 1) as u16
    } else {
        clock
    }
}

/// The position after a piece move, before the turn passes: the grid
/// changed, the rights recomputed, the clock advanced or reset by a
/// capture or a pawn move, the record appended.
pub open spec fn after_pmove(p: Position, m: PieceMove) -> Position {
    Position {
        grid: grid_after_pmove(p, m),
        active: p.active,
        crights: kept_rights(p.crights, grid_after_pmove(p, m)),
        clock: if p.grid[spec_target(p, m)] is Some || mover(p, m).species == Species::Pawn {
            0
        } else {
            next_clock(p.clock)
        },
        log: p.log.push(pmove_record(p, m)),
        castled: p.castled,
    }
}

/// The tile a castling king lands on.
pub open spec fn castle_king_destin(side: Side, c: Color) -> int {
    tile(base_rank_of(c), if side == Side::Queenside { 2int } else { 6int })
}

/// The tile a castling rook lands on.
pub open spec fn castle_rook_destin(side: Side, c: Color) -> int {
    tile(base_rank_of(c), if side == Side::Queenside { 3int } else { 5int })
}

/// The grid after a castle.
pub open spec fn grid_after_castle(p: Position, side: Side) -> Seq<Option<Piece>> {
    p.grid.update(king_home(p.active), None).update(rook_home(side, p.active), None).update(
        castle_rook_destin(side, p.active),
        Some(Piece { color: p.active, species: Species::Rook }),
    ).update(
        castle_king_destin(side, p.active),
        Some(Piece { color: p.active, species: Species::King }),
    )
}

/// The position after a castle, before the turn passes.
pub open spec fn after_castle(p: Position, side: Side) -> Position {
    Position {
        grid: grid_after_castle(p, side),
        active: p.active,
        crights: revoked_rights(p.crights, p.active),
        clock: next_clock(p.clock),
        log: p.log.push(
            MovelogEntry {
                prev_crights: p.crights,
                prev_halfmoveclock: p.clock,
                lmove: LoggedMove::Castle(side),
            },
        ),
        castled: p.castled.update(p.active.spec_index(), true),
    }
}

/// The position with the turn passed to the other side.
pub open spec fn swapped(p: Position) -> Position {
    Position { active: p.active.spec_oppo(), ..p }
}

/// The position after a move.
pub open spec fn spec_make(p: Position, mov: AnyMove) -> Position {
    match mov {
        AnyMove::Piece(m) => swapped(after_pmove(p, m)),
        AnyMove::Castle(side) => swapped(after_castle(p, side)),
    }
}

/// A piece move can be applied: it picks up a piece of the side to move,
/// captures neither a king nor a piece of the mover's color, and promotes
/// only a pawn, to rook, knight, bishop or queen.
pub open spec fn pmove_applicable(p: Position, m: PieceMove) -> bool {
    &&& m.wf()
    &&& holds_color(p.grid[m.origin.index as int], p.active)
    &&& !holds_species(p.grid[spec_target(p, m)], Species::King)
    &&& !holds_color(p.grid[spec_target(p, m)], p.active)
    &&& m.promote matches Some(sp) ==> mover(p, m).species == Species::Pawn && sp != Species::King
        && sp != Species::Pawn
}

/// The tiles between king and rook of a wing are empty.
pub open spec fn castle_path_clear(grid: Seq<Option<Piece>>, side: Side, c: Color) -> bool {
    let r = base_rank_of(c);
    match side {
        Side::Kingside => grid[tile(r, 5)] is None && grid[tile(r, 6)] is None,
        Side::Queenside => grid[tile(r, 1)] is None && grid[tile(r, 2)] is None && grid[tile(r, 3)] is None,
    }
}

/// A castle can be applied: the right is there, king and rook stand at
/// home, and the tiles between them are empty.
pub open spec fn castle_applicable(p: Position, side: Side) -> bool {
    &&& p.crights.has(side, p.active)
    &&& castle_pieces_home(p.grid, side, p.active)
    &&& !p.castled[p.active.spec_index()]
    &&& castle_path_clear(p.grid, side, p.active)
}

/// A move can be applied to a position.
pub open spec fn applicable(p: Position, mov: AnyMove) -> bool {
    match mov {
        AnyMove::Piece(m) => pmove_applicable(p, m),
        AnyMove::Castle(side) => castle_applicable(p, side),
    }
}

/// The grid with a logged piece move taken back, as seen by `mover_color`,
/// the side that made it.
pub open spec fn grid_before_pmove(grid: Seq<Option<Piece>>, pm: LoggedPieceMove, mover_color: Color) -> Seq<
    Option<Piece>,
> {
    let species = if pm.mgmove.promote is Some {
        Species::Pawn
    } else {
        grid[pm.mgmove.destin.index as int]->Some_0.species
    };
    let cleared = grid.update(pm.mgmove.destin.index as int, None).update(pm.target.index as int, None);
    let restored = if pm.capture is Some {
        cleared.update(pm.target.index as int, pm.capture)
    } else {
        cleared
    };
    restored.update(pm.mgmove.origin.index as int, Some(Piece { color: mover_color, species }))
}

/// The grid with a castle taken back.
pub open spec fn grid_before_castle(grid: Seq<Option<Piece>>, side: Side, c: Color) -> Seq<Option<Piece>> {
    grid.update(castle_rook_destin(side, c), None).update(castle_king_destin(side, c), None).update(
        rook_home(side, c),
        Some(Piece { color: c, species: Species::Rook }),
    ).update(king_home(c), Some(Piece { color: c, species: Species::King }))
}

/// The position with its last move taken back.
pub open spec fn spec_unmake(p: Position) -> Position {
    let last = p.log.last();
    let mover_color = p.active.spec_oppo();
    Position {
        grid: match last.lmove {
            LoggedMove::Piece(pm) => grid_before_pmove(p.grid, pm, mover_color),
            LoggedMove::Castle(side) => grid_before_castle(p.grid, side, mover_color),
        },
        active: mover_color,
        crights: last.prev_crights,
        clock: last.prev_halfmoveclock,
        log: p.log.drop_last(),
        castled: match last.lmove {
            LoggedMove::Piece(_) => p.castled,
            LoggedMove::Castle(_) => p.castled.update(mover_color.spec_index(), false),
        },
    }
}

/// The last move of a position can be taken back: there is one, and the
/// tiles that taking it back fills are free.
pub open spec fn undoable(p: Position) -> bool {
    &&& p.wf()
    &&& p.log.len() > 0
    &&& match p.log.last().lmove {
        LoggedMove::Piece(pm) => {
            let o = pm.mgmove.origin.index as int;
            let d = pm.mgmove.destin.index as int;
            let t = pm.target.index as int;
            &&& p.grid[d] is Some
            &&& o != d ==> o == t || p.grid[o] is None
            &&& pm.capture is Some ==> o != t
        },
        LoggedMove::Castle(side) => {
            let c = p.active.spec_oppo();
            &&& p.grid[king_home(c)] is None || king_home(c) == castle_king_destin(side, c)
            &&& p.grid[rook_home(side, c)] is None
        },
    }
}

/// Taking back a move that was just made gives the position back.
pub proof fn lemma_unmake_make(p: Position, mov: AnyMove)
    requires
        p.wf(),
        applicable(p, mov),
    ensures
        spec_unmake(spec_make(p, mov)) == p,
        undoable(spec_make(p, mov)),
{
    let q = spec_make(p, mov);
    let r = spec_unmake(q);
    lemma_make_wf(p, mov);
    assert(q.log.drop_last() =~= p.log);
    match mov {
        AnyMove::Piece(m) => {
            let o = m.origin.index as int;
            let d = m.destin.index as int;
            let t = spec_target(p, m);
            assert(0 <= t < 64);
            assert(o != t);
            assert(o != d);
            assert(r.grid =~= p.grid);
            assert(r.castled =~= p.castled);
        },
        AnyMove::Castle(side) => {
            assert(r.grid =~= p.grid);
            assert(r.castled =~= p.castled);
        },
    }
}

/// A move leaves the position well-formed.
pub proof fn lemma_make_wf(p: Position, mov: AnyMove)
    requires
        p.wf(),
        applicable(p, mov),
    ensures
        spec_make(p, mov).wf(),
        mov matches AnyMove::Piece(m) ==> 0 <= spec_target(p, m) < 64 && after_pmove(p, m).wf(),
        mov matches AnyMove::Castle(side) ==> after_castle(p, side).wf(),
{
    let q = spec_make(p, mov);
    match mov {
        AnyMove::Piece(m) => {
            let g = grid_after_pmove(p, m);
            lemma_rights_word(
                p.crights.has(Side::Queenside, Color::White) && castle_pieces_home(g, Side::Queenside, Color::White),
                p.crights.has(Side::Kingside, Color::White) && castle_pieces_home(g, Side::Kingside, Color::White),
                p.crights.has(Side::Queenside, Color::Black) && castle_pieces_home(g, Side::Queenside, Color::Black),
                p.crights.has(Side::Kingside, Color::Black) && castle_pieces_home(g, Side::Kingside, Color::Black),
            );
            assert(pmove_record(p, m).wf());
        },
        AnyMove::Castle(side) => {
            lemma_rights_word(
                p.crights.has(Side::Queenside, Color::White) && p.active != Color::White,
                p.crights.has(Side::Kingside, Color::White) && p.active != Color::White,
                p.crights.has(Side::Queenside, Color::Black) && p.active != Color::Black,
                p.crights.has(Side::Kingside, Color::Black) && p.active != Color::Black,
            );
        },
    }
    assert forall|i: int| 0 <= i < q.log.len() implies (#[trigger] q.log[i]).wf() by {
        if i < p.log.len() {
            assert(q.log[i] == p.log[i]);
        }
    }
    assert(log_ok(q.log));
}

/// What `kept_rights` keeps.
pub proof fn lemma_kept_rights(cr: CastlingRights, grid: Seq<Option<Piece>>)
    ensures
        kept_rights(cr, grid).wf(),
        forall|side: Side, c: Color| #[trigger]
            kept_rights(cr, grid).has(side, c) == (cr.has(side, c) && castle_pieces_home(grid, side, c)),
{
    lemma_rights_word(
        cr.has(Side::Queenside, Color::White) && castle_pieces_home(grid, Side::Queenside, Color::White),
        cr.has(Side::Kingside, Color::White) && castle_pieces_home(grid, Side::Kingside, Color::White),
        cr.has(Side::Queenside, Color::Black) && castle_pieces_home(grid, Side::Queenside, Color::Black),
        cr.has(Side::Kingside, Color::Black) && castle_pieces_home(grid, Side::Kingside, Color::Black),
    );
}

/// What `revoked_rights` keeps.
pub proof fn lemma_revoked_rights(cr: CastlingRights, color: Color)
    ensures
        revoked_rights(cr, color).wf(),
        forall|side: Side, c: Color| #[trigger]
            revoked_rights(cr, color).has(side, c) == (cr.has(side, c) && c != color),
{
    lemma_rights_word(
        cr.has(Side::Queenside, Color::White) && color != Color::White,
        cr.has(Side::Kingside, Color::White) && color != Color::White,
        cr.has(Side::Queenside, Color::Black) && color != Color::Black,
        cr.has(Side::Kingside, Color::Black) && color != Color::Black,
    );
}

/// A move never gives back a castling right.
pub proof fn lemma_rights_never_return(p: Position, mov: AnyMove)
    requires
        p.wf(),
        applicable(p, mov),
    ensures
        spec_make(p, mov).crights.within(p.crights),
{
    match mov {
        AnyMove::Piece(m) => {
            lemma_kept_rights(p.crights, grid_after_pmove(p, m));
        },
        AnyMove::Castle(side) => {
            lemma_revoked_rights(p.crights, p.active);
        },
    }
}

/// A move that can be applied to a playable position leaves a playable
/// position.
pub proof fn lemma_make_keeps_playable(p: Position, mov: AnyMove)
    requires
        p.playable(),
        applicable(p, mov),
    ensures
        spec_make(p, mov).playable(),
        mov matches AnyMove::Piece(m) ==> after_pmove(p, m).playable(),
{
    let q = spec_make(p, mov);
    lemma_make_wf(p, mov);
    let kw = choose|k: int| is_king_tile(p.grid, Color::White, k);
    let kb = choose|k: int| is_king_tile(p.grid, Color::Black, k);
    match mov {
        AnyMove::Piece(m) => {
            let o = m.origin.index as int;
            let d = m.destin.index as int;
            let t = spec_target(p, m);
            let g = grid_after_pmove(p, m);
            lemma_kept_rights(p.crights, g);
            assert(o != t && o != d);
            let nkw = if kw == o {
                d
            } else {
                kw
            };
            let nkb = if kb == o {
                d
            } else {
                kb
            };
            assert(is_king_tile(g, Color::White, nkw));
            assert(is_king_tile(g, Color::Black, nkb));
            assert(after_pmove(p, m).playable());
        },
        AnyMove::Castle(side) => {
            let g = grid_after_castle(p, side);
            lemma_revoked_rights(p.crights, p.active);
            let c = p.active;
            let nkw = if c == Color::White {
                castle_king_destin(side, c)
            } else {
                kw
            };
            let nkb = if c == Color::Black {
                castle_king_destin(side, c)
            } else {
                kb
            };
            assert(kw == king_home(Color::White) || c != Color::White);
            assert(kb == king_home(Color::Black) || c != Color::Black);
            assert(is_king_tile(g, Color::White, nkw));
            assert(is_king_tile(g, Color::Black, nkb));
            assert forall|s: Side, oc: Color| #[trigger] q.crights.has(s, oc) implies castle_pieces_home(
                q.grid,
                s,
                oc,
            ) && !q.castled[oc.spec_index()] by {
                assert(oc != c);
                assert(p.crights.has(s, oc));
            }
        },
    }
}

/// A piece of the side to move, of species `sp`, stands on tile `s`.
pub open spec fn own_piece_on(p: Position, s: int, sp: Species) -> bool {
    p.grid[s] == Some(Piece { color: p.active, species: sp })
}

/// The king steps to a neighbouring tile.
pub open spec fn king_rule(p: Position, m: PieceMove) -> bool {
    &&& m.wf()
    &&& own_piece_on(p, m.origin.index as int, Species::King)
    &&& king_step(m.origin.index as int, m.destin.index as int)
    &&& m.promote is None
}

/// A knight jumps.
pub open spec fn knight_rule(p: Position, m: PieceMove) -> bool {
    &&& m.wf()
    &&& own_piece_on(p, m.origin.index as int, Species::Knight)
    &&& knight_step(m.origin.index as int, m.destin.index as int)
    &&& m.promote is None
}

/// A slider of species `sp` moves along a line of traversal `slot`, over
/// empty tiles only, up to and including the first occupied one.
pub open spec fn slider_rule(p: Position, m: PieceMove, sp: Species, slot: int) -> bool {
    &&& m.wf()
    &&& own_piece_on(p, m.origin.index as int, sp)
    &&& slide_reaches(slot, p.grid, m.origin.index as int, m.destin.index as int)
    &&& m.promote is None
}

/// A pawn that reaches the last rank is promoted to knight, bishop, queen
/// or rook, and no other pawn move promotes.
pub open spec fn promotion_fits(p: Position, m: PieceMove) -> bool {
    if rel_index(m.destin.index as int, p.active) >= 56 {
        m.promote == Some(Species::Knight) || m.promote == Some(Species::Bishop) || m.promote == Some(
            Species::Queen,
        ) || m.promote == Some(Species::Rook)
    } else {
        m.promote is None
    }
}

/// A pawn advances one rank onto an empty tile.
pub open spec fn pawn_push_rule(p: Position, m: PieceMove) -> bool {
    &&& m.wf()
    &&& own_piece_on(p, m.origin.index as int, Species::Pawn)
    &&& rel_index(m.destin.index as int, p.active) == rel_index(m.origin.index as int, p.active) + 8
    &&& p.grid[m.destin.index as int] is None
    &&& promotion_fits(p, m)
}

/// A pawn on its starting rank advances two ranks over an empty tile onto
/// an empty tile.
pub open spec fn pawn_jump_rule(p: Position, m: PieceMove) -> bool {
    let ro = rel_index(m.origin.index as int, p.active);
    &&& m.wf()
    &&& own_piece_on(p, m.origin.index as int, Species::Pawn)
    &&& 8 <= ro < 16
    &&& rel_index(m.destin.index as int, p.active) == ro + 16
    &&& p.grid[rel_index(ro + 8, p.active)] is None
    &&& p.grid[m.destin.index as int] is None
    &&& m.promote is None
}

/// A pawn captures an opposing piece diagonally ahead of it.
pub open spec fn pawn_capture_rule(p: Position, m: PieceMove) -> bool {
    &&& m.wf()
    &&& own_piece_on(p, m.origin.index as int, Species::Pawn)
    &&& attacks_up(rel_index(m.origin.index as int, p.active), rel_index(m.destin.index as int, p.active))
    &&& holds_color(p.grid[m.destin.index as int], p.active.spec_oppo())
    &&& promotion_fits(p, m)
}

/// A pawn captures en passant: the last move was a pawn's double jump, and
/// the pawn moves diagonally onto the tile that the jump passed over,
/// which is empty.
pub open spec fn en_passant_rule(p: Position, m: PieceMove) -> bool {
    &&& m.wf()
    &&& p.log.len() > 0
    &&& p.grid[m.destin.index as int] is None
    &&& p.log.last().lmove matches LoggedMove::Piece(pm) && pm.is_pdj && rel_index(
        m.destin.index as int,
        p.active,
    ) == rel_index(pm.mgmove.destin.index as int, p.active) + 8
    &&& own_piece_on(p, m.origin.index as int, Species::Pawn)
    &&& attacks_up(rel_index(m.origin.index as int, p.active), rel_index(m.destin.index as int, p.active))
    &&& m.promote is None
}

/// The move follows the way some piece of the side to move moves.
pub open spec fn piece_rule(p: Position, m: PieceMove) -> bool {
    ||| king_rule(p, m)
    ||| knight_rule(p, m)
    ||| slider_rule(p, m, Species::Bishop, 2)
    ||| slider_rule(p, m, Species::Bishop, 3)
    ||| slider_rule(p, m, Species::Rook, 1)
    ||| slider_rule(p, m, Species::Rook, 0)
    ||| slider_rule(p, m, Species::Queen, 1)
    ||| slider_rule(p, m, Species::Queen, 0)
    ||| slider_rule(p, m, Species::Queen, 2)
    ||| slider_rule(p, m, Species::Queen, 3)
    ||| pawn_push_rule(p, m)
    ||| pawn_jump_rule(p, m)
    ||| pawn_capture_rule(p, m)
    ||| en_passant_rule(p, m)
}

/// A pseudo-legal piece move: it follows the way its piece moves and can
/// be applied. It may leave the mover's king attacked.
pub open spec fn pseudo_legal(p: Position, m: PieceMove) -> bool {
    piece_rule(p, m) && pmove_applicable(p, m)
}

/// A piece move leaves the mover's king unattacked.
pub open spec fn pmove_safe(p: Position, m: PieceMove) -> bool {
    !in_check(after_pmove(p, m))
}

/// The tile the king passes over when it castles.
pub open spec fn castle_transit(side: Side, c: Color) -> int {
    castle_rook_destin(side, c)
}

/// A castle is legal: the right is still set; the tiles between king and
/// rook are empty; and neither the king's tile, nor the tile it passes
/// over, nor the tile it lands on is attacked.
pub open spec fn castle_legal(p: Position, side: Side) -> bool {
    &&& p.crights.has(side, p.active)
    &&& castle_path_clear(p.grid, side, p.active)
    &&& !tile_attacked(p.grid, p.active, king_home(p.active))
    &&& !tile_attacked(p.grid, p.active, castle_transit(side, p.active))
    &&& !tile_attacked(p.grid, p.active, castle_king_destin(side, p.active))
}

/// A legal move: a pseudo-legal piece move that leaves the mover's king
/// unattacked, or a legal castle.
pub open spec fn legal(p: Position, mov: AnyMove) -> bool {
    match mov {
        AnyMove::Piece(m) => pseudo_legal(p, m) && pmove_safe(p, m),
        AnyMove::Castle(side) => castle_legal(p, side),
    }
}

/// In a position that can occur in play every legal move can be applied.
pub proof fn lemma_legal_applicable(p: Position, mov: AnyMove)
    requires
        p.playable(),
        legal(p, mov),
    ensures
        applicable(p, mov),
{
}

/// Every legal piece move is pseudo-legal, and a pseudo-legal piece move
/// is legal exactly when it does not leave the mover's king attacked.
pub proof fn lemma_legal_within_pseudo_legal(p: Position, m: PieceMove)
    ensures
        legal(p, AnyMove::Piece(m)) ==> pseudo_legal(p, m),
        pseudo_legal(p, m) ==> (legal(p, AnyMove::Piece(m)) <==> !in_check(after_pmove(p, m))),
{
}

/// Each condition of castling is necessary: without the right, with a
/// piece between king and rook, or with the king's tile, the tile it
/// passes over or the tile it lands on attacked, the castle is not legal.
/// A right that is set stands for king and rook at home, so a castle is
/// not legal either once one of them has left.
pub proof fn lemma_castle_conditions_necessary(p: Position, side: Side)
    requires
        p.playable(),
    ensures
        !p.crights.has(side, p.active) ==> !castle_legal(p, side),
        !castle_pieces_home(p.grid, side, p.active) ==> !castle_legal(p, side),
        !castle_path_clear(p.grid, side, p.active) ==> !castle_legal(p, side),
        tile_attacked(p.grid, p.active, king_home(p.active)) ==> !castle_legal(p, side),
        tile_attacked(p.grid, p.active, castle_transit(side, p.active)) ==> !castle_legal(p, side),
        tile_attacked(p.grid, p.active, castle_king_destin(side, p.active)) ==> !castle_legal(p, side),
{
}

} // verus!
