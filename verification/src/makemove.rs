//! Making a move and taking it back on the full state: grid, bitboards,
//! rights, clock, log and fingerprint together.

use vstd::prelude::*;
use crate::bits::swap_bytes_inplace_u64;
use crate::bits::{lemma_bit_clear, lemma_bit_set, lemma_bit_swap_bytes};
use crate::bits::{lemma_hash_after_make, lemma_hash_after_unmake, lemma_xor_algebra};
use crate::cache::{ep_key, tile_const, HashChars};
use crate::crights::lemma_crights_ext;
use crate::crights::update_crights_all;
use crate::enpassant::is_enpassant_vuln;
use crate::gamestate::{LoggedPieceMove, MovelogEntry};
use crate::gamestate::{active_const, ep_file, holds_color, holds_species, lemma_position_determines_state};
use crate::gamestate::{king_home, log_ok, rook_home};
use crate::gamestate::{position_hash, same_position, tiles_hash, ChessGame, LoggedMove};
use crate::grid::{File, Rank, Side, StandardCoordinate};
use crate::misc::pick;
use crate::mov::{get_target_sq, AnyMove, PieceMove};
use crate::piece::{Color, Piece, Species};
use crate::rmrel::{lemma_rel_involution, rel_index, relativize};
use crate::rules::grid_after_castle;
use crate::rules::{after_castle, after_pmove, applicable, castle_applicable, grid_after_pmove};
use crate::rules::{grid_before_castle, grid_before_pmove, lemma_make_keeps_playable};
use crate::rules::{lemma_kept_rights, mover, pmove_record, pmove_safe};
use crate::rules::{lemma_revoked_rights, lemma_unmake_make, pmove_applicable, revoked_rights};
use crate::rules::{spec_make, spec_unmake, swapped, undoable};

verus! {

/// Changing one tile of a grid changes the fingerprint of its tiles by the
/// constants of the old and the new content.
pub proof fn lemma_tiles_hash_update(
    chs: HashChars,
    grid: Seq<Option<Piece>>,
    s: int,
    x: Option<Piece>,
    n: int,
)
    requires
        0 <= s < 64,
        0 <= n <= 64,
        grid.len() == 64,
    ensures
        tiles_hash(chs, grid.update(s, x), n) == (if s < n {
            tiles_hash(chs, grid, n) ^ tile_const(chs, s, grid[s]) ^ tile_const(chs, s, x)
        } else {
            tiles_hash(chs, grid, n)
        }),
    decreases n,
{
    if n > 0 {
        lemma_tiles_hash_update(chs, grid, s, x, n - 1);
        let prev = tiles_hash(chs, grid, n - 1);
        let b = tile_const(chs, s, grid[s]);
        let c = tile_const(chs, s, x);
        let d = tile_const(chs, n - 1, grid[n - 1]);
        if s == n - 1 {
            lemma_xor_algebra(prev, b, c, d);
        } else if s < n - 1 {
            lemma_xor_algebra(prev, b, c, d);
        }
    }
}

/// Everything but the tiles is as before, and the fingerprint changed only
/// by the tiles' constants.
pub open spec fn only_tiles_changed(pre: ChessGame, post: ChessGame) -> bool {
    &&& post.bbs.active_player == pre.bbs.active_player
    &&& post.crights == pre.crights
    &&& post.halfmoveclock == pre.halfmoveclock
    &&& post.movelog == pre.movelog
    &&& post.has_castled == pre.has_castled
    &&& post.hash.chs == pre.hash.chs
    &&& post.hash_residue() == pre.hash_residue()
}

/// Empties a tile in the grid and in every bitboard, and takes its
/// occupant's constant out of the fingerprint.
pub fn clear_tile(state: &mut ChessGame, pos: StandardCoordinate)
    requires
        old(state).boards_ok(),
        pos.wf(),
    ensures
        final(state).boards_ok(),
        final(state).p_lut@ == old(state).p_lut@.update(pos.index as int, None),
        only_tiles_changed(*old(state), *final(state)),
        old(state).coherent() && old(state).movelog@.len() == 0 ==> final(state).coherent(),
{
    let ghost pre = *state;
    let ghost grid = state.p_lut@;
    let ghost grid2 = grid.update(pos.index as int, None);
    let occupant: Option<Piece> = state.p_lut.get(pos);
    let active: Color = state.active_player();
    let rel: u8 = relativize(pos, active);
    if let Some(piece) = occupant {
        let mut color_bb = *state.bbs.affilia_bbs.get(piece.color());
        color_bb.unset(pos);
        state.bbs.affilia_bbs.set(piece.color(), color_bb);
        let mut species_bb = *state.bbs.species_bbs.get(piece.species());
        species_bb.unset(pos);
        state.bbs.species_bbs.set(piece.species(), species_bb);
        let rel_bb: u64 = *state.bbs.affilia_rel_bbs.get(piece.color());
        state.bbs.affilia_rel_bbs.set(piece.color(), rel_bb & !(1u64 << (rel as u64)));
        state.hash.toggle_tile(pos, piece);
        proof {
            assert forall|c: Color, s: int| 0 <= s < 64 implies #[trigger] state.bbs.rel_color_has(c, s)
                == holds_color(grid2[s], c) by {
                lemma_rel_involution(s, active);
                lemma_rel_involution(pos.index as int, active);
                assert(pre.bbs.rel_color_has(c, s) == holds_color(grid[s], c));
                if c == piece.color {
                    lemma_bit_clear(rel_bb, rel as int, rel_index(s, active));
                }
            }
            assert forall|sp: Species, s: int| 0 <= s < 64 implies #[trigger] state.bbs.species_has(sp, s)
                == holds_species(grid2[s], sp) by {
                assert(pre.bbs.species_has(sp, s) == holds_species(grid[s], sp));
            }
            assert forall|c: Color, s: int| 0 <= s < 64 implies #[trigger] state.bbs.color_has(c, s)
                == holds_color(grid2[s], c) by {
                assert(pre.bbs.color_has(c, s) == holds_color(grid[s], c));
            }
            assert forall|sp: Species| (#[trigger] state.bbs.species_bbs.spec_get(sp)).wf() by {
                assert(pre.bbs.species_bbs.spec_get(sp).wf());
            }
            assert forall|c: Color| (#[trigger] state.bbs.affilia_bbs.spec_get(c)).wf() by {
                assert(pre.bbs.affilia_bbs.spec_get(c).wf());
            }
        }
    }
    let ghost mid = *state;
    state.p_lut.set(pos, None);
    let pawn_bb: u64 = state.bbs.pawn_rel_bb;
    state.bbs.pawn_rel_bb = pawn_bb & !(1u64 << (rel as u64));
    proof {
        assert(state.p_lut@ == grid2);
        assert forall|s: int| 0 <= s < 64 implies #[trigger] state.bbs.rel_pawn_has(s) == holds_species(
            grid2[s],
            Species::Pawn,
        ) by {
            lemma_rel_involution(s, active);
            lemma_rel_involution(pos.index as int, active);
            assert(pre.bbs.rel_pawn_has(s) == holds_species(grid[s], Species::Pawn));
            lemma_bit_clear(pawn_bb, rel as int, rel_index(s, active));
        }
        assert forall|c: Color, s: int| 0 <= s < 64 implies #[trigger] state.bbs.rel_color_has(c, s)
            == holds_color(grid2[s], c) by {
            assert(mid.bbs.rel_color_has(c, s) == state.bbs.rel_color_has(c, s));
            if occupant is None {
                assert(pre.bbs.rel_color_has(c, s) == holds_color(grid[s], c));
            }
        }
        assert forall|sp: Species, s: int| 0 <= s < 64 implies #[trigger] state.bbs.species_has(sp, s)
            == holds_species(grid2[s], sp) by {
            assert(mid.bbs.species_has(sp, s) == state.bbs.species_has(sp, s));
            if occupant is None {
                assert(pre.bbs.species_has(sp, s) == holds_species(grid[s], sp));
            }
        }
        assert forall|c: Color, s: int| 0 <= s < 64 implies #[trigger] state.bbs.color_has(c, s)
            == holds_color(grid2[s], c) by {
            assert(mid.bbs.color_has(c, s) == state.bbs.color_has(c, s));
            if occupant is None {
                assert(pre.bbs.color_has(c, s) == holds_color(grid[s], c));
            }
        }
        assert forall|sp: Species| (#[trigger] state.bbs.species_bbs.spec_get(sp)).wf() by {
            assert(mid.bbs.species_bbs.spec_get(sp).wf());
        }
        assert forall|c: Color| (#[trigger] state.bbs.affilia_bbs.spec_get(c)).wf() by {
            assert(mid.bbs.affilia_bbs.spec_get(c).wf());
        }
        lemma_tiles_hash_update(pre.hash.chs, grid, pos.index as int, None, 64);
        lemma_xor_algebra(
            pre.hash.value,
            tile_const(pre.hash.chs, pos.index as int, grid[pos.index as int]),
            tiles_hash(pre.hash.chs, grid, 64),
            0,
        );
        if pre.coherent() && pre.movelog@.len() == 0 {
            let chs = pre.hash.chs;
            crate::bits::lemma_hash_refold(
                pre.hash.value,
                state.hash.value,
                tiles_hash(chs, grid, 64),
                tiles_hash(chs, grid2, 64),
                chs.crights[pre.crights.data as int],
                chs.ep_vuln[ep_key(ep_file(pre.abs()))],
                active_const(chs, pre.bbs.active_player),
            );
        }
    }
}

/// Puts a piece on an empty tile in the grid and in every bitboard, and
/// brings its constant into the fingerprint.
pub fn fill_tile(state: &mut ChessGame, pos: StandardCoordinate, piece: Piece)
    requires
        old(state).boards_ok(),
        pos.wf(),
        old(state).p_lut@[pos.index as int] is None,
    ensures
        final(state).boards_ok(),
        final(state).p_lut@ == old(state).p_lut@.update(pos.index as int, Some(piece)),
        only_tiles_changed(*old(state), *final(state)),
        old(state).coherent() && old(state).movelog@.len() == 0 ==> final(state).coherent(),
{
    let ghost pre = *state;
    let ghost grid = state.p_lut@;
    let ghost grid2 = grid.update(pos.index as int, Some(piece));
    state.p_lut.set(pos, Some(piece));
    let mut color_bb = *state.bbs.affilia_bbs.get(piece.color());
    color_bb.set(pos);
    state.bbs.affilia_bbs.set(piece.color(), color_bb);
    let mut species_bb = *state.bbs.species_bbs.get(piece.species());
    species_bb.set(pos);
    state.bbs.species_bbs.set(piece.species(), species_bb);
    state.hash.toggle_tile(pos, piece);
    let active: Color = state.active_player();
    let rel_pos: u8 = relativize(pos, active);
    let rel_bb: u64 = *state.bbs.affilia_rel_bbs.get(piece.color());
    state.bbs.affilia_rel_bbs.set(piece.color(), rel_bb | (1u64 << (rel_pos as u64)));
    let is_pawn: bool = piece.species() == Species::Pawn;
    let pawn_bb: u64 = state.bbs.pawn_rel_bb;
    if is_pawn {
        state.bbs.pawn_rel_bb = pawn_bb | (1u64 << (rel_pos as u64));
    }
    proof {
        assert(state.p_lut@ == grid2);
        assert forall|s: int| 0 <= s < 64 implies #[trigger] state.bbs.rel_pawn_has(s) == holds_species(
            grid2[s],
            Species::Pawn,
        ) by {
            lemma_rel_involution(s, active);
            lemma_rel_involution(pos.index as int, active);
            assert(pre.bbs.rel_pawn_has(s) == holds_species(grid[s], Species::Pawn));
            lemma_bit_set(pawn_bb, rel_pos as int, rel_index(s, active));
        }
        assert forall|c: Color, s: int| 0 <= s < 64 implies #[trigger] state.bbs.rel_color_has(c, s)
            == holds_color(grid2[s], c) by {
            lemma_rel_involution(s, active);
            lemma_rel_involution(pos.index as int, active);
            assert(pre.bbs.rel_color_has(c, s) == holds_color(grid[s], c));
            if c == piece.color {
                lemma_bit_set(rel_bb, rel_pos as int, rel_index(s, active));
            }
        }
        assert forall|sp: Species, s: int| 0 <= s < 64 implies #[trigger] state.bbs.species_has(sp, s)
            == holds_species(grid2[s], sp) by {
            assert(pre.bbs.species_has(sp, s) == holds_species(grid[s], sp));
        }
        assert forall|c: Color, s: int| 0 <= s < 64 implies #[trigger] state.bbs.color_has(c, s)
            == holds_color(grid2[s], c) by {
            assert(pre.bbs.color_has(c, s) == holds_color(grid[s], c));
        }
        assert forall|sp: Species| (#[trigger] state.bbs.species_bbs.spec_get(sp)).wf() by {
            assert(pre.bbs.species_bbs.spec_get(sp).wf());
        }
        assert forall|c: Color| (#[trigger] state.bbs.affilia_bbs.spec_get(c)).wf() by {
            assert(pre.bbs.affilia_bbs.spec_get(c).wf());
        }
        lemma_tiles_hash_update(pre.hash.chs, grid, pos.index as int, Some(piece), 64);
        lemma_xor_algebra(
            pre.hash.value,
            tile_const(pre.hash.chs, pos.index as int, Some(piece)),
            tiles_hash(pre.hash.chs, grid, 64),
            0,
        );
        if pre.coherent() && pre.movelog@.len() == 0 {
            let chs = pre.hash.chs;
            crate::bits::lemma_hash_refold(
                pre.hash.value,
                state.hash.value,
                tiles_hash(chs, grid, 64),
                tiles_hash(chs, grid2, 64),
                chs.crights[pre.crights.data as int],
                chs.ep_vuln[ep_key(ep_file(pre.abs()))],
                active_const(chs, pre.bbs.active_player),
            );
        }
    }
}

/// Passes the turn: turns the relative bitboards round, flips the side to
/// move, and toggles the side's constant in the fingerprint.
pub fn swap_active(state: &mut ChessGame)
    requires
        old(state).boards_ok(),
    ensures
        final(state).boards_ok(),
        final(state).abs() == swapped(old(state).abs()),
        final(state).p_lut == old(state).p_lut,
        final(state).movelog == old(state).movelog,
        final(state).hash.chs == old(state).hash.chs,
        final(state).hash.value == old(state).hash.value ^ old(state).hash.chs.active,
{
    let ghost pre = *state;
    let ghost grid = state.p_lut@;
    let mut pawns: u64 = state.bbs.pawn_rel_bb;
    swap_bytes_inplace_u64(&mut pawns);
    state.bbs.pawn_rel_bb = pawns;
    let mut white: u64 = *state.bbs.affilia_rel_bbs.get(Color::White);
    swap_bytes_inplace_u64(&mut white);
    state.bbs.affilia_rel_bbs.set(Color::White, white);
    let mut black: u64 = *state.bbs.affilia_rel_bbs.get(Color::Black);
    swap_bytes_inplace_u64(&mut black);
    state.bbs.affilia_rel_bbs.set(Color::Black, black);
    state.bbs.active_player.swap();
    state.hash.toggle_active();
    proof {
        let before = pre.bbs.active_player;
        let after = state.bbs.active_player;
        assert forall|s: int| 0 <= s < 64 implies #[trigger] state.bbs.rel_pawn_has(s) == holds_species(
            grid[s],
            Species::Pawn,
        ) by {
            lemma_rel_involution(s, before);
            lemma_rel_involution(s, after);
            lemma_bit_swap_bytes(pre.bbs.pawn_rel_bb, rel_index(s, after));
            assert(pre.bbs.rel_pawn_has(s) == holds_species(grid[s], Species::Pawn));
        }
        assert forall|c: Color, s: int| 0 <= s < 64 implies #[trigger] state.bbs.rel_color_has(c, s)
            == holds_color(grid[s], c) by {
            lemma_rel_involution(s, before);
            lemma_rel_involution(s, after);
            lemma_bit_swap_bytes(pre.bbs.affilia_rel_bbs.spec_get(c), rel_index(s, after));
            assert(pre.bbs.rel_color_has(c, s) == holds_color(grid[s], c));
        }
        assert forall|sp: Species, s: int| 0 <= s < 64 implies #[trigger] state.bbs.species_has(sp, s)
            == holds_species(grid[s], sp) by {
            assert(pre.bbs.species_has(sp, s) == holds_species(grid[s], sp));
        }
        assert forall|c: Color, s: int| 0 <= s < 64 implies #[trigger] state.bbs.color_has(c, s)
            == holds_color(grid[s], c) by {
            assert(pre.bbs.color_has(c, s) == holds_color(grid[s], c));
        }
    }
}

/// Applies a piece move, short of passing the turn: moves the piece,
/// removes what it captures, recomputes the rights, advances or resets the
/// clock, and appends the record.
pub fn make_pmove(state: &mut ChessGame, mgmove: PieceMove)
    requires
        old(state).boards_ok(),
        pmove_applicable(old(state).abs(), mgmove),
    ensures
        final(state).boards_ok(),
        final(state).abs() == after_pmove(old(state).abs(), mgmove),
        final(state).hash.chs == old(state).hash.chs,
        final(state).hash_residue() == old(state).hash_residue(),
{
    let ghost pre = *state;
    let ghost p = state.abs();
    let piece: Piece = state.p_lut.get(mgmove.origin).unwrap();
    let target: StandardCoordinate = get_target_sq(mgmove, state);
    let capture: Option<Piece> = state.p_lut.get(target);
    clear_tile(state, mgmove.origin);
    clear_tile(state, target);
    let place_species: Species = match mgmove.promote {
        Some(sp) => sp,
        None => piece.species(),
    };
    let place_piece = Piece::new(state.active_player(), place_species);
    fill_tile(state, mgmove.destin, place_piece);
    assert(state.p_lut@ == grid_after_pmove(p, mgmove));
    let prev_crights = state.crights;
    update_crights_all(state);
    let prev_halfmoveclock: u16 = state.halfmoveclock;
    if state.halfmoveclock < u16::MAX {
        state.halfmoveclock += 1;
    }
    let reset_halfmoveclock: bool = capture.is_some() || piece.species() == Species::Pawn;
    if reset_halfmoveclock {
        state.halfmoveclock = 0;
    }
    let is_pdj: bool = piece.species() == Species::Pawn && mgmove.origin.rank() == Rank::pawn_rank(
        state.active_player(),
    ) && mgmove.destin.rank() == Rank::pdj_rank(state.active_player());
    let lpm = LoggedPieceMove { mgmove, capture, is_pdj, target };
    let mle = MovelogEntry { prev_crights, prev_halfmoveclock, lmove: LoggedMove::Piece(lpm) };
    assert(mle == pmove_record(p, mgmove));
    state.movelog.push(mle);
    proof {
        assert(mle.wf());
        assert(log_ok(state.movelog@)) by {
            assert forall|i: int| 0 <= i < state.movelog@.len() implies (#[trigger] state.movelog@[i]).wf() by {
                if i < pre.movelog@.len() {
                    assert(state.movelog@[i] == pre.movelog@[i]);
                }
            }
        }
        lemma_kept_rights(p.crights, grid_after_pmove(p, mgmove));
    }
}

/// Applies a castle, short of passing the turn: moves king and rook,
/// takes both rights from the mover, advances the clock, appends the
/// record, and marks the mover as having castled.
pub fn make_castle(state: &mut ChessGame, side: Side)
    requires
        old(state).boards_ok(),
        castle_applicable(old(state).abs(), side),
    ensures
        final(state).boards_ok(),
        final(state).abs() == after_castle(old(state).abs(), side),
        final(state).hash.chs == old(state).hash.chs,
        final(state).hash_residue() == old(state).hash_residue(),
{
    let ghost pre = *state;
    let ghost p = state.abs();
    let active: Color = state.active_player();
    let rook_origin_file: File = match side {
        Side::Queenside => File::A,
        Side::Kingside => File::H,
    };
    let rook_origin = StandardCoordinate::new(Rank::base_rank(active), rook_origin_file);
    let rook_destin_file: File = match side {
        Side::Queenside => File::D,
        Side::Kingside => File::F,
    };
    let rook_destin = StandardCoordinate::new(Rank::base_rank(active), rook_destin_file);
    let king_destin_file: File = match side {
        Side::Queenside => File::C,
        Side::Kingside => File::G,
    };
    let king_destin = StandardCoordinate::new(Rank::base_rank(active), king_destin_file);
    let king_origin = StandardCoordinate::new(Rank::base_rank(active), File::E);
    clear_tile(state, king_origin);
    clear_tile(state, rook_origin);
    fill_tile(state, rook_destin, Piece::new(active, Species::Rook));
    fill_tile(state, king_destin, Piece::new(active, Species::King));
    assert(state.p_lut@ == grid_after_castle(p, side));
    let prev_crights = state.crights;
    state.crights.revoke(active);
    let prev_halfmoveclock: u16 = state.halfmoveclock;
    if state.halfmoveclock < u16::MAX {
        state.halfmoveclock += 1;
    }
    let mle = MovelogEntry { prev_crights, prev_halfmoveclock, lmove: LoggedMove::Castle(side) };
    state.movelog.push(mle);
    state.has_castled.set(active, true);
    proof {
        assert(mle.wf());
        assert(log_ok(state.movelog@)) by {
            assert forall|i: int| 0 <= i < state.movelog@.len() implies (#[trigger] state.movelog@[i]).wf() by {
                if i < pre.movelog@.len() {
                    assert(state.movelog@[i] == pre.movelog@[i]);
                }
            }
        }
        lemma_revoked_rights(p.crights, active);
        lemma_crights_ext(state.crights, revoked_rights(p.crights, active));
        assert(state.abs().castled =~= after_castle(p, side).castled);
        assert(state.bbs.coherent(state.p_lut@));
    }
}

/// `post` is what making `mov` leaves of `pre`: a coherent state that
/// holds the position after the move, with the same constants.
pub open spec fn made(pre: ChessGame, mov: AnyMove, post: ChessGame) -> bool {
    &&& post.coherent()
    &&& post.abs() == spec_make(pre.abs(), mov)
    &&& post.hash.chs == pre.hash.chs
}

/// `post` is what taking back the last move leaves of `pre`.
pub open spec fn unmade(pre: ChessGame, post: ChessGame) -> bool {
    &&& post.coherent()
    &&& post.abs() == spec_unmake(pre.abs())
    &&& post.hash.chs == pre.hash.chs
}

/// Applies a move and passes the turn. Grid, bitboards and fingerprint
/// stay in agreement, no castling right comes back, and a position that
/// can occur in play is followed by one that can.
pub fn make_move(state: &mut ChessGame, mov: AnyMove)
    requires
        old(state).coherent(),
        applicable(old(state).abs(), mov),
    ensures
        made(*old(state), mov, *final(state)),
        final(state).crights.within(old(state).crights),
        undoable(final(state).abs()),
        old(state).abs().playable() ==> final(state).abs().playable(),
{
    let ghost pre = *state;
    let ghost p = state.abs();
    let ghost chs = state.hash.chs;
    let ep0: Option<File> = is_enpassant_vuln(state);
    state.hash.toggle_ep_vuln(ep0);
    state.hash.toggle_crights(state.crights);
    let ghost h2 = state.hash.value;
    match mov {
        AnyMove::Piece(pmove) => make_pmove(state, pmove),
        AnyMove::Castle(side) => make_castle(state, side),
    }
    let ghost h3 = state.hash.value;
    swap_active(state);
    let ep1: Option<File> = is_enpassant_vuln(state);
    state.hash.toggle_ep_vuln(ep1);
    state.hash.toggle_crights(state.crights);
    proof {
        let q = state.abs();
        assert(q == spec_make(p, mov));
        let t0 = tiles_hash(chs, p.grid, 64);
        let t1 = tiles_hash(chs, q.grid, 64);
        lemma_hash_after_make(
            pre.hash.value,
            h3,
            state.hash.value,
            t0,
            t1,
            chs.crights[p.crights.data as int],
            chs.crights[q.crights.data as int],
            chs.ep_vuln[ep_key(ep0)],
            chs.ep_vuln[ep_key(ep1)],
            active_const(chs, p.active),
            active_const(chs, q.active),
            chs.active,
        );
        crate::rules::lemma_rights_never_return(p, mov);
        lemma_unmake_make(p, mov);
        if p.playable() {
            lemma_make_keeps_playable(p, mov);
        }
    }
}

/// Takes a logged piece move back on the tiles: empties destination and
/// target, puts the captured piece back, and puts the mover, a pawn again
/// if it was promoted, back on its origin. The side that made the move is
/// the side to move.
pub fn unmake_pmove(state: &mut ChessGame, pmove: LoggedPieceMove)
    requires
        old(state).boards_ok(),
        pmove.mgmove.wf(),
        pmove.target.wf(),
        old(state).p_lut@[pmove.mgmove.destin.index as int] is Some,
        pmove.mgmove.origin != pmove.mgmove.destin ==> pmove.mgmove.origin == pmove.target
            || old(state).p_lut@[pmove.mgmove.origin.index as int] is None,
        pmove.capture is Some ==> pmove.mgmove.origin != pmove.target,
    ensures
        final(state).boards_ok(),
        final(state).p_lut@ == grid_before_pmove(old(state).p_lut@, pmove, old(state).bbs.active_player),
        only_tiles_changed(*old(state), *final(state)),
{
    let is_promote: bool = pmove.mgmove.promote.is_some();
    let current_species: Species = state.p_lut.get(pmove.mgmove.destin).unwrap().species();
    let species: Species = pick(is_promote, Species::Pawn, current_species);
    clear_tile(state, pmove.mgmove.destin);
    clear_tile(state, pmove.target);
    if let Some(piece) = pmove.capture {
        fill_tile(state, pmove.target, piece);
    }
    fill_tile(state, pmove.mgmove.origin, Piece::new(state.active_player(), species));
}

/// Takes a castle back on the tiles and clears the mover's castled flag.
/// The side that castled is the side to move.
pub fn unmake_castle(state: &mut ChessGame, side: Side)
    requires
        old(state).boards_ok(),
        old(state).p_lut@[king_home(old(state).bbs.active_player)] is None,
        old(state).p_lut@[rook_home(side, old(state).bbs.active_player)] is None,
    ensures
        final(state).boards_ok(),
        final(state).p_lut@ == grid_before_castle(old(state).p_lut@, side, old(state).bbs.active_player),
        final(state).bbs.active_player == old(state).bbs.active_player,
        final(state).crights == old(state).crights,
        final(state).halfmoveclock == old(state).halfmoveclock,
        final(state).movelog == old(state).movelog,
        final(state).has_castled.array@ == old(state).has_castled.array@.update(
            old(state).bbs.active_player.spec_index(),
            false,
        ),
        final(state).hash.chs == old(state).hash.chs,
        final(state).hash_residue() == old(state).hash_residue(),
{
    let active: Color = state.active_player();
    let rook_origin_file: File = match side {
        Side::Queenside => File::A,
        Side::Kingside => File::H,
    };
    let rook_origin = StandardCoordinate::new(Rank::base_rank(active), rook_origin_file);
    let rook_destin_file: File = match side {
        Side::Queenside => File::D,
        Side::Kingside => File::F,
    };
    let rook_destin = StandardCoordinate::new(Rank::base_rank(active), rook_destin_file);
    let king_destin_file: File = match side {
        Side::Queenside => File::C,
        Side::Kingside => File::G,
    };
    let king_destin = StandardCoordinate::new(Rank::base_rank(active), king_destin_file);
    let king_origin = StandardCoordinate::new(Rank::base_rank(active), File::E);
    clear_tile(state, rook_destin);
    clear_tile(state, king_destin);
    fill_tile(state, rook_origin, Piece::new(active, Species::Rook));
    fill_tile(state, king_origin, Piece::new(active, Species::King));
    state.has_castled.set(active, false);
    proof {
        assert(state.bbs.coherent(state.p_lut@));
    }
}

/// Takes the last move back: the turn returns to the mover, rights and
/// clock are restored from the record, and the tiles are put back.
pub fn unmake_move(state: &mut ChessGame)
    requires
        old(state).coherent(),
        undoable(old(state).abs()),
    ensures
        unmade(*old(state), *final(state)),
{
    let ghost pre = *state;
    let ghost p = state.abs();
    let ghost chs = state.hash.chs;
    let ep0: Option<File> = is_enpassant_vuln(state);
    state.hash.toggle_ep_vuln(ep0);
    let last_entry: MovelogEntry = state.movelog.pop().unwrap();
    proof {
        assert(last_entry == p.log.last());
        assert(p.log[p.log.len() - 1].wf());
        assert(state.movelog@ =~= p.log.drop_last());
        assert(log_ok(state.movelog@)) by {
            assert forall|i: int| 0 <= i < state.movelog@.len() implies (#[trigger] state.movelog@[i]).wf() by {
                assert(state.movelog@[i] == p.log[i]);
            }
        }
    }
    state.hash.toggle_crights(state.crights);
    state.hash.toggle_crights(last_entry.prev_crights);
    state.crights = last_entry.prev_crights;
    state.halfmoveclock = last_entry.prev_halfmoveclock;
    swap_active(state);
    let ghost h4 = state.hash.value;
    match last_entry.lmove {
        LoggedMove::Castle(side) => unmake_castle(state, side),
        LoggedMove::Piece(pmove) => unmake_pmove(state, pmove),
    }
    let ghost h5 = state.hash.value;
    let ep1: Option<File> = is_enpassant_vuln(state);
    state.hash.toggle_ep_vuln(ep1);
    proof {
        let q = state.abs();
        assert(q.castled =~= spec_unmake(p).castled);
        assert(q == spec_unmake(p));
        let t0 = tiles_hash(chs, p.grid, 64);
        let t1 = tiles_hash(chs, q.grid, 64);
        lemma_hash_after_unmake(
            pre.hash.value,
            h4,
            h5,
            state.hash.value,
            t0,
            t1,
            chs.crights[p.crights.data as int],
            chs.crights[q.crights.data as int],
            chs.ep_vuln[ep_key(ep0)],
            chs.ep_vuln[ep_key(ep1)],
            active_const(chs, p.active),
            active_const(chs, q.active),
            chs.active,
        );
    }
}

/// Making a move that can be applied and then taking it back restores the
/// state in every part: piece grid, all bitboards, castling rights, clock,
/// move log, castled flags and fingerprint.
pub proof fn lemma_make_unmake_inverse(pre: ChessGame, mid: ChessGame, post: ChessGame, mov: AnyMove)
    requires
        pre.coherent(),
        applicable(pre.abs(), mov),
        made(pre, mov, mid),
        unmade(mid, post),
    ensures
        same_position(post, pre),
{
    assert(pre.abs().wf());
    lemma_unmake_make(pre.abs(), mov);
    lemma_position_determines_state(post, pre);
}

/// The incremental fingerprint of a coherent state is the fingerprint
/// computed by a full fold over the position: the XOR of the constants of
/// every occupied tile, of the rights word, of the en-passant file, and of
/// the side to move.
pub proof fn lemma_incremental_hash_is_fold(state: ChessGame)
    requires
        state.coherent(),
    ensures
        state.hash.value == position_hash(state.hash.chs, state.abs()),
{
}

/// Whether a piece move is safe for the mover's king: the move is made,
/// the king is looked at, and the move is taken back. The state is left as
/// it was found.
pub fn test_pmove_legality(state: &mut ChessGame, pmove: PieceMove) -> (is_legal: bool)
    requires
        old(state).coherent(),
        old(state).abs().playable(),
        pmove_applicable(old(state).abs(), pmove),
    ensures
        is_legal == pmove_safe(old(state).abs(), pmove),
        same_position(*final(state), *old(state)),
{
    let ghost pre = *state;
    let ghost p = state.abs();
    proof {
        lemma_make_keeps_playable(p, AnyMove::Piece(pmove));
        lemma_unmake_make(p, AnyMove::Piece(pmove));
    }
    make_pmove(state, pmove);
    proof {
        crate::gamestate::lemma_king_on(state.bbs, state.p_lut@, state.bbs.active_player);
    }
    let is_legal: bool = !state.bbs.is_check();
    assert(state.bbs.coherent(state.p_lut@));
    let ghost mid = state.abs();
    let ml_entry: MovelogEntry = state.movelog.pop().unwrap();
    state.halfmoveclock = ml_entry.prev_halfmoveclock;
    state.crights = ml_entry.prev_crights;
    proof {
        assert(ml_entry == pmove_record(p, pmove));
        assert(state.movelog@ =~= p.log);
        assert(log_ok(state.movelog@));
    }
    match ml_entry.lmove {
        LoggedMove::Piece(lpm) => {
            unmake_pmove(state, lpm);
        },
        LoggedMove::Castle(_) => {},
    }
    proof {
        let q = spec_make(p, AnyMove::Piece(pmove));
        assert(q.grid == mid.grid);
        assert(spec_unmake(q).grid == p.grid);
        assert(state.p_lut@ == p.grid);
        assert(state.abs().castled =~= p.castled);
        assert(state.abs() == p);
        lemma_xor_algebra(state.hash.value, pre.hash.value, tiles_hash(pre.hash.chs, p.grid, 64), 0);
        lemma_position_determines_state(*state, pre);
    }
    is_legal
}

/// A state that agrees in every part with a coherent state is coherent
/// and holds the same position.
pub proof fn lemma_same_position_valid(a: ChessGame, b: ChessGame)
    requires
        a.coherent(),
        same_position(b, a),
    ensures
        b.coherent(),
        b.abs() == a.abs(),
{
    assert(b.abs().log == a.abs().log);
}

/// Where a state agrees in every part with what `make_move` left, taking
/// the move back gives the state from before the move.
pub proof fn lemma_unmade_after_made(pre: ChessGame, mid: ChessGame, post: ChessGame, mov: AnyMove)
    requires
        pre.coherent(),
        applicable(pre.abs(), mov),
        exists|made_state: ChessGame| made(pre, mov, made_state) && same_position(mid, made_state),
        unmade(mid, post),
    ensures
        same_position(post, pre),
{
    let made_state = choose|made_state: ChessGame| made(pre, mov, made_state) && same_position(mid, made_state);
    lemma_same_position_valid(made_state, mid);
    lemma_make_unmake_inverse(pre, mid, post, mov);
}

/// Looks at the position behind a move: the move is made, `inspection`
/// is shown the state, and the move is taken back. The state is left as
/// it was found.
pub fn inspect_move<R, F: Fn(&ChessGame) -> R>(state: &mut ChessGame, mov: AnyMove, inspection: F) -> (result: R)
    requires
        old(state).coherent(),
        applicable(old(state).abs(), mov),
        forall|g: ChessGame| made(*old(state), mov, g) ==> call_requires(inspection, (&g,)),
    ensures
        same_position(*final(state), *old(state)),
        exists|g: ChessGame| made(*old(state), mov, g) && call_ensures(inspection, (&g,), result),
{
    let ghost pre = *state;
    make_move(state, mov);
    let ghost mid = *state;
    let result = inspection(state);
    unmake_move(state);
    proof {
        lemma_make_unmake_inverse(pre, mid, *state, mov);
    }
    result
}

} // verus!
