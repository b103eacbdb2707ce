//! Whether the last move opened a capture en passant.

use vstd::prelude::*;
use crate::bits::{bit_at, lemma_bit_logic, lemma_zero_iff_no_bits};
use crate::gamestate::{ep_file, holds_color, holds_species, ChessGame, LoggedMove};
use crate::grid::{file_of, File};
use crate::movegen::pawn::{attacks_up, reverse_pawn_attack};
use crate::piece::{Piece, Species};
use crate::rmrel::{lemma_rel_involution, rel_index, relativize};

verus! {

/// The file on which the side to move can capture en passant, if the last
/// move was a pawn's double jump and a pawn of the side to move stands
/// beside the pawn that jumped.
pub fn is_enpassant_vuln(state: &ChessGame) -> (file: Option<File>)
    requires
        state.boards_ok(),
    ensures
        file == ep_file(state.abs()),
{
    let n: usize = state.movelog.len();
    if n == 0 {
        return None;
    }
    let last_entry = state.movelog[n - 1];
    assert(last_entry == state.abs().log.last());
    assert(state.abs().log[n - 1].wf());
    match last_entry.lmove {
        LoggedMove::Castle(_) => None,
        LoggedMove::Piece(pmove) => {
            if !pmove.is_pdj {
                return None;
            }
            let active = state.active_player();
            let target_rmrel: u8 = relativize(pmove.mgmove.destin, active);
            proof {
                lemma_rel_involution(pmove.mgmove.destin.index as int, active);
            }
            let attack: u64 = reverse_pawn_attack(target_rmrel + 8);
            let own: u64 = *state.bbs.affilia_rel_bbs.get(active);
            let pawns: u64 = state.bbs.pawn_rel_bb;
            let bb: u64 = attack & own & pawns;
            proof {
                let d = pmove.mgmove.destin.index as int;
                let r = target_rmrel as int;
                let grid = state.p_lut@;
                let own_pawn = Some(Piece { color: active, species: Species::Pawn });
                lemma_zero_iff_no_bits(bb);
                assert forall|j: int| 0 <= j < 64 implies bit_at(bb, j) == (attacks_up(j, r + 8)
                    && grid[rel_index(j, active)] == own_pawn) by {
                    lemma_bit_logic(attack & own, pawns, j);
                    lemma_bit_logic(attack, own, j);
                    let s = rel_index(j, active);
                    lemma_rel_involution(j, active);
                    assert(state.bbs.rel_color_has(active, s) == holds_color(grid[s], active));
                    assert(state.bbs.rel_pawn_has(s) == holds_species(grid[s], Species::Pawn));
                }
                if file_of(d) > 0 {
                    lemma_rel_involution(d - 1, active);
                    assert(rel_index(r - 1, active) == d - 1);
                    assert(attacks_up(r - 1, r + 8));
                }
                if file_of(d) < 7 {
                    lemma_rel_involution(d + 1, active);
                    assert(rel_index(r + 1, active) == d + 1);
                    assert(attacks_up(r + 1, r + 8));
                }
                if bb != 0 {
                    let j = choose|j: int| 0 <= j < 64 && bit_at(bb, j);
                    assert(j == r - 1 || j == r + 1);
                } else {
                    if file_of(d) > 0 {
                        assert(!bit_at(bb, r - 1));
                    }
                    if file_of(d) < 7 {
                        assert(!bit_at(bb, r + 1));
                    }
                }
            }
            if bb != 0 {
                Some(pmove.mgmove.destin.file())
            } else {
                None
            }
        },
    }
}

} // verus!
