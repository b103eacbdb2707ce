//! Counting how often the position on the board has occurred before.

use vstd::prelude::*;
use crate::crights::CastlingRights;
use crate::gamestate::{holds_species, ChessGame, LoggedMove, LoggedPieceMove, MovelogEntry};
use crate::piece::{lemma_grid_ext, Color, Piece, PieceGrid, Species};

verus! {

/// The grid with a logged piece move that captured nothing taken back:
/// the piece on the destination returns to the origin, a pawn again if it
/// was promoted.
pub open spec fn scratch_unmade(grid: Seq<Option<Piece>>, pm: LoggedPieceMove) -> Seq<Option<Piece>> {
    let found = grid[pm.mgmove.destin.index as int]->Some_0;
    let piece = if pm.mgmove.promote is Some {
        Piece { color: found.color, species: Species::Pawn }
    } else {
        found
    };
    grid.update(pm.mgmove.destin.index as int, None).update(pm.target.index as int, None).update(
        pm.mgmove.origin.index as int,
        Some(piece),
    )
}

/// The number of earlier positions, among those the first `i` records of
/// the log lead back to, that are the current position with the same side
/// to move. The walk goes back from the latest record and ends at the
/// first record that changed the castling rights, castled, captured, or
/// moved a pawn: nothing before such a move can be the current position.
pub open spec fn spec_count_back(
    grid: Seq<Option<Piece>>,
    active: Color,
    crights: CastlingRights,
    log: Seq<MovelogEntry>,
    i: int,
    scratch: Seq<Option<Piece>>,
    scratch_active: Color,
) -> nat
    decreases i,
{
    if i <= 0 || i > log.len() {
        0
    } else if log[i - 1].prev_crights != crights {
        0
    } else {
        match log[i - 1].lmove {
            LoggedMove::Castle(_) => 0,
            LoggedMove::Piece(pm) => {
                if pm.capture is Some || scratch[pm.mgmove.destin.index as int] is None {
                    0
                } else {
                    let past = scratch_unmade(scratch, pm);
                    let past_active = scratch_active.spec_oppo();
                    if holds_species(past[pm.mgmove.origin.index as int], Species::Pawn) {
                        0
                    } else {
                        (if past == grid && past_active == active {
                            1nat
                        } else {
                            0nat
                        }) + spec_count_back(grid, active, crights, log, i - 1, past, past_active)
                    }
                }
            },
        }
    }
}

/// The number of earlier occurrences of the position.
pub open spec fn spec_count_repetitions(p: crate::gamestate::Position) -> nat {
    spec_count_back(p.grid, p.active, p.crights, p.log, p.log.len() as int, p.grid, p.active)
}

proof fn lemma_count_back_bound(
    grid: Seq<Option<Piece>>,
    active: Color,
    crights: CastlingRights,
    log: Seq<MovelogEntry>,
    i: int,
    scratch: Seq<Option<Piece>>,
    scratch_active: Color,
)
    ensures
        spec_count_back(grid, active, crights, log, i, scratch, scratch_active) <= (if i > 0 { i } else { 0 }),
    decreases i,
{
    if 0 < i <= log.len() && log[i - 1].prev_crights == crights {
        match log[i - 1].lmove {
            LoggedMove::Castle(_) => {},
            LoggedMove::Piece(pm) => {
                if !(pm.capture is Some || scratch[pm.mgmove.destin.index as int] is None) {
                    let past = scratch_unmade(scratch, pm);
                    lemma_count_back_bound(grid, active, crights, log, i - 1, past, scratch_active.spec_oppo());
                }
            },
        }
    }
}

/// Whether two grids hold the same bytes.
pub fn grids_equal(a: &PieceGrid, b: &PieceGrid) -> (same: bool)
    ensures
        same == (a.data@ == b.data@),
        a.wf() && b.wf() ==> same == (a@ == b@),
{
    let mut i: usize = 0;
    while i < 32
        invariant
            i <= 32,
            forall|k: int| 0 <= k < i ==> a.data@[k] == b.data@[k],
        decreases 32 - i,
    {
        if a.data[i] != b.data[i] {
            proof {
                if a.wf() && b.wf() && a@ == b@ {
                    lemma_grid_ext(*a, *b);
                }
            }
            return false;
        }
        i += 1;
    }
    proof {
        assert(a.data@ =~= b.data@);
        assert(a.data =~= b.data);
    }
    true
}

/// Counts the earlier occurrences of the current position, walking the
/// log back on a scratch grid.
pub fn count_repetitions(current: &ChessGame) -> (count: usize)
    requires
        current.boards_ok(),
    ensures
        count == spec_count_repetitions(current.abs()),
{
    let mut past_p_lut: PieceGrid = current.p_lut;
    let mut past_active_player: Color = current.active_player();
    let mut repeat_count: usize = 0;
    let mut i: usize = current.movelog.len();
    let ghost p = current.abs();
    loop
        invariant
            i <= current.movelog@.len(),
            current.movelog@.len() <= usize::MAX,
            current.boards_ok(),
            p == current.abs(),
            past_p_lut.wf(),
            repeat_count + i <= current.movelog@.len(),
            spec_count_repetitions(p) == repeat_count + spec_count_back(
                p.grid,
                p.active,
                p.crights,
                p.log,
                i as int,
                past_p_lut@,
                past_active_player,
            ),
        ensures
            repeat_count == spec_count_repetitions(p),
        decreases i,
    {
        if i == 0 {
            break ;
        }
        let mov: MovelogEntry = current.movelog[i - 1];
        assert(p.log[i - 1].wf());
        if mov.prev_crights != current.crights {
            break ;
        }
        let pmove: LoggedPieceMove = match mov.lmove {
            LoggedMove::Piece(pmove) => pmove,
            LoggedMove::Castle(_) => {
                break ;
            },
        };
        if pmove.capture.is_some() {
            break ;
        }
        let found: Piece = match past_p_lut.get(pmove.mgmove.destin) {
            Some(piece) => piece,
            None => {
                break ;
            },
        };
        let ghost scratch = past_p_lut@;
        unmake_move(&mut past_p_lut, pmove);
        past_active_player.swap();
        let back: Option<Piece> = past_p_lut.get(pmove.mgmove.origin);
        let is_pawn: bool = match back {
            Some(piece) => piece.species() == Species::Pawn,
            None => false,
        };
        if is_pawn {
            break ;
        }
        let luts_eq: bool = grids_equal(&past_p_lut, &current.p_lut);
        let acti_eq: bool = past_active_player == current.active_player();
        proof {
            lemma_count_back_bound(
                p.grid,
                p.active,
                p.crights,
                p.log,
                i - 1,
                past_p_lut@,
                past_active_player,
            );
        }
        if luts_eq && acti_eq {
            repeat_count += 1;
        }
        i -= 1;
    }
    repeat_count
}

/// Takes a logged piece move that captured nothing back on a grid alone.
pub fn unmake_move(grid: &mut PieceGrid, pmove: LoggedPieceMove)
    requires
        old(grid).wf(),
        pmove.mgmove.wf(),
        pmove.target.wf(),
        old(grid)@[pmove.mgmove.destin.index as int] is Some,
        pmove.capture is None,
    ensures
        final(grid).wf(),
        final(grid)@ == scratch_unmade(old(grid)@, pmove),
{
    let mut piece: Piece = grid.get(pmove.mgmove.destin).unwrap();
    if pmove.mgmove.promote.is_some() {
        piece.set_species(Species::Pawn);
    }
    grid.set(pmove.mgmove.destin, None);
    grid.set(pmove.target, None);
    if let Some(capture_piece) = pmove.capture {
        grid.set(pmove.target, Some(capture_piece));
    }
    grid.set(pmove.mgmove.origin, Some(piece));
}

} // verus!
