//! The standard initial position.

use vstd::prelude::*;
use crate::cache::HashChars;
use crate::crights::CastlingRights;
use crate::gamestate::{is_king_tile, ChessGame, Position};
use crate::grid::{file_of, rank_of, File, Rank, StandardCoordinate};
use crate::makemove::fill_tile;
use crate::piece::{Color, Piece, Species};

verus! {

/// The species that starts on file `f` of a first rank.
pub open spec fn std_back_species(f: int) -> Species {
    if f == 0 || f == 7 {
        Species::Rook
    } else if f == 1 || f == 6 {
        Species::Knight
    } else if f == 2 || f == 5 {
        Species::Bishop
    } else if f == 3 {
        Species::Queen
    } else {
        Species::King
    }
}

/// What stands on tile `s` at the start of a game.
pub open spec fn std_content(s: int) -> Option<Piece> {
    let r = rank_of(s);
    let f = file_of(s);
    if r == 0 {
        Some(Piece { color: Color::White, species: std_back_species(f) })
    } else if r == 1 {
        Some(Piece { color: Color::White, species: Species::Pawn })
    } else if r == 6 {
        Some(Piece { color: Color::Black, species: Species::Pawn })
    } else if r == 7 {
        Some(Piece { color: Color::Black, species: std_back_species(f) })
    } else {
        None
    }
}

/// The position at the start of a game: the pieces on ranks 1, 2, 7 and
/// 8, White to move, all four castling rights, the clock at zero, and an
/// empty log.
pub open spec fn std_position() -> Position {
    Position {
        grid: Seq::new(64, |s: int| std_content(s)),
        active: Color::White,
        crights: CastlingRights { data: 15 },
        clock: 0,
        log: Seq::empty(),
        castled: seq![false, false],
    }
}

/// A game at the standard initial position, fingerprinted with constants
/// drawn from a random seed.
pub fn new_std_chess_position() -> (game: ChessGame)
    ensures
        game.valid(),
        game.abs() == std_position(),
{
    std_chess_position(HashChars::new_random())
}

/// A game at the standard initial position, fingerprinted with the given
/// constants.
pub fn std_chess_position(chs: HashChars) -> (state: ChessGame)
    ensures
        state.valid(),
        state.abs() == std_position(),
        state.hash.chs == chs,
{
    let mut state = ChessGame::new(chs);
    let ghost fresh = state;
    state.hash.toggle_crights(state.crights);
    state.crights = CastlingRights::initial();
    state.hash.toggle_crights(state.crights);
    proof {
        let c = state.hash.chs;
        let t = crate::gamestate::tiles_hash(c, state.p_lut@, 64);
        crate::bits::lemma_hash_rights(fresh.hash.value, t, c.crights[0], c.crights[15], c.ep_vuln[0], 0);
        assert(crate::gamestate::ep_file(state.abs()) is None);
        assert(state.hash_ok());
        assert(state.coherent());
    }
    fill_base_rank(&mut state, Color::White);
    fill_base_rank(&mut state, Color::Black);
    let mut i: u8 = 0;
    while i < 8
        invariant
            i <= 8,
            state.coherent(),
            state.movelog@.len() == 0,
            state.bbs.active_player == Color::White,
            state.crights.data == 15,
            state.halfmoveclock == 0,
            state.hash.chs == chs,
            !state.has_castled.spec_get(Color::White) && !state.has_castled.spec_get(Color::Black),
            forall|s: int|
                0 <= s < 64 ==> #[trigger] state.p_lut@[s] == (if (rank_of(s) == 1 || rank_of(s) == 6) && file_of(s)
                    >= i {
                    None
                } else {
                    std_content(s)
                }),
        decreases 8 - i,
    {
        let mut j: u8 = 0;
        while j < 2
            invariant
                i < 8,
                j <= 2,
                state.coherent(),
                state.movelog@.len() == 0,
                state.bbs.active_player == Color::White,
                state.crights.data == 15,
                state.halfmoveclock == 0,
                state.hash.chs == chs,
                !state.has_castled.spec_get(Color::White) && !state.has_castled.spec_get(Color::Black),
                forall|s: int|
                    0 <= s < 64 ==> #[trigger] state.p_lut@[s] == (if (rank_of(s) == 1 && (file_of(s) > i || (file_of(
                        s,
                    ) == i && j < 1))) || (rank_of(s) == 6 && (file_of(s) > i || (file_of(s) == i && j < 2))) {
                        None
                    } else {
                        std_content(s)
                    }),
            decreases 2 - j,
        {
            let color = Color::from_index(j);
            let coord = StandardCoordinate::new(Rank::pawn_rank(color), File::from_index(i));
            let piece = Piece::new(color, Species::Pawn);
            fill_tile(&mut state, coord, piece);
            j += 1;
        }
        i += 1;
    }
    proof {
        assert(state.abs().grid =~= std_position().grid);
        assert(state.abs().castled =~= std_position().castled);
        assert(state.abs().log =~= std_position().log);
        let g = state.abs().grid;
        assert(g[4] == std_content(4));
        assert(g[60] == std_content(60));
        assert(is_king_tile(g, Color::White, 4)) by {
            assert forall|s: int| 0 <= s < 64 && s != 4 implies g[s] != Some(
                Piece { color: Color::White, species: Species::King },
            ) by {
                assert(g[s] == std_content(s));
            }
        }
        assert(is_king_tile(g, Color::Black, 60)) by {
            assert forall|s: int| 0 <= s < 64 && s != 60 implies g[s] != Some(
                Piece { color: Color::Black, species: Species::King },
            ) by {
                assert(g[s] == std_content(s));
            }
        }
        assert(g[0] == std_content(0) && g[7] == std_content(7) && g[56] == std_content(56) && g[63]
            == std_content(63));
        assert(state.abs().castled[0] == false && state.abs().castled[1] == false);
    }
    state
}

/// Puts the eight pieces of a first rank on their starting tiles.
pub fn fill_base_rank(state: &mut ChessGame, color: Color)
    requires
        old(state).coherent(),
        old(state).movelog@.len() == 0,
        forall|s: int| 0 <= s < 64 && rank_of(s) == crate::grid::base_rank_of(color) ==> old(state).p_lut@[s] is None,
    ensures
        final(state).coherent(),
        final(state).movelog == old(state).movelog,
        final(state).bbs.active_player == old(state).bbs.active_player,
        final(state).crights == old(state).crights,
        final(state).halfmoveclock == old(state).halfmoveclock,
        final(state).has_castled == old(state).has_castled,
        final(state).hash.chs == old(state).hash.chs,
        forall|s: int|
            0 <= s < 64 ==> #[trigger] final(state).p_lut@[s] == (if rank_of(s) == crate::grid::base_rank_of(color) {
                Some(Piece { color, species: std_back_species(file_of(s)) })
            } else {
                old(state).p_lut@[s]
            }),
{
    let rank = Rank::base_rank(color);
    fill_tile(state, StandardCoordinate::new(rank, File::A), Piece::new(color, Species::Rook));
    fill_tile(state, StandardCoordinate::new(rank, File::B), Piece::new(color, Species::Knight));
    fill_tile(state, StandardCoordinate::new(rank, File::C), Piece::new(color, Species::Bishop));
    fill_tile(state, StandardCoordinate::new(rank, File::D), Piece::new(color, Species::Queen));
    fill_tile(state, StandardCoordinate::new(rank, File::E), Piece::new(color, Species::King));
    fill_tile(state, StandardCoordinate::new(rank, File::F), Piece::new(color, Species::Bishop));
    fill_tile(state, StandardCoordinate::new(rank, File::G), Piece::new(color, Species::Knight));
    fill_tile(state, StandardCoordinate::new(rank, File::H), Piece::new(color, Species::Rook));
}

} // verus!
