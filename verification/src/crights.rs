//! The castling-rights word: one bit per color and wing.

use vstd::prelude::*;
use crate::bits::{bit8_at, get_bit8, lemma_bit8_set};
use crate::gamestate::{castle_pieces_home, king_home, ChessGame};
use crate::grid::{File, Rank, Side, StandardCoordinate};
use crate::piece::{Color, Piece, Species};
use crate::rules::{kept_rights, lemma_kept_rights};

verus! {

/// The bit that stands for a color's right to castle on a wing: Queenside 0
/// and Kingside 1 for White, 2 and 3 for Black.
pub open spec fn right_bit(side: Side, color: Color) -> int {
    2 * color.spec_index() + side.spec_index()
}

/// Which side may still castle on which wing, one bit each.
#[derive(Clone, Copy, PartialEq, Eq, Debug, Structural)]
pub struct CastlingRights {
    pub data: u8,
}

impl CastlingRights {
    /// Only the four low bits are in use.
    pub open spec fn wf(self) -> bool {
        self.data < 16
    }

    /// The color still has the right to castle on the wing.
    pub open spec fn has(self, side: Side, color: Color) -> bool {
        bit8_at(self.data, right_bit(side, color))
    }

    /// Every right of `self` is also a right of `other`.
    pub open spec fn within(self, other: CastlingRights) -> bool {
        forall|side: Side, color: Color| #[trigger] self.has(side, color) ==> other.has(side, color)
    }

    pub fn get(self, side: Side, color: Color) -> (b: bool)
        ensures
            b == self.has(side, color),
    {
        let index: u8 = 2 * color.index() + side.index();
        get_bit8(self.data, index)
    }

    pub fn set(&mut self, side: Side, color: Color, value: bool)
        requires
            old(self).wf(),
        ensures
            final(self).wf(),
            final(self).has(side, color) == value,
            forall|s: Side, c: Color| (s != side || c != color) ==> final(self).has(s, c) == old(self).has(s, c),
    {
        let index: u8 = 2 * color.index() + side.index();
        let before: u8 = self.data;
        let cleared: u8 = before & !(1u8 << index);
        let after: u8 = if value {
            cleared | (1u8 << index)
        } else {
            cleared
        };
        proof {
            assert forall|j: int| 0 <= j < 8 implies bit8_at(after, j) == (if j == index {
                value
            } else {
                bit8_at(before, j)
            }) by {
                lemma_bit8_set(before, index as int, j);
                lemma_bit8_set(cleared, index as int, j);
            }
            lemma_low_nibble(before, after);
            assert forall|s: Side, c: Color| (s != side || c != color) implies bit8_at(after, right_bit(s, c))
                == bit8_at(before, right_bit(s, c)) by {
            }
        }
        self.data = after;
    }

    /// Takes both rights away from a color.
    pub fn revoke(&mut self, color: Color)
        requires
            old(self).wf(),
        ensures
            final(self).wf(),
            forall|s: Side| !final(self).has(s, color),
            forall|s: Side| final(self).has(s, color.spec_oppo()) == old(self).has(s, color.spec_oppo()),
    {
        self.set(Side::Queenside, color, false);
        self.set(Side::Kingside, color, false);
    }

    pub fn data(self) -> (d: u8)
        ensures
            d == self.data,
    {
        self.data
    }

    /// The rights at the start of a game: all four.
    pub fn initial() -> (r: CastlingRights)
        ensures
            r.data == 15,
            r.wf(),
            forall|s: Side, c: Color| r.has(s, c),
    {
        proof {
            assert forall|j: int| 0 <= j < 4 implies bit8_at(15u8, j) by {
                let k = j as u8;
                assert(k < 4 ==> (15u8 >> k) & 1 == 1) by (bit_vector);
            }
        }
        CastlingRights { data: 0b1111 }
    }

    /// No rights at all.
    pub fn none() -> (r: CastlingRights)
        ensures
            r.data == 0,
            r.wf(),
            forall|s: Side, c: Color| !r.has(s, c),
    {
        proof {
            assert forall|j: int| !bit8_at(0u8, j) by {
                crate::bits::lemma_bit_zero(j);
            }
        }
        CastlingRights { data: 0 }
    }
}

/// A byte whose high four bits are clear stays so when only low bits
/// change.
proof fn lemma_low_nibble(before: u8, after: u8)
    requires
        before < 16,
        forall|j: int| 4 <= j < 8 ==> bit8_at(after, j) == bit8_at(before, j),
    ensures
        after < 16,
{
    assert(bit8_at(after, 4) == bit8_at(before, 4));
    assert(bit8_at(after, 5) == bit8_at(before, 5));
    assert(bit8_at(after, 6) == bit8_at(before, 6));
    assert(bit8_at(after, 7) == bit8_at(before, 7));
    assert(before < 16 && ((after >> 4u8) & 1 == 1) == ((before >> 4u8) & 1 == 1) && ((after >> 5u8)
        & 1 == 1) == ((before >> 5u8) & 1 == 1) && ((after >> 6u8) & 1 == 1) == ((before >> 6u8) & 1
        == 1) && ((after >> 7u8) & 1 == 1) == ((before >> 7u8) & 1 == 1) ==> after < 16)
        by (bit_vector);
}

/// Two well-formed rights words with the same four rights are the same
/// word.
pub proof fn lemma_crights_ext(a: CastlingRights, b: CastlingRights)
    requires
        a.wf(),
        b.wf(),
        forall|s: Side, c: Color| a.has(s, c) == b.has(s, c),
    ensures
        a == b,
{
    assert(a.has(Side::Queenside, Color::White) == b.has(Side::Queenside, Color::White));
    assert(a.has(Side::Kingside, Color::White) == b.has(Side::Kingside, Color::White));
    assert(a.has(Side::Queenside, Color::Black) == b.has(Side::Queenside, Color::Black));
    assert(a.has(Side::Kingside, Color::Black) == b.has(Side::Kingside, Color::Black));
    let x = a.data;
    let y = b.data;
    assert(x < 16 && y < 16 && ((x >> 0u8) & 1 == 1) == ((y >> 0u8) & 1 == 1) && ((x >> 1u8) & 1
        == 1) == ((y >> 1u8) & 1 == 1) && ((x >> 2u8) & 1 == 1) == ((y >> 2u8) & 1 == 1) && ((x
        >> 3u8) & 1 == 1) == ((y >> 3u8) & 1 == 1) ==> x == y) by (bit_vector);
}

/// Recomputes all four rights against the grid: a right is kept when it
/// was there and king and rook of its wing still stand at home.
pub fn update_crights_all(state: &mut ChessGame)
    requires
        old(state).boards_ok(),
    ensures
        final(state).crights == kept_rights(old(state).crights, old(state).p_lut@),
        final(state).bbs == old(state).bbs,
        final(state).p_lut == old(state).p_lut,
        final(state).movelog == old(state).movelog,
        final(state).halfmoveclock == old(state).halfmoveclock,
        final(state).hash == old(state).hash,
        final(state).has_castled == old(state).has_castled,
        final(state).boards_ok(),
{
    let ghost before = state.crights;
    update_crights_spec(state, Side::Queenside, Color::White);
    update_crights_spec(state, Side::Kingside, Color::White);
    update_crights_spec(state, Side::Queenside, Color::Black);
    update_crights_spec(state, Side::Kingside, Color::Black);
    proof {
        lemma_kept_rights(before, state.p_lut@);
        lemma_crights_ext(state.crights, kept_rights(before, state.p_lut@));
    }
}

/// Recomputes one right against the grid.
pub fn update_crights_spec(state: &mut ChessGame, side: Side, player: Color)
    requires
        old(state).boards_ok(),
    ensures
        final(state).crights.wf(),
        final(state).crights.has(side, player) == (old(state).crights.has(side, player) && castle_pieces_home(
            old(state).p_lut@,
            side,
            player,
        )),
        forall|s: Side, c: Color|
            (s != side || c != player) ==> final(state).crights.has(s, c) == old(state).crights.has(s, c),
        final(state).bbs == old(state).bbs,
        final(state).p_lut == old(state).p_lut,
        final(state).movelog == old(state).movelog,
        final(state).halfmoveclock == old(state).halfmoveclock,
        final(state).hash == old(state).hash,
        final(state).has_castled == old(state).has_castled,
        final(state).boards_ok(),
{
    let mut value: bool = state.crights.get(side, player);
    value = value && is_king_intact(state, player);
    let rook_file: File = match side {
        Side::Queenside => File::A,
        Side::Kingside => File::H,
    };
    let rook_home_sq = StandardCoordinate::new(Rank::base_rank(player), rook_file);
    let occupant: Option<Piece> = state.p_lut.get(rook_home_sq);
    let is_rook_intact: bool = match occupant {
        Some(p) => p.color() == player && p.species() == Species::Rook,
        None => false,
    };
    value = value && is_rook_intact;
    state.crights.set(side, player, value);
}

/// Whether a color's king stands on its starting tile.
pub fn is_king_intact(state: &ChessGame, player: Color) -> (intact: bool)
    requires
        state.boards_ok(),
    ensures
        intact == (state.p_lut@[king_home(player)] == Some(Piece { color: player, species: Species::King })),
{
    let base_rank = Rank::base_rank(player);
    let king_home_sq = StandardCoordinate::new(base_rank, File::E);
    match state.p_lut.get(king_home_sq) {
        Some(p) => p.color() == player && p.species() == Species::King,
        None => false,
    }
}

} // verus!
