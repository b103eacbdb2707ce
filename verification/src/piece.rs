//! Colors, species, pieces, the packed piece grid, and small tables keyed
//! by color or species.

use vstd::prelude::*;
use crate::grid::StandardCoordinate;

verus! {

/// The six kinds of piece.
#[derive(Clone, Copy, PartialEq, Eq, Debug, Structural)]
pub enum Species {
    Pawn,
    Rook,
    Knight,
    Bishop,
    Queen,
    King,
}

impl Species {
    pub const COUNT: usize = 6;

    pub open spec fn spec_index(self) -> int {
        match self {
            Species::Pawn => 0,
            Species::Rook => 1,
            Species::Knight => 2,
            Species::Bishop => 3,
            Species::Queen => 4,
            Species::King => 5,
        }
    }

    pub open spec fn spec_from_index(index: int) -> Species {
        if index == 0 {
            Species::Pawn
        } else if index == 1 {
            Species::Rook
        } else if index == 2 {
            Species::Knight
        } else if index == 3 {
            Species::Bishop
        } else if index == 4 {
            Species::Queen
        } else {
            Species::King
        }
    }

    /// The position of the species in a species-keyed table.
    pub fn index(self) -> (i: u8)
        ensures
            i == self.spec_index(),
            i < 6,
    {
        match self {
            Species::Pawn => 0,
            Species::Rook => 1,
            Species::Knight => 2,
            Species::Bishop => 3,
            Species::Queen => 4,
            Species::King => 5,
        }
    }

    pub fn from_index(index: u8) -> (s: Species)
        requires
            index < 6,
        ensures
            s == Self::spec_from_index(index as int),
            s.spec_index() == index,
    {
        if index == 0 {
            Species::Pawn
        } else if index == 1 {
            Species::Rook
        } else if index == 2 {
            Species::Knight
        } else if index == 3 {
            Species::Bishop
        } else if index == 4 {
            Species::Queen
        } else {
            Species::King
        }
    }
}

/// The two sides.
#[derive(Clone, Copy, PartialEq, Eq, Debug, Structural)]
pub enum Color {
    White,
    Black,
}

impl Color {
    pub const COUNT: usize = 2;

    pub open spec fn spec_index(self) -> int {
        match self {
            Color::White => 0,
            Color::Black => 1,
        }
    }

    pub open spec fn spec_oppo(self) -> Color {
        match self {
            Color::White => Color::Black,
            Color::Black => Color::White,
        }
    }

    /// White is 0, Black is 1.
    pub fn index(self) -> (i: u8)
        ensures
            i == self.spec_index(),
            i < 2,
    {
        match self {
            Color::White => 0,
            Color::Black => 1,
        }
    }

    pub fn from_index(index: u8) -> (c: Color)
        requires
            index < 2,
        ensures
            c.spec_index() == index,
    {
        if index == 0 {
            Color::White
        } else {
            Color::Black
        }
    }

    /// The other color.
    pub fn oppo(self) -> (c: Color)
        ensures
            c == self.spec_oppo(),
    {
        let index: u8 = (self.index() + 1) % 2;
        Self::from_index(index)
    }

    /// White is 1, Black is -1: the direction in which the color's pawns
    /// advance through the ranks.
    pub fn sign(self) -> (s: i8)
        ensures
            s == if self == Color::White { 1i8 } else { -1i8 },
    {
        match self {
            Color::White => 1,
            Color::Black => -1,
        }
    }

    pub fn swap(&mut self)
        ensures
            *final(self) == old(self).spec_oppo(),
    {
        *self = self.oppo();
    }

    /// The color's name.
    pub fn name(self) -> (s: &'static str)
        ensures
            s@ == if self == Color::White { "White"@ } else { "Black"@ },
    {
        match self {
            Color::White => "White",
            Color::Black => "Black",
        }
    }
}

/// A piece: a species of a color.
#[derive(Clone, Copy, PartialEq, Eq, Debug, Structural)]
pub struct Piece {
    pub color: Color,
    pub species: Species,
}

impl Piece {
    pub open spec fn spec_index(self) -> int {
        6 * self.color.spec_index() + self.species.spec_index()
    }

    pub fn new(color: Color, species: Species) -> (p: Piece)
        ensures
            p == (Piece { color, species }),
    {
        Piece { color, species }
    }

    pub fn color(self) -> (c: Color)
        ensures
            c == self.color,
    {
        self.color
    }

    pub fn species(self) -> (s: Species)
        ensures
            s == self.species,
    {
        self.species
    }

    pub fn set_species(&mut self, species: Species)
        ensures
            *final(self) == (Piece { color: old(self).color, species }),
    {
        *self = Piece::new(self.color(), species);
    }

    /// The piece's class number: six per color, White first, in species
    /// order.
    pub fn index(self) -> (i: u8)
        ensures
            i == self.spec_index(),
            i < 12,
    {
        6 * self.color.index() + self.species.index()
    }
}

/// The four-bit code a tile's content is stored under: 0 for an empty tile,
/// else one more than the piece's class number.
pub open spec fn piece_code(content: Option<Piece>) -> u8 {
    match content {
        None => 0,
        Some(p) => (p.spec_index() + 1) as u8,
    }
}

/// The content that a four-bit code stands for.
pub open spec fn piece_of_code(code: u8) -> Option<Piece> {
    if code == 0 {
        None
    } else {
        Some(
            Piece {
                color: if code <= 6 {
                    Color::White
                } else {
                    Color::Black
                },
                species: Species::spec_from_index((code - 1) % 6),
            },
        )
    }
}

/// One half of a byte: the low four bits for `half == 0`, the high four for
/// `half == 1`.
pub open spec fn nibble(byte: u8, half: int) -> u8 {
    if half == 0 {
        byte & 15
    } else {
        (byte >> 4) & 15
    }
}

/// Every content has a code of at most 12, and the code stands for it.
pub proof fn lemma_code_roundtrip(content: Option<Piece>)
    ensures
        piece_code(content) <= 12,
        piece_of_code(piece_code(content)) == content,
{
}

/// Every code of at most 12 is the code of what it stands for.
pub proof fn lemma_code_roundtrip_rev(code: u8)
    requires
        code <= 12,
    ensures
        piece_code(piece_of_code(code)) == code,
{
}

/// The board as a grid of tiles, four bits per tile, two tiles per byte.
#[derive(Clone, Copy, PartialEq, Eq, Debug)]
pub struct PieceGrid {
    pub data: [u8; 32],
}

impl PieceGrid {
    /// The code stored for tile `s`.
    pub open spec fn code_at(&self, s: int) -> u8 {
        nibble(self.data[s / 2], s % 2)
    }

    /// Every stored code stands for a piece or for an empty tile.
    pub open spec fn wf(&self) -> bool {
        forall|s: int| 0 <= s < 64 ==> #[trigger] self.code_at(s) <= 12
    }

    /// The content of tile `s`.
    pub open spec fn at(&self, s: int) -> Option<Piece> {
        piece_of_code(self.code_at(s))
    }

    /// The content of all 64 tiles, by tile index.
    pub open spec fn view(&self) -> Seq<Option<Piece>> {
        Seq::new(64, |s: int| self.at(s))
    }

    pub fn set(&mut self, pos: StandardCoordinate, piece: Option<Piece>)
        requires
            pos.wf(),
            old(self).wf(),
        ensures
            final(self).wf(),
            final(self)@ == old(self)@.update(pos.index as int, piece),
    {
        let code: u8 = match piece {
            None => 0,
            Some(p) => p.index() + 1,
        };
        let lut_index: usize = (pos.index() / 2) as usize;
        let half: u8 = pos.index() % 2;
        let byte_offset: u8 = half * 4;
        let before: u8 = self.data[lut_index];
        let after: u8 = (before & !(0b1111u8 << byte_offset)) | (code << byte_offset);
        proof {
            assert((byte_offset == 0 || byte_offset == 4) && code <= 12 && after == (before & !(
            0b1111u8 << byte_offset)) | (code << byte_offset) ==> (byte_offset == 0 ==> after & 15
                == code && (after >> 4) & 15 == (before >> 4) & 15) && (byte_offset == 4 ==> (after
                >> 4) & 15 == code && after & 15 == before & 15)) by (bit_vector);
            lemma_code_roundtrip(piece);
        }
        let ghost old_self = *self;
        self.data[lut_index] = after;
        proof {
            assert forall|s: int| 0 <= s < 64 implies #[trigger] self.code_at(s) == (if s
                == pos.index {
                code
            } else {
                old_self.code_at(s)
            }) by {
                if s / 2 == lut_index as int {
                } else {
                }
            }
            assert(self@ =~= old_self@.update(pos.index as int, piece));
        }
    }

    pub fn get(&self, pos: StandardCoordinate) -> (content: Option<Piece>)
        requires
            pos.wf(),
            self.wf(),
        ensures
            content == self@[pos.index as int],
    {
        let lut_index: usize = (pos.index() / 2) as usize;
        let byte_offset: u8 = (pos.index() % 2) * 4;
        let byte: u8 = self.data[lut_index];
        let code: u8 = (byte >> byte_offset) & 0b1111;
        proof {
            assert(byte_offset == 0 ==> (byte >> byte_offset) & 0b1111 == byte & 15) by (bit_vector);
            assert(code == self.code_at(pos.index as int));
        }
        if code == 0 {
            None
        } else {
            let color: Color = if code <= 6 {
                Color::White
            } else {
                Color::Black
            };
            Some(Piece::new(color, Species::from_index((code - 1) % 6)))
        }
    }

    /// A grid with every tile empty.
    pub fn empty() -> (g: PieceGrid)
        ensures
            g.wf(),
            forall|s: int| 0 <= s < 64 ==> g@[s] is None,
    {
        let g = PieceGrid { data: [0u8; 32] };
        proof {
            assert(0u8 & 15 == 0 && (0u8 >> 4) & 15 == 0) by (bit_vector);
            assert forall|s: int| 0 <= s < 64 implies #[trigger] g.code_at(s) == 0 by {
                assert(g.data[s / 2] == 0);
            }
        }
        g
    }
}

/// Two well-formed grids with the same content are the same bytes.
pub proof fn lemma_grid_ext(a: PieceGrid, b: PieceGrid)
    requires
        a.wf(),
        b.wf(),
        a@ == b@,
    ensures
        a == b,
{
    assert forall|i: int| 0 <= i < 32 implies a.data[i] == b.data[i] by {
        let x = a.data[i];
        let y = b.data[i];
        assert(a.code_at(2 * i) <= 12 && a.code_at(2 * i + 1) <= 12);
        assert(b.code_at(2 * i) <= 12 && b.code_at(2 * i + 1) <= 12);
        assert(a@[2 * i] == b@[2 * i] && a@[2 * i + 1] == b@[2 * i + 1]);
        lemma_code_roundtrip_rev(a.code_at(2 * i));
        lemma_code_roundtrip_rev(a.code_at(2 * i + 1));
        lemma_code_roundtrip_rev(b.code_at(2 * i));
        lemma_code_roundtrip_rev(b.code_at(2 * i + 1));
        assert(x & 15 == y & 15 && (x >> 4) & 15 == (y >> 4) & 15 ==> x == y) by (bit_vector);
    }
    assert(a.data =~= b.data);
}

/// A value for each color.
#[derive(Clone, Copy, PartialEq, Eq, Debug)]
pub struct ColorTable<T> {
    pub array: [T; 2],
}

impl<T> ColorTable<T> {
    pub open spec fn spec_get(&self, key: Color) -> T {
        self.array[key.spec_index()]
    }

    pub fn from_array(array: [T; 2]) -> (t: Self)
        ensures
            t.array == array,
    {
        Self { array }
    }

    pub fn get(&self, key: Color) -> (value: &T)
        ensures
            *value == self.spec_get(key),
    {
        &self.array[key.index() as usize]
    }

    pub fn set(&mut self, key: Color, value: T)
        ensures
            final(self).spec_get(key) == value,
            final(self).spec_get(key.spec_oppo()) == old(self).spec_get(key.spec_oppo()),
            final(self).array@ == old(self).array@.update(key.spec_index(), value),
    {
        self.array[key.index() as usize] = value;
    }
}

/// A value for each species.
#[derive(Clone, Copy, PartialEq, Eq, Debug)]
pub struct SpeciesTable<T> {
    pub array: [T; 6],
}

impl<T> SpeciesTable<T> {
    pub open spec fn spec_get(&self, key: Species) -> T {
        self.array[key.spec_index()]
    }

    pub fn from_array(array: [T; 6]) -> (t: Self)
        ensures
            t.array == array,
    {
        Self { array }
    }

    pub fn get(&self, key: Species) -> (value: &T)
        ensures
            *value == self.spec_get(key),
    {
        &self.array[key.index() as usize]
    }

    pub fn set(&mut self, key: Species, value: T)
        ensures
            final(self).spec_get(key) == value,
            forall|other: Species| other != key ==> final(self).spec_get(other) == old(self).spec_get(other),
            final(self).array@ == old(self).array@.update(key.spec_index(), value),
    {
        self.array[key.index() as usize] = value;
    }
}

} // verus!
