//! Ranks, files, diagonals and the canonical tile coordinate.

use vstd::prelude::*;
use crate::misc::const_min_u8;
use crate::piece::Color;

verus! {

/// The rank of tile `s`: `s / 8`.
pub open spec fn rank_of(s: int) -> int {
    s / 8
}

/// The file of tile `s`: `s % 8`.
pub open spec fn file_of(s: int) -> int {
    s % 8
}

/// The tile on rank `r` and file `f`.
pub open spec fn tile(r: int, f: int) -> int {
    r * 8 + f
}

/// The first rank of a color: 0 for White, 7 for Black.
pub open spec fn base_rank_of(color: Color) -> int {
    match color {
        Color::White => 0,
        Color::Black => 7,
    }
}

/// The rank `offset` steps ahead of a color's first rank, in the direction
/// its pawns move.
pub open spec fn rank_relative_to(color: Color, offset: int) -> int {
    match color {
        Color::White => offset,
        Color::Black => 7 - offset,
    }
}

/// The number of tiles on diagonal `d` (0 to 14) of either family.
pub open spec fn diag_length(d: int) -> int {
    if d <= 7 {
        d + 1
    } else {
        15 - d
    }
}

/// A rank of the board, by its index: 0 for the first rank, 7 for the eighth.
#[derive(Clone, Copy, PartialEq, Eq, Debug, Structural)]
pub struct Rank {
    pub index: u8,
}

impl Rank {
    pub open spec fn wf(self) -> bool {
        self.index < 8
    }

    pub fn from_index(index: u8) -> (r: Rank)
        requires
            index < 8,
        ensures
            r.index == index,
            r.wf(),
    {
        Rank { index }
    }

    pub fn index(self) -> (i: u8)
        ensures
            i == self.index,
    {
        self.index
    }

    /// The rank a color's pieces start on.
    pub fn base_rank(color: Color) -> (r: Rank)
        ensures
            r.index == base_rank_of(color),
            r.wf(),
    {
        Self::from_index(color.index() * 7)
    }

    /// The rank `offset` steps ahead of the color's first rank.
    pub fn relative_to(color: Color, offset: i8) -> (r: Rank)
        requires
            0 <= offset < 8,
        ensures
            r.index == rank_relative_to(color, offset as int),
            r.wf(),
    {
        let base: i8 = Self::base_rank(color).index() as i8;
        let step: i8 = if color.sign() == 1 {
            offset
        } else {
            -offset
        };
        let sindex: i8 = base + step;
        Self::from_index(sindex as u8)
    }

    /// The rank a color's pawns start on.
    pub fn pawn_rank(color: Color) -> (r: Rank)
        ensures
            r.index == rank_relative_to(color, 1),
            r.wf(),
    {
        Self::relative_to(color, 1)
    }

    /// The rank a color's pawn lands on after a double jump.
    pub fn pdj_rank(color: Color) -> (r: Rank)
        ensures
            r.index == rank_relative_to(color, 3),
            r.wf(),
    {
        Self::relative_to(color, 3)
    }
}

/// A file of the board.
#[derive(Clone, Copy, PartialEq, Eq, Debug, Structural)]
pub enum File {
    A,
    B,
    C,
    D,
    E,
    F,
    G,
    H,
}

impl File {
    pub open spec fn spec_index(self) -> int {
        match self {
            File::A => 0,
            File::B => 1,
            File::C => 2,
            File::D => 3,
            File::E => 4,
            File::F => 5,
            File::G => 6,
            File::H => 7,
        }
    }

    pub open spec fn spec_from_index(index: int) -> File {
        if index == 0 {
            File::A
        } else if index == 1 {
            File::B
        } else if index == 2 {
            File::C
        } else if index == 3 {
            File::D
        } else if index == 4 {
            File::E
        } else if index == 5 {
            File::F
        } else if index == 6 {
            File::G
        } else {
            File::H
        }
    }

    pub fn from_index(index: u8) -> (f: File)
        requires
            index < 8,
        ensures
            f == Self::spec_from_index(index as int),
            f.spec_index() == index,
    {
        if index == 0 {
            File::A
        } else if index == 1 {
            File::B
        } else if index == 2 {
            File::C
        } else if index == 3 {
            File::D
        } else if index == 4 {
            File::E
        } else if index == 5 {
            File::F
        } else if index == 6 {
            File::G
        } else {
            File::H
        }
    }

    pub fn index(self) -> (i: u8)
        ensures
            i == self.spec_index(),
            i < 8,
    {
        match self {
            File::A => 0,
            File::B => 1,
            File::C => 2,
            File::D => 3,
            File::E => 4,
            File::F => 5,
            File::G => 6,
            File::H => 7,
        }
    }

    /// The file's letter, `A` to `H`.
    pub fn letter(self) -> (c: char)
        ensures
            c as u32 == 65 + self.spec_index(),
    {
        (65 + self.index()) as char
    }
}

/// Why a text is not a rank.
#[derive(Debug, Clone, Copy, PartialEq, Eq)]
pub enum ParseRankErr {
    /// The text is not a number that fits a byte.
    ParseIntErr,
    /// The number is not between 1 and 8.
    OutOfBounds(u8),
}

/// A text is not a file letter.
#[derive(Debug, Clone, Copy, PartialEq, Eq)]
pub struct ParseFileErr;

/// Why a text is not a tile.
#[derive(Debug, Clone, Copy, PartialEq, Eq)]
pub enum ParseStandardCoordinateError {
    ParseRankErr(ParseRankErr),
    ParseFileErr(ParseFileErr),
    /// The text is not two bytes long.
    BadLen,
}

/// A diagonal that runs up and to the right. Index 0 is the corner tile H1,
/// index 14 the corner tile A8.
#[derive(Clone, Copy, PartialEq, Eq, Debug, Structural)]
pub struct Prodiagonal {
    pub index: u8,
}

/// A diagonal that runs up and to the left. Index 0 is the corner tile A1,
/// index 14 the corner tile H8.
#[derive(Clone, Copy, PartialEq, Eq, Debug, Structural)]
pub struct Antidiagonal {
    pub index: u8,
}

impl Prodiagonal {
    pub open spec fn wf(self) -> bool {
        self.index < 15
    }

    pub open spec fn spec_base_file(d: int) -> int {
        if d <= 7 {
            7 - d
        } else {
            0
        }
    }

    pub open spec fn spec_base_rank(d: int) -> int {
        if d <= 7 {
            0
        } else {
            d - 7
        }
    }

    pub fn from_index(index: u8) -> (d: Prodiagonal)
        requires
            index < 15,
        ensures
            d.index == index,
            d.wf(),
    {
        Prodiagonal { index }
    }

    pub fn index(self) -> (i: u8)
        ensures
            i == self.index,
    {
        self.index
    }

    /// The number of tiles on the diagonal.
    pub fn length(self) -> (n: u8)
        requires
            self.wf(),
        ensures
            n == diag_length(self.index as int),
            1 <= n <= 8,
    {
        calc_diag_length(self.index())
    }

    /// The file of the diagonal's lowest tile.
    pub fn base_file(self) -> (f: File)
        requires
            self.wf(),
        ensures
            f.spec_index() == Self::spec_base_file(self.index as int),
    {
        let index: u8 = 7u8.saturating_sub(self.index());
        File::from_index(index)
    }

    /// The rank of the diagonal's lowest tile.
    pub fn base_rank(self) -> (r: Rank)
        requires
            self.wf(),
        ensures
            r.index == Self::spec_base_rank(self.index as int),
            r.wf(),
    {
        let index: u8 = self.index().saturating_sub(7);
        Rank::from_index(index)
    }

    /// The diagonal's lowest tile.
    pub fn base(self) -> (sq: StandardCoordinate)
        requires
            self.wf(),
        ensures
            sq.index == tile(Self::spec_base_rank(self.index as int), Self::spec_base_file(self.index as int)),
            sq.wf(),
    {
        StandardCoordinate::new(self.base_rank(), self.base_file())
    }
}

impl Antidiagonal {
    pub open spec fn wf(self) -> bool {
        self.index < 15
    }

    pub open spec fn spec_base_file(d: int) -> int {
        if d <= 7 {
            d
        } else {
            7
        }
    }

    pub open spec fn spec_base_rank(d: int) -> int {
        if d <= 7 {
            0
        } else {
            d - 7
        }
    }

    pub fn from_index(index: u8) -> (d: Antidiagonal)
        requires
            index < 15,
        ensures
            d.index == index,
            d.wf(),
    {
        Antidiagonal { index }
    }

    pub fn index(self) -> (i: u8)
        ensures
            i == self.index,
    {
        self.index
    }

    /// The number of tiles on the diagonal.
    pub fn length(self) -> (n: u8)
        requires
            self.wf(),
        ensures
            n == diag_length(self.index as int),
            1 <= n <= 8,
    {
        calc_diag_length(self.index())
    }

    /// The file of the diagonal's lowest tile.
    pub fn base_file(self) -> (f: File)
        requires
            self.wf(),
        ensures
            f.spec_index() == Self::spec_base_file(self.index as int),
    {
        let index: u8 = const_min_u8(self.index(), 7);
        File::from_index(index)
    }

    /// The rank of the diagonal's lowest tile.
    pub fn base_rank(self) -> (r: Rank)
        requires
            self.wf(),
        ensures
            r.index == Self::spec_base_rank(self.index as int),
            r.wf(),
    {
        let index: u8 = self.index().saturating_sub(7);
        Rank::from_index(index)
    }

    /// The diagonal's lowest tile.
    pub fn base(self) -> (sq: StandardCoordinate)
        requires
            self.wf(),
        ensures
            sq.index == tile(Self::spec_base_rank(self.index as int), Self::spec_base_file(self.index as int)),
            sq.wf(),
    {
        StandardCoordinate::new(self.base_rank(), self.base_file())
    }
}

/// The number of tiles on the diagonal with the given index.
pub fn calc_diag_length(diag_index: u8) -> (n: u8)
    requires
        diag_index <= 14,
    ensures
        n == diag_length(diag_index as int),
        1 <= n <= 8,
{
    let signed_diag_indx: i8 = diag_index as i8;
    let gap: i8 = 7i8 - signed_diag_indx;
    let distance: i8 = if gap < 0 {
        -gap
    } else {
        gap
    };
    let diag_len: i8 = 7 - distance + 1;
    diag_len as u8
}

/// The canonical tile coordinate: rank times eight plus file.
#[derive(Clone, Copy, PartialEq, Eq, Debug, Structural)]
pub struct StandardCoordinate {
    pub index: u8,
}

impl StandardCoordinate {
    pub open spec fn wf(self) -> bool {
        self.index < 64
    }

    pub open spec fn spec_prodiagonal(s: int) -> int {
        7 - file_of(s) + rank_of(s)
    }

    pub open spec fn spec_antidiagonal(s: int) -> int {
        rank_of(s) + file_of(s)
    }

    pub open spec fn spec_prodiagonal_offset(s: int) -> int {
        file_of(s) - Prodiagonal::spec_base_file(Self::spec_prodiagonal(s))
    }

    pub open spec fn spec_antidiagonal_offset(s: int) -> int {
        Antidiagonal::spec_base_file(Self::spec_antidiagonal(s)) - file_of(s)
    }

    pub fn rank(self) -> (r: Rank)
        requires
            self.wf(),
        ensures
            r.index == rank_of(self.index as int),
            r.wf(),
    {
        Rank::from_index(self.index / 8)
    }

    pub fn file(self) -> (f: File)
        requires
            self.wf(),
        ensures
            f.spec_index() == file_of(self.index as int),
    {
        File::from_index(self.index % 8)
    }

    /// The up-right diagonal through the tile.
    pub fn prodiagonal(self) -> (d: Prodiagonal)
        requires
            self.wf(),
        ensures
            d.index == Self::spec_prodiagonal(self.index as int),
            d.wf(),
    {
        let index: u8 = 7 - self.file().index() + self.rank().index();
        Prodiagonal::from_index(index)
    }

    /// How many tiles up its up-right diagonal the tile lies.
    pub fn prodiagonal_offset(self) -> (o: u8)
        requires
            self.wf(),
        ensures
            o == Self::spec_prodiagonal_offset(self.index as int),
            o < diag_length(Self::spec_prodiagonal(self.index as int)),
    {
        self.file().index() - self.prodiagonal().base_file().index()
    }

    /// The up-left diagonal through the tile.
    pub fn antidiagonal(self) -> (d: Antidiagonal)
        requires
            self.wf(),
        ensures
            d.index == Self::spec_antidiagonal(self.index as int),
            d.wf(),
    {
        let index: u8 = self.rank().index() + self.file().index();
        Antidiagonal::from_index(index)
    }

    /// How many tiles up its up-left diagonal the tile lies.
    pub fn antidiagonal_offset(self) -> (o: u8)
        requires
            self.wf(),
        ensures
            o == Self::spec_antidiagonal_offset(self.index as int),
            o < diag_length(Self::spec_antidiagonal(self.index as int)),
    {
        self.antidiagonal().base_file().index() - self.file().index()
    }

    pub fn index(self) -> (i: u8)
        ensures
            i == self.index,
    {
        self.index
    }

    pub fn from_index(index: u8) -> (sq: StandardCoordinate)
        requires
            index < 64,
        ensures
            sq.index == index,
            sq.wf(),
    {
        StandardCoordinate { index }
    }

    pub fn new(rank: Rank, file: File) -> (sq: StandardCoordinate)
        requires
            rank.wf(),
        ensures
            sq.index == tile(rank.index as int, file.spec_index()),
            rank_of(sq.index as int) == rank.index,
            file_of(sq.index as int) == file.spec_index(),
            sq.wf(),
    {
        let index: u8 = rank.index() * 8 + file.index();
        Self::from_index(index)
    }
}

/// The two wings of the board, seen from the king's starting file.
#[derive(Clone, Copy, PartialEq, Eq, Debug, Structural)]
pub enum Side {
    Queenside,
    Kingside,
}

/// A wing, named as the direction along the files.
pub type FileDirection = Side;

impl Side {
    pub open spec fn spec_index(self) -> int {
        match self {
            Side::Queenside => 0,
            Side::Kingside => 1,
        }
    }

    pub fn index(self) -> (i: u8)
        ensures
            i == self.spec_index(),
    {
        match self {
            Side::Queenside => 0,
            Side::Kingside => 1,
        }
    }
}

} // verus!
