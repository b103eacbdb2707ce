//! The position: the piece grid, the bitboards that mirror it, and the
//! history, together with what it means for them to agree.

use vstd::prelude::*;
use crate::attack::{is_attacked, tile_attacked};
use crate::bitboard::{lemma_md_ext, Bitboard, MDBitboard, RawBitboard};
use crate::bits::spec_swap_bytes;
use crate::bits::{bit_at, lemma_bit_logic, lemma_bit_swap_bytes, lemma_bit_zero, lemma_bits_ext};
use crate::cache::{ep_key, tile_const, HashChars, IncrementalHash};
use crate::coordinates::{Coordinate, CoordinateSystem, StandardCS};
use crate::crights::CastlingRights;
use crate::grid::{file_of, rank_of, tile, File, Side, StandardCoordinate};
use crate::mov::PieceMove;
use crate::piece::{lemma_grid_ext, Color, ColorTable, Piece, PieceGrid, Species, SpeciesTable};
use crate::rmrel::{lemma_rel_involution, rel_index};

verus! {

/// What is remembered of a piece move so that it can be taken back.
#[derive(Clone, Copy, Debug, PartialEq, Eq)]
pub struct LoggedPieceMove {
    pub mgmove: PieceMove,
    pub capture: Option<Piece>,
    /// The move was a pawn's double jump.
    pub is_pdj: bool,
    /// The tile the captured piece stood on; the destination, except for a
    /// capture en passant.
    pub target: StandardCoordinate,
}

/// A move as the log keeps it.
#[derive(Clone, Copy, Debug, PartialEq, Eq)]
pub enum LoggedMove {
    Castle(Side),
    Piece(LoggedPieceMove),
}

/// One record of the move log.
#[derive(Clone, Copy, Debug, PartialEq, Eq)]
pub struct MovelogEntry {
    pub prev_crights: CastlingRights,
    pub prev_halfmoveclock: u16,
    pub lmove: LoggedMove,
}

impl MovelogEntry {
    /// The tiles it names are on the board, its rights word is in range,
    /// and a double jump ends on the fourth or the fifth rank.
    pub open spec fn wf(self) -> bool {
        &&& self.prev_crights.wf()
        &&& match self.lmove {
            LoggedMove::Castle(_) => true,
            LoggedMove::Piece(pm) => {
                &&& pm.mgmove.wf()
                &&& pm.target.wf()
                &&& pm.is_pdj ==> 3 <= rank_of(pm.mgmove.destin.index as int) <= 4
            },
        }
    }
}

/// The content of a tile is a piece of species `sp`.
pub open spec fn holds_species(content: Option<Piece>, sp: Species) -> bool {
    content matches Some(p) && p.species == sp
}

/// The content of a tile is a piece of color `c`.
pub open spec fn holds_color(content: Option<Piece>, c: Color) -> bool {
    content matches Some(p) && p.color == c
}

/// A position as the rules see it: what stands where, who is to move, and
/// the history. Everything else a `ChessGame` holds is derived from this.
pub struct Position {
    pub grid: Seq<Option<Piece>>,
    pub active: Color,
    pub crights: CastlingRights,
    pub clock: u16,
    pub log: Seq<MovelogEntry>,
    pub castled: Seq<bool>,
}

/// The bitboards of a position.
#[derive(Clone, PartialEq, Eq, Debug)]
pub struct Bitboards {
    pub species_bbs: SpeciesTable<MDBitboard>,
    pub affilia_bbs: ColorTable<MDBitboard>,
    /// Each color's tiles in the relative numbering.
    pub affilia_rel_bbs: ColorTable<RawBitboard>,
    /// The pawns of both colors in the relative numbering.
    pub pawn_rel_bb: RawBitboard,
    pub active_player: Color,
}

impl Bitboards {
    /// Tile `s` is in the bitboard of species `sp`.
    pub open spec fn species_has(&self, sp: Species, s: int) -> bool {
        self.species_bbs.spec_get(sp).has(s)
    }

    /// Tile `s` is in the bitboard of color `c`.
    pub open spec fn color_has(&self, c: Color, s: int) -> bool {
        self.affilia_bbs.spec_get(c).has(s)
    }

    /// Tile `s` is in the relative bitboard of color `c`.
    pub open spec fn rel_color_has(&self, c: Color, s: int) -> bool {
        bit_at(self.affilia_rel_bbs.spec_get(c), rel_index(s, self.active_player))
    }

    /// Tile `s` is in the relative pawn bitboard.
    pub open spec fn rel_pawn_has(&self, s: int) -> bool {
        bit_at(self.pawn_rel_bb, rel_index(s, self.active_player))
    }

    /// Every bitboard says of every tile what the grid says: a tile is in a
    /// species' bitboard exactly when a piece of that species stands on
    /// it, in a color's exactly when a piece of that color does, under all
    /// four traversals and in the relative numbering.
    pub open spec fn coherent(&self, grid: Seq<Option<Piece>>) -> bool {
        &&& grid.len() == 64
        &&& forall|sp: Species| (#[trigger] self.species_bbs.spec_get(sp)).wf()
        &&& forall|c: Color| (#[trigger] self.affilia_bbs.spec_get(c)).wf()
        &&& forall|sp: Species, s: int|
            0 <= s < 64 ==> #[trigger] self.species_has(sp, s) == holds_species(grid[s], sp)
        &&& forall|c: Color, s: int|
            0 <= s < 64 ==> #[trigger] self.color_has(c, s) == holds_color(grid[s], c)
        &&& forall|c: Color, s: int|
            0 <= s < 64 ==> #[trigger] self.rel_color_has(c, s) == holds_color(grid[s], c)
        &&& forall|s: int|
            0 <= s < 64 ==> #[trigger] self.rel_pawn_has(s) == holds_species(grid[s], Species::Pawn)
    }

    /// All occupied tiles in the relative numbering.
    pub open spec fn spec_rel_occupancy(&self) -> RawBitboard {
        self.affilia_rel_bbs.spec_get(Color::White) | self.affilia_rel_bbs.spec_get(Color::Black)
    }

    /// All occupied tiles in the relative numbering.
    pub fn rel_occupancy(&self) -> (bb: RawBitboard)
        ensures
            bb == self.spec_rel_occupancy(),
            forall|j: int|
                bit_at(bb, j) == (bit_at(self.affilia_rel_bbs.spec_get(Color::White), j) || bit_at(
                    self.affilia_rel_bbs.spec_get(Color::Black),
                    j,
                )),
    {
        let w: u64 = *self.affilia_rel_bbs.get(Color::White);
        let b: u64 = *self.affilia_rel_bbs.get(Color::Black);
        proof {
            assert forall|j: int| bit_at(w | b, j) == (bit_at(w, j) || bit_at(b, j)) by {
                lemma_bit_logic(w, b, j);
            }
        }
        w | b
    }

    /// All occupied tiles under traversal `C`.
    pub fn occupancy<C: CoordinateSystem>(&self) -> (bb: Bitboard<C>)
        ensures
            bb.raw_bb == self.affilia_bbs.spec_get(Color::White).array[C::spec_slot()]
                | self.affilia_bbs.spec_get(Color::Black).array[C::spec_slot()],
            forall|grid: Seq<Option<Piece>>, s: int|
                self.coherent(grid) && 0 <= s < 64 ==> #[trigger] bb.has(s) == (#[trigger] grid[s] is Some),
    {
        let w: Bitboard<C> = self.affilia_bbs.get(Color::White).get();
        let b: Bitboard<C> = self.affilia_bbs.get(Color::Black).get();
        let bb = w.bitor(b);
        proof {
            assert forall|grid: Seq<Option<Piece>>, s: int|
                self.coherent(grid) && 0 <= s < 64 implies #[trigger] bb.has(s) == (#[trigger] grid[s] is Some) by {
                assert(self.affilia_bbs.spec_get(Color::White).wf());
                assert(self.affilia_bbs.spec_get(Color::Black).wf());
                assert(self.color_has(Color::White, s) == holds_color(grid[s], Color::White));
                assert(self.color_has(Color::Black, s) == holds_color(grid[s], Color::Black));
            }
        }
        bb
    }

    /// The tiles that hold a piece of the given color and species.
    pub fn class<C: CoordinateSystem>(&self, color: Color, species: Species) -> (bb: Bitboard<C>)
        ensures
            bb.raw_bb == self.affilia_bbs.spec_get(color).array[C::spec_slot()]
                & self.species_bbs.spec_get(species).array[C::spec_slot()],
            forall|grid: Seq<Option<Piece>>, s: int|
                self.coherent(grid) && 0 <= s < 64 ==> #[trigger] bb.has(s) == (#[trigger] grid[s] == Some(
                    Piece { color, species },
                )),
    {
        let a: Bitboard<C> = self.affilia_bbs.get(color).get();
        let b: Bitboard<C> = self.species_bbs.get(species).get();
        let bb = a.bitand(b);
        proof {
            assert forall|grid: Seq<Option<Piece>>, s: int|
                self.coherent(grid) && 0 <= s < 64 implies #[trigger] bb.has(s) == (#[trigger] grid[s] == Some(
                Piece { color, species },
            )) by {
                assert(self.affilia_bbs.spec_get(color).wf());
                assert(self.species_bbs.spec_get(species).wf());
                assert(self.color_has(color, s) == holds_color(grid[s], color));
                assert(self.species_has(species, s) == holds_species(grid[s], species));
            }
        }
        bb
    }

    /// The four-way words of every species and color hold the same tiles
    /// each.
    pub open spec fn tables_wf(&self) -> bool {
        &&& forall|sp: Species| (#[trigger] self.species_bbs.spec_get(sp)).wf()
        &&& forall|c: Color| (#[trigger] self.affilia_bbs.spec_get(c)).wf()
    }

    /// Tile `s` is in the bitboards of both the color and the species.
    pub open spec fn has_class(&self, c: Color, sp: Species, s: int) -> bool {
        self.color_has(c, s) && self.species_has(sp, s)
    }

    /// The bitboards hold the king of color `c` on tile `k` and on no
    /// other.
    pub open spec fn king_on(&self, c: Color, k: int) -> bool {
        &&& 0 <= k < 64
        &&& forall|s: int| 0 <= s < 64 ==> #[trigger] self.has_class(c, Species::King, s) == (s == k)
    }

    /// Whether the king of the side to move is attacked.
    pub fn is_check(&self) -> (check: bool)
        requires
            self.tables_wf(),
            exists|k: int| self.king_on(self.active_player, k),
        ensures
            forall|grid: Seq<Option<Piece>>| #[trigger]
                self.coherent(grid) ==> check == tile_attacked(
                    grid,
                    self.active_player,
                    king_tile(grid, self.active_player),
                ),
    {
        let king_sq = locate_king_stdc(self, self.active_player);
        let check = is_attacked(self, king_sq);
        proof {
            assert forall|grid: Seq<Option<Piece>>| #[trigger] self.coherent(grid) implies check == tile_attacked(
                grid,
                self.active_player,
                king_tile(grid, self.active_player),
            ) by {
                lemma_king_tile(*self, grid, self.active_player, king_sq.index as int);
            }
        }
        check
    }

    /// The bitboards of an empty board with White to move.
    pub fn new() -> (bbs: Self)
        ensures
            bbs.active_player == Color::White,
            bbs.coherent(Seq::new(64, |s: int| None)),
    {
        let e = MDBitboard::empty();
        let bbs = Self {
            species_bbs: SpeciesTable::from_array([e, e, e, e, e, e]),
            affilia_bbs: ColorTable::from_array([e, e]),
            affilia_rel_bbs: ColorTable::from_array([0, 0]),
            pawn_rel_bb: 0,
            active_player: Color::White,
        };
        proof {
            assert forall|j: int| !bit_at(0u64, j) by {
                lemma_bit_zero(j);
            }
            assert forall|sp: Species| bbs.species_bbs.spec_get(sp) == e by {
            }
            assert forall|c: Color| bbs.affilia_bbs.spec_get(c) == e by {
            }
            assert forall|c: Color| bbs.affilia_rel_bbs.spec_get(c) == 0 by {
            }
        }
        bbs
    }
}

/// The whole state of a game.
#[derive(Clone, PartialEq, Eq, Debug)]
pub struct ChessGame {
    pub bbs: Bitboards,
    pub p_lut: PieceGrid,
    pub movelog: Vec<MovelogEntry>,
    pub crights: CastlingRights,
    pub halfmoveclock: u16,
    pub hash: IncrementalHash,
    pub has_castled: ColorTable<bool>,
}

/// The fingerprint of the first `n` tiles of a grid: the constants of their
/// contents, XORed together.
pub open spec fn tiles_hash(chs: HashChars, grid: Seq<Option<Piece>>, n: int) -> u64
    decreases n,
{
    if n <= 0 {
        0
    } else {
        tiles_hash(chs, grid, n - 1) ^ tile_const(chs, n - 1, grid[n - 1])
    }
}

/// The constant of the side to move: the side constant for Black, zero for
/// White.
pub open spec fn active_const(chs: HashChars, active: Color) -> u64 {
    match active {
        Color::White => 0,
        Color::Black => chs.active,
    }
}

/// The file on which the side to move can capture en passant: the last
/// move was a pawn's double jump, and a pawn of the side to move stands
/// beside the pawn that jumped.
pub open spec fn ep_file(p: Position) -> Option<File> {
    if p.log.len() > 0 {
        match p.log.last().lmove {
            LoggedMove::Castle(_) => None,
            LoggedMove::Piece(pm) => {
                let d = pm.mgmove.destin.index as int;
                let own_pawn = Some(Piece { color: p.active, species: Species::Pawn });
                if pm.is_pdj && ((file_of(d) > 0 && p.grid[d - 1] == own_pawn) || (file_of(d) < 7
                    && p.grid[d + 1] == own_pawn)) {
                    Some(File::spec_from_index(file_of(d)))
                } else {
                    None
                }
            },
        }
    } else {
        None
    }
}

/// The fingerprint of a position, folded from its contents: every
/// occupied tile, the castling rights, the en-passant file and the side to
/// move.
pub open spec fn position_hash(chs: HashChars, p: Position) -> u64 {
    tiles_hash(chs, p.grid, 64) ^ chs.crights[p.crights.data as int] ^ chs.ep_vuln[ep_key(ep_file(p))]
        ^ active_const(chs, p.active)
}

/// Exactly one king of color `c` stands on the grid.
pub open spec fn one_king(grid: Seq<Option<Piece>>, c: Color) -> bool {
    exists|k: int| is_king_tile(grid, c, k)
}

/// The king of color `c` stands on tile `k` and on no other.
pub open spec fn is_king_tile(grid: Seq<Option<Piece>>, c: Color, k: int) -> bool {
    &&& 0 <= k < 64
    &&& grid[k] == Some(Piece { color: c, species: Species::King })
    &&& forall|j: int| 0 <= j < 64 && j != k ==> grid[j] != Some(Piece { color: c, species: Species::King })
}

/// The tile on which the king of color `c` stands, where there is exactly
/// one.
pub open spec fn king_tile(grid: Seq<Option<Piece>>, c: Color) -> int {
    choose|k: int| is_king_tile(grid, c, k)
}

/// The side to move is in check: a piece of its opponent attacks its
/// king.
pub open spec fn in_check(p: Position) -> bool {
    tile_attacked(p.grid, p.active, king_tile(p.grid, p.active))
}

/// Where the bitboards hold the one king of a color, the grid holds it.
pub proof fn lemma_king_tile(board: Bitboards, grid: Seq<Option<Piece>>, c: Color, k: int)
    requires
        board.coherent(grid),
        board.king_on(c, k),
    ensures
        is_king_tile(grid, c, k),
        king_tile(grid, c) == k,
{
    assert forall|s: int| 0 <= s < 64 implies (grid[s] == Some(Piece { color: c, species: Species::King })) == (s
        == k) by {
        assert(board.has_class(c, Species::King, s) == (s == k));
        assert(board.color_has(c, s) == holds_color(grid[s], c));
        assert(board.species_has(Species::King, s) == holds_species(grid[s], Species::King));
    }
    assert(is_king_tile(grid, c, k));
    let k2 = king_tile(grid, c);
    assert(is_king_tile(grid, c, k2));
}

/// Where the grid holds exactly one king of a color, so do the bitboards.
pub proof fn lemma_king_on(board: Bitboards, grid: Seq<Option<Piece>>, c: Color)
    requires
        board.coherent(grid),
        one_king(grid, c),
    ensures
        board.king_on(c, king_tile(grid, c)),
        is_king_tile(grid, c, king_tile(grid, c)),
        board.tables_wf(),
{
    let k = king_tile(grid, c);
    assert forall|s: int| 0 <= s < 64 implies #[trigger] board.has_class(c, Species::King, s) == (s == k) by {
        assert(board.color_has(c, s) == holds_color(grid[s], c));
        assert(board.species_has(Species::King, s) == holds_species(grid[s], Species::King));
    }
}

/// The coordinate of a color's king in traversal `C`.
pub fn locate_king<C: CoordinateSystem>(board: &Bitboards, color: Color) -> (c: Coordinate<C>)
    requires
        board.tables_wf(),
        exists|k: int| board.king_on(color, k),
    ensures
        c.wf(),
        board.king_on(color, c.spec_tile()),
{
    let kings: Bitboard<C> = board.species_bbs.get(Species::King).get();
    let own: Bitboard<C> = board.affilia_bbs.get(color).get();
    let bb = kings.bitand(own);
    proof {
        let k = choose|k: int| board.king_on(color, k);
        let slot = C::spec_slot();
        C::lemma_slot();
        crate::coordinates::lemma_encode_bijective(slot);
        assert(board.species_bbs.spec_get(Species::King).wf());
        assert(board.affilia_bbs.spec_get(color).wf());
        assert forall|s: int| 0 <= s < 64 implies bb.has(s) == (s == k) by {
            assert(board.has_class(color, Species::King, s) == (s == k));
        }
        let i = crate::coordinates::encode_in(slot, k);
        assert(bb.has(k));
        assert forall|j: int| 0 <= j < 64 && j != i implies !bit_at(bb.raw_bb, j) by {
            let s = crate::coordinates::decode_in(slot, j);
            assert(bb.has(s) == (s == k));
        }
        assert(crate::bitboard::is_single(bb.raw_bb));
    }
    let c = bb.single();
    proof {
        let k = choose|k: int| board.king_on(color, k);
        let slot = C::spec_slot();
        C::lemma_slot();
        crate::coordinates::lemma_encode_bijective(slot);
        let s = c.spec_tile();
        assert(bb.has(s));
        assert(bb.has(s) == (s == k));
    }
    c
}

/// The tile of a color's king.
pub fn locate_king_stdc(board: &Bitboards, color: Color) -> (sq: StandardCoordinate)
    requires
        board.tables_wf(),
        exists|k: int| board.king_on(color, k),
    ensures
        sq.wf(),
        board.king_on(color, sq.index as int),
{
    locate_king::<StandardCS>(board, color).to_std()
}

/// The tile a color's king starts on.
pub open spec fn king_home(c: Color) -> int {
    tile(crate::grid::base_rank_of(c), 4)
}

/// The tile the rook of a wing starts on.
pub open spec fn rook_home(side: Side, c: Color) -> int {
    tile(crate::grid::base_rank_of(c), if side == Side::Queenside { 0int } else { 7int })
}

/// Both pieces that a castle on the wing would move stand on their
/// starting tiles.
pub open spec fn castle_pieces_home(grid: Seq<Option<Piece>>, side: Side, c: Color) -> bool {
    &&& grid[king_home(c)] == Some(Piece { color: c, species: Species::King })
    &&& grid[rook_home(side, c)] == Some(Piece { color: c, species: Species::Rook })
}

/// Every record of the log is well-formed.
pub open spec fn log_ok(log: Seq<MovelogEntry>) -> bool {
    forall|i: int| 0 <= i < log.len() ==> (#[trigger] log[i]).wf()
}

impl Position {
    /// The parts are of the right sizes and every record of the log is
    /// well-formed.
    pub open spec fn wf(self) -> bool {
        &&& self.grid.len() == 64
        &&& self.castled.len() == 2
        &&& self.crights.wf()
        &&& log_ok(self.log)
    }

    /// The position can occur in play: one king each; a castling right
    /// only where king and rook still stand at home; no right left to a
    /// color that has castled.
    pub open spec fn playable(self) -> bool {
        &&& self.wf()
        &&& one_king(self.grid, Color::White)
        &&& one_king(self.grid, Color::Black)
        &&& forall|side: Side, c: Color| #[trigger]
            self.crights.has(side, c) ==> castle_pieces_home(self.grid, side, c) && !self.castled[c.spec_index()]
    }
}

impl ChessGame {
    /// The position that the state holds.
    pub open spec fn abs(&self) -> Position {
        Position {
            grid: self.p_lut@,
            active: self.bbs.active_player,
            crights: self.crights,
            clock: self.halfmoveclock,
            log: self.movelog@,
            castled: self.has_castled.array@,
        }
    }

    /// The grid is well-formed and the bitboards agree with it.
    pub open spec fn boards_ok(&self) -> bool {
        &&& self.p_lut.wf()
        &&& self.bbs.coherent(self.p_lut@)
        &&& self.crights.wf()
        &&& log_ok(self.movelog@)
    }

    /// The fingerprint with the tiles' constants taken out: what is left
    /// stands for rights, en-passant file and side to move.
    pub open spec fn hash_residue(&self) -> u64 {
        self.hash.value ^ tiles_hash(self.hash.chs, self.p_lut@, 64)
    }

    /// The incremental fingerprint is the fold over the position.
    pub open spec fn hash_ok(&self) -> bool {
        self.hash.value == position_hash(self.hash.chs, self.abs())
    }

    /// Grid, bitboards and fingerprint all agree.
    pub open spec fn coherent(&self) -> bool {
        self.boards_ok() && self.hash_ok()
    }

    /// The state is coherent and its position can occur in play.
    pub open spec fn valid(&self) -> bool {
        self.coherent() && self.abs().playable()
    }

    pub fn active_player(&self) -> (c: Color)
        ensures
            c == self.bbs.active_player,
    {
        self.bbs.active_player
    }

    /// An empty board with White to move, no castling rights, the clock at
    /// zero and an empty log.
    pub fn new(hash_ch: HashChars) -> (game: Self)
        ensures
            game.coherent(),
            game.hash.chs == hash_ch,
            game.bbs.active_player == Color::White,
            forall|s: int| 0 <= s < 64 ==> game.p_lut@[s] is None,
            game.crights.data == 0,
            game.halfmoveclock == 0,
            game.movelog@.len() == 0,
            !game.has_castled.spec_get(Color::White) && !game.has_castled.spec_get(Color::Black),
    {
        let bbs = Bitboards::new();
        let p_lut = PieceGrid::empty();
        let movelog: Vec<MovelogEntry> = Vec::new();
        let crights = CastlingRights::none();
        let halfmoveclock: u16 = 0;
        let mut hash = IncrementalHash::new(hash_ch);
        hash.toggle_crights(crights);
        hash.toggle_ep_vuln(None);
        let game = Self {
            bbs,
            p_lut,
            movelog,
            crights,
            halfmoveclock,
            hash,
            has_castled: ColorTable::from_array([false, false]),
        };
        proof {
            let chs = game.hash.chs;
            assert(game.p_lut@ =~= Seq::new(64, |s: int| None));
            lemma_tiles_hash_empty(chs, game.p_lut@, 64);
            crate::bits::lemma_xor_algebra(chs.crights[0], chs.ep_vuln[0], 0, 0);
            crate::bits::lemma_xor_algebra(chs.crights[0] ^ chs.ep_vuln[0], 0, 0, 0);
            crate::bits::lemma_xor_algebra(0, chs.crights[0], 0, 0);
            crate::bits::lemma_xor_algebra(chs.crights[0], 0, 0, 0);
        }
        game
    }
}

/// The fingerprint of the tiles of an empty grid is zero.
pub proof fn lemma_tiles_hash_empty(chs: HashChars, grid: Seq<Option<Piece>>, n: int)
    requires
        0 <= n <= 64,
        forall|s: int| 0 <= s < 64 ==> grid[s] is None,
    ensures
        tiles_hash(chs, grid, n) == 0,
    decreases n,
{
    if n > 0 {
        lemma_tiles_hash_empty(chs, grid, n - 1);
        crate::bits::lemma_xor_algebra(0, 0, 0, 0);
    }
}

/// Two states agree in every part: grid, bitboards, log, rights, clock,
/// fingerprint with its constants, and castled flags.
pub open spec fn same_position(a: ChessGame, b: ChessGame) -> bool {
    &&& a.bbs == b.bbs
    &&& a.p_lut == b.p_lut
    &&& a.movelog@ == b.movelog@
    &&& a.crights == b.crights
    &&& a.halfmoveclock == b.halfmoveclock
    &&& a.hash == b.hash
    &&& a.has_castled == b.has_castled
}

/// A coherent state holds nothing beyond its position and its constants:
/// two coherent states with the same position and the same constants agree
/// in every part.
pub proof fn lemma_position_determines_state(a: ChessGame, b: ChessGame)
    requires
        a.coherent(),
        b.coherent(),
        a.abs() == b.abs(),
        a.hash.chs == b.hash.chs,
    ensures
        same_position(a, b),
{
    lemma_grid_ext(a.p_lut, b.p_lut);
    let grid = a.p_lut@;
    assert forall|sp: Species| a.bbs.species_bbs.spec_get(sp) == b.bbs.species_bbs.spec_get(sp) by {
        let x = a.bbs.species_bbs.spec_get(sp);
        let y = b.bbs.species_bbs.spec_get(sp);
        assert forall|s: int| 0 <= s < 64 implies x.has(s) == y.has(s) by {
            assert(a.bbs.species_has(sp, s) == holds_species(grid[s], sp));
            assert(b.bbs.species_has(sp, s) == holds_species(grid[s], sp));
        }
        lemma_md_ext(x, y);
    }
    assert(a.bbs.species_bbs.array =~= b.bbs.species_bbs.array) by {
        assert forall|i: int| 0 <= i < 6 implies a.bbs.species_bbs.array[i] == b.bbs.species_bbs.array[i] by {
            let sp = Species::spec_from_index(i);
            assert(a.bbs.species_bbs.spec_get(sp) == b.bbs.species_bbs.spec_get(sp));
        }
    }
    assert forall|c: Color| a.bbs.affilia_bbs.spec_get(c) == b.bbs.affilia_bbs.spec_get(c) by {
        let x = a.bbs.affilia_bbs.spec_get(c);
        let y = b.bbs.affilia_bbs.spec_get(c);
        assert forall|s: int| 0 <= s < 64 implies x.has(s) == y.has(s) by {
            assert(a.bbs.color_has(c, s) == holds_color(grid[s], c));
            assert(b.bbs.color_has(c, s) == holds_color(grid[s], c));
        }
        lemma_md_ext(x, y);
    }
    assert(a.bbs.affilia_bbs.array =~= b.bbs.affilia_bbs.array) by {
        assert(a.bbs.affilia_bbs.spec_get(Color::White) == b.bbs.affilia_bbs.spec_get(Color::White));
        assert(a.bbs.affilia_bbs.spec_get(Color::Black) == b.bbs.affilia_bbs.spec_get(Color::Black));
    }
    let active = a.bbs.active_player;
    assert forall|c: Color| a.bbs.affilia_rel_bbs.spec_get(c) == b.bbs.affilia_rel_bbs.spec_get(c) by {
        let x = a.bbs.affilia_rel_bbs.spec_get(c);
        let y = b.bbs.affilia_rel_bbs.spec_get(c);
        assert forall|j: int| 0 <= j < 64 implies bit_at(x, j) == bit_at(y, j) by {
            let s = rel_index(j, active);
            lemma_rel_involution(j, active);
            assert(a.bbs.rel_color_has(c, s) == holds_color(grid[s], c));
            assert(b.bbs.rel_color_has(c, s) == holds_color(grid[s], c));
        }
        lemma_bits_ext(x, y);
    }
    assert(a.bbs.affilia_rel_bbs.array =~= b.bbs.affilia_rel_bbs.array) by {
        assert(a.bbs.affilia_rel_bbs.spec_get(Color::White) == b.bbs.affilia_rel_bbs.spec_get(Color::White));
        assert(a.bbs.affilia_rel_bbs.spec_get(Color::Black) == b.bbs.affilia_rel_bbs.spec_get(Color::Black));
    }
    assert(a.bbs.pawn_rel_bb == b.bbs.pawn_rel_bb) by {
        assert forall|j: int| 0 <= j < 64 implies bit_at(a.bbs.pawn_rel_bb, j) == bit_at(b.bbs.pawn_rel_bb, j) by {
            let s = rel_index(j, active);
            lemma_rel_involution(j, active);
            assert(a.bbs.rel_pawn_has(s) == holds_species(grid[s], Species::Pawn));
            assert(b.bbs.rel_pawn_has(s) == holds_species(grid[s], Species::Pawn));
        }
        lemma_bits_ext(a.bbs.pawn_rel_bb, b.bbs.pawn_rel_bb);
    }
    assert(a.has_castled.array =~= b.has_castled.array);
}

/// A rank-major bitboard as the side to move sees it: as it is when White
/// is to move, with its bytes reversed when Black is.
pub open spec fn oriented(active: Color, x: u64) -> u64 {
    if active == Color::Black {
        spec_swap_bytes(x)
    } else {
        x
    }
}

/// The relative pawn bitboard is, as the side to move sees it, the union
/// of the two colors' bitboards cut with the pawns' bitboard.
pub proof fn lemma_relative_pawns(state: ChessGame)
    requires
        state.boards_ok(),
    ensures
        state.bbs.pawn_rel_bb == oriented(
            state.bbs.active_player,
            (state.bbs.affilia_bbs.spec_get(Color::White).array[0] | state.bbs.affilia_bbs.spec_get(
                Color::Black,
            ).array[0]) & state.bbs.species_bbs.spec_get(Species::Pawn).array[0],
        ),
{
    let grid = state.p_lut@;
    let active = state.bbs.active_player;
    let white = state.bbs.affilia_bbs.spec_get(Color::White).array[0];
    let black = state.bbs.affilia_bbs.spec_get(Color::Black).array[0];
    let pawns = state.bbs.species_bbs.spec_get(Species::Pawn).array[0];
    let abs_bb = (white | black) & pawns;
    let expect = oriented(active, abs_bb);
    assert forall|j: int| 0 <= j < 64 implies bit_at(state.bbs.pawn_rel_bb, j) == bit_at(expect, j) by {
        let s = rel_index(j, active);
        lemma_rel_involution(j, active);
        assert(state.bbs.rel_pawn_has(s) == holds_species(grid[s], Species::Pawn));
        assert(state.bbs.color_has(Color::White, s) == holds_color(grid[s], Color::White));
        assert(state.bbs.color_has(Color::Black, s) == holds_color(grid[s], Color::Black));
        assert(state.bbs.species_has(Species::Pawn, s) == holds_species(grid[s], Species::Pawn));
        lemma_bit_logic(white | black, pawns, s);
        lemma_bit_logic(white, black, s);
        if active == Color::Black {
            lemma_bit_swap_bytes(abs_bb, j);
        }
    }
    lemma_bits_ext(state.bbs.pawn_rel_bb, expect);
}

/// The relative bitboard of each color is its absolute rank-major bitboard
/// when White is to move, and that bitboard with its bytes reversed when
/// Black is.
pub proof fn lemma_relative_coherence(state: ChessGame, c: Color)
    requires
        state.boards_ok(),
    ensures
        state.bbs.affilia_rel_bbs.spec_get(c) == (if state.bbs.active_player == Color::Black {
            spec_swap_bytes(state.bbs.affilia_bbs.spec_get(c).array[0])
        } else {
            state.bbs.affilia_bbs.spec_get(c).array[0]
        }),
{
    let grid = state.p_lut@;
    let active = state.bbs.active_player;
    let rel = state.bbs.affilia_rel_bbs.spec_get(c);
    let abs_bb = state.bbs.affilia_bbs.spec_get(c).array[0];
    let expect = if active == Color::Black {
        spec_swap_bytes(abs_bb)
    } else {
        abs_bb
    };
    assert forall|j: int| 0 <= j < 64 implies bit_at(rel, j) == bit_at(expect, j) by {
        let s = rel_index(j, active);
        lemma_rel_involution(j, active);
        assert(state.bbs.rel_color_has(c, s) == holds_color(grid[s], c));
        assert(state.bbs.color_has(c, s) == holds_color(grid[s], c));
        if active == Color::Black {
            lemma_bit_swap_bytes(abs_bb, j);
        }
    }
    lemma_bits_ext(rel, expect);
}

/// The grid and the bitboards agree on every tile: the tile's occupant is
/// the one color and species whose bitboards both hold the tile, and an
/// empty tile is in no bitboard.
pub proof fn lemma_grid_coherence(state: ChessGame, s: int, c: Color, sp: Species)
    requires
        state.boards_ok(),
        0 <= s < 64,
    ensures
        state.p_lut@[s] == Some(Piece { color: c, species: sp }) <==> state.bbs.color_has(c, s)
            && state.bbs.species_has(sp, s),
        state.p_lut@[s] is None ==> !state.bbs.color_has(c, s) && !state.bbs.species_has(sp, s),
{
    let grid = state.p_lut@;
    assert(state.bbs.color_has(c, s) == holds_color(grid[s], c));
    assert(state.bbs.species_has(sp, s) == holds_species(grid[s], sp));
}

/// How a finished game ended.
#[derive(Clone, Copy, Debug, PartialEq, Eq)]
pub enum GameResult {
    /// One side won.
    Diff(Color),
    Tie,
}

/// Whether a game is over, and how.
#[derive(Clone, Copy, Debug, PartialEq, Eq)]
pub enum GameStatus {
    Complete(GameResult),
    Incomplete,
}

/// The status of a position: the game goes on while the side to move has
/// a legal move; without one it is lost for a side in check, and tied
/// otherwise.
pub open spec fn spec_status(p: Position) -> GameStatus {
    if exists|mv: crate::mov::AnyMove| crate::rules::legal(p, mv) {
        GameStatus::Incomplete
    } else if in_check(p) {
        GameStatus::Complete(GameResult::Diff(p.active.spec_oppo()))
    } else {
        GameStatus::Complete(GameResult::Tie)
    }
}

/// Whether the game is over, and how. The state is left as it was found.
pub fn status(state: &mut ChessGame) -> (st: GameStatus)
    requires
        old(state).valid(),
    ensures
        same_position(*final(state), *old(state)),
        st == spec_status(old(state).abs()),
{
    let ghost pre = *state;
    let has_move: bool = crate::movegen::dispatch::count_legal_moves(state) > 0;
    proof {
        crate::makemove::lemma_same_position_valid(pre, *state);
    }
    if has_move {
        return GameStatus::Incomplete;
    }
    proof {
        lemma_king_on(state.bbs, state.p_lut@, state.bbs.active_player);
    }
    let check: bool = state.bbs.is_check();
    assert(state.bbs.coherent(state.p_lut@));
    if !check {
        return GameStatus::Complete(GameResult::Tie);
    }
    let victor: Color = state.active_player().oppo();
    GameStatus::Complete(GameResult::Diff(victor))
}

/// The fingerprint of the state's position, folded from scratch: the
/// constants of every occupied tile, of the rights word, of the
/// en-passant file and of the side to move, XORed together. In a coherent
/// state this is the fingerprint that the state keeps up to date.
pub fn fold_hash(state: &ChessGame) -> (hash: u64)
    requires
        state.boards_ok(),
    ensures
        hash == position_hash(state.hash.chs, state.abs()),
        state.coherent() ==> hash == state.hash.value,
{
    let mut hash: u64 = 0;
    let mut index: u8 = 0;
    while index < 64
        invariant
            index <= 64,
            state.boards_ok(),
            hash == tiles_hash(state.hash.chs, state.p_lut@, index as int),
        decreases 64 - index,
    {
        let pos = StandardCoordinate::from_index(index);
        match state.p_lut.get(pos) {
            Some(piece) => {
                let key: usize = (index as usize) * 12 + (piece.index() as usize);
                hash = hash ^ state.hash.chs.piece_placements[key];
            },
            None => {
                proof {
                    crate::bits::lemma_xor_algebra(hash, 0, 0, 0);
                }
            },
        }
        index += 1;
    }
    hash = hash ^ state.hash.chs.crights[state.crights.data() as usize];
    let ep_key: usize = match crate::enpassant::is_enpassant_vuln(state) {
        None => 0,
        Some(file) => (file.index() as usize) + 1,
    };
    hash = hash ^ state.hash.chs.ep_vuln[ep_key];
    match state.active_player() {
        Color::Black => {
            hash = hash ^ state.hash.chs.active;
        },
        Color::White => {
            proof {
                crate::bits::lemma_xor_algebra(hash, 0, 0, 0);
            }
        },
    }
    hash
}

} // verus!
