//! The small parts: bits, coordinates, bitboards, sliders, attack masks.

use chess_solver_3::attack::{is_attacked, is_attacked_king, is_attacked_knight, is_attacked_pawn, AttackQuery};
use chess_solver_3::attack::{is_attacked_antidiag_slide, is_attacked_fileslide, is_attacked_prodiag_slide};
use chess_solver_3::attack::is_attacked_rankslide;
use chess_solver_3::bitboard::{Bitboard, MDBitboard};
use chess_solver_3::bits::{bitscan, get_bit, get_bit8, repeat_byte_u64, scan_bits, swap_bytes_inplace_u64};
use chess_solver_3::bits::{swap_bytes_u64, Bitstring};
use chess_solver_3::cache::{HashChars, IncrementalHash};
use chess_solver_3::coordinates::{calc_diag_coord, triangle_num, AntidiagonalMajorCS, Coordinate};
use chess_solver_3::coordinates::{CoordinateSystem, FileMajorCS, ProdiagonalMajorCS, RankMajorCS};
use chess_solver_3::crights::{update_crights_all, CastlingRights};
use chess_solver_3::gamestate::{locate_king, locate_king_stdc, Bitboards, ChessGame};
use chess_solver_3::grid::{calc_diag_length, Antidiagonal, File, Prodiagonal, Rank, Side, StandardCoordinate};
use chess_solver_3::laneutils::{lanelimit, lanescan};
use chess_solver_3::makemove::{clear_tile, fill_tile, swap_active, test_pmove_legality};
use chess_solver_3::misc::{const_min_u8, pick, Max, Push, PushCount, SegVec};
use chess_solver_3::mov::{get_target_sq, PieceMove};
use chess_solver_3::movegen::king::king_attack;
use chess_solver_3::movegen::knight::knight_attack;
use chess_solver_3::movegen::pawn::{pawn_attack, reverse_pawn_attack};
use chess_solver_3::movegen::types::can_apply;
use chess_solver_3::persistence::apply_gstr;
use chess_solver_3::piece::{Color, ColorTable, Piece, PieceGrid, Species, SpeciesTable};
use chess_solver_3::rmrel::{absolutize, relativize};
use chess_solver_3::sliders::{get_slidelimit, get_slidescan, slidelimit, slidescan};
use chess_solver_3::stdinit::new_std_chess_position;

fn sq(rank: u8, file: File) -> StandardCoordinate {
    StandardCoordinate::new(Rank::from_index(rank), file)
}

fn tiles(list: &[(u8, File)]) -> u64 {
    list.iter().fold(0u64, |acc, (rank, file)| acc | (1u64 << sq(*rank, *file).index()))
}

#[test]
fn bits_and_scans() {
    assert_eq!(repeat_byte_u64(0x01), 0x0101_0101_0101_0101);
    assert_eq!(repeat_byte_u64(0x80), 0x8080_8080_8080_8080);
    assert_eq!(repeat_byte_u64(0xa5), 0xa5a5_a5a5_a5a5_a5a5);
    assert_eq!(swap_bytes_u64(0x0102_0304_0506_0708), 0x0807_0605_0403_0201);
    let mut word: u64 = 0xff;
    swap_bytes_inplace_u64(&mut word);
    assert_eq!(word, 0xff00_0000_0000_0000);
    assert!(get_bit(1 << 63, 63));
    assert!(!get_bit(1 << 63, 62));
    assert!(get_bit8(0b100, 2));
    assert!(!get_bit8(0b100, 1));
    assert_eq!(scan_bits(0), Vec::<u8>::new());
    assert_eq!(scan_bits(0b1010_0001), vec![0, 5, 7]);
    assert_eq!(scan_bits(u64::MAX).len(), 64);
    assert_eq!(scan_bits(1 << 63), vec![63]);
    let mut it = bitscan(0b1001u64);
    assert_eq!(it.next(), Some(0));
    assert_eq!(it.next(), Some(3));
    assert_eq!(it.next(), None);
    assert_eq!(it.next(), None);
    let mut it = bitscan(0b0110_0000u8);
    assert_eq!(it.next(), Some(5));
    assert_eq!(it.next(), Some(6));
    assert_eq!(it.next(), None);
    assert_eq!(Bitstring::trailing_zeros(&0u64), 64);
    assert_eq!(Bitstring::trailing_zeros(&0u8), 8);
    let mut byte: u8 = 0xff;
    Bitstring::clear(&mut byte, 3);
    assert_eq!(byte, 0xf7);
}

#[test]
fn helpers() {
    assert_eq!(const_min_u8(3, 7), 3);
    assert_eq!(const_min_u8(7, 3), 3);
    assert_eq!(const_min_u8(4, 4), 4);
    assert_eq!(pick(true, 'a', 'b'), 'a');
    assert_eq!(pick(false, 'a', 'b'), 'b');
    let mut best: Max<char> = Max::new(-5);
    assert_eq!(best.item(), None);
    assert_eq!(best.value(), -5);
    best.push('a', -6);
    assert_eq!(best.item(), None);
    best.push('b', 2);
    best.push('c', 1);
    assert_eq!((best.item(), best.value()), (Some('b'), 2));
    best.push('d', 2);
    assert_eq!((best.item(), best.value()), (Some('d'), 2));
    let mut counter: PushCount<u8> = PushCount::new();
    counter.push(9);
    counter.push(9);
    assert_eq!(counter.count(), 2);
}

#[test]
fn segments_of_the_move_buffer() {
    let mut buf: SegVec<u8> = SegVec::new();
    assert!(buf.is_empty());
    buf.push(1);
    buf.push(2);
    assert_eq!(buf.len(), 2);
    let mark = buf.extend();
    assert!(buf.is_empty());
    assert_eq!(buf.pop(), None);
    buf.push(3);
    buf.push(4);
    buf.push(5);
    assert_eq!(buf.as_slice(), &[3, 4, 5]);
    assert_eq!(buf.swap_remove(0), 3);
    assert_eq!(buf.as_slice(), &[5, 4]);
    assert_eq!(buf.pop(), Some(4));
    let inner = buf.extend();
    buf.push(6);
    buf.release(inner);
    assert_eq!(buf.as_slice(), &[5]);
    buf.release(mark);
    assert_eq!(buf.as_slice(), &[1, 2]);
    assert_eq!(buf.pop(), Some(2));
    assert_eq!(buf.pop(), Some(1));
    assert_eq!(buf.pop(), None);
}

#[test]
fn pieces_and_grid() {
    assert_eq!(Species::Pawn.index(), 0);
    assert_eq!(Species::King.index(), 5);
    for index in 0..6u8 {
        assert_eq!(Species::from_index(index).index(), index);
    }
    assert_eq!(Color::White.index(), 0);
    assert_eq!(Color::Black.index(), 1);
    assert_eq!(Color::from_index(1), Color::Black);
    assert_eq!(Color::White.oppo(), Color::Black);
    assert_eq!(Color::Black.oppo(), Color::White);
    assert_eq!(Color::White.sign(), 1);
    assert_eq!(Color::Black.sign(), -1);
    assert_eq!(Color::White.name(), "White");
    let mut color = Color::White;
    color.swap();
    assert_eq!(color, Color::Black);
    let mut piece = Piece::new(Color::Black, Species::Rook);
    assert_eq!(piece.index(), 7);
    assert_eq!((piece.color(), piece.species()), (Color::Black, Species::Rook));
    piece.set_species(Species::Queen);
    assert_eq!(piece, Piece::new(Color::Black, Species::Queen));
    let mut grid = PieceGrid::empty();
    assert_eq!(grid.data.len(), 32);
    for index in 0..64u8 {
        assert_eq!(grid.get(StandardCoordinate::from_index(index)), None);
    }
    grid.set(sq(0, File::A), Some(Piece::new(Color::White, Species::Rook)));
    grid.set(sq(0, File::B), Some(Piece::new(Color::Black, Species::King)));
    assert_eq!(grid.get(sq(0, File::A)), Some(Piece::new(Color::White, Species::Rook)));
    assert_eq!(grid.get(sq(0, File::B)), Some(Piece::new(Color::Black, Species::King)));
    assert_eq!(grid.data[0], 0xc2);
    grid.set(sq(0, File::A), None);
    assert_eq!(grid.get(sq(0, File::A)), None);
    assert_eq!(grid.get(sq(0, File::B)), Some(Piece::new(Color::Black, Species::King)));
    let mut colors = ColorTable::from_array([1, 2]);
    colors.set(Color::Black, 5);
    assert_eq!((*colors.get(Color::White), *colors.get(Color::Black)), (1, 5));
    let mut species = SpeciesTable::from_array([0u8; 6]);
    species.set(Species::Queen, 9);
    assert_eq!(*species.get(Species::Queen), 9);
    assert_eq!(*species.get(Species::Rook), 0);
}

#[test]
fn ranks_files_and_diagonals() {
    assert_eq!(Rank::base_rank(Color::White).index(), 0);
    assert_eq!(Rank::base_rank(Color::Black).index(), 7);
    assert_eq!(Rank::pawn_rank(Color::White).index(), 1);
    assert_eq!(Rank::pawn_rank(Color::Black).index(), 6);
    assert_eq!(Rank::pdj_rank(Color::White).index(), 3);
    assert_eq!(Rank::pdj_rank(Color::Black).index(), 4);
    assert_eq!(Rank::relative_to(Color::Black, 7).index(), 0);
    assert_eq!(File::E.index(), 4);
    assert_eq!(File::from_index(7), File::H);
    assert_eq!(File::A.letter(), 'A');
    assert_eq!(File::H.letter(), 'H');
    assert_eq!(Side::Queenside.index(), 0);
    assert_eq!(Side::Kingside.index(), 1);
    let e4 = sq(3, File::E);
    assert_eq!(e4.index(), 28);
    assert_eq!((e4.rank().index(), e4.file()), (3, File::E));
    assert_eq!(e4.prodiagonal().index(), 6);
    assert_eq!(e4.prodiagonal_offset(), 3);
    assert_eq!(e4.antidiagonal().index(), 7);
    assert_eq!(e4.antidiagonal_offset(), 3);
    let lengths: Vec<u8> = (0..15u8).map(calc_diag_length).collect();
    assert_eq!(lengths, vec![1, 2, 3, 4, 5, 6, 7, 8, 7, 6, 5, 4, 3, 2, 1]);
    assert_eq!(Prodiagonal::from_index(0).base(), sq(0, File::H));
    assert_eq!(Prodiagonal::from_index(7).base(), sq(0, File::A));
    assert_eq!(Prodiagonal::from_index(14).base(), sq(7, File::A));
    assert_eq!(Prodiagonal::from_index(6).length(), 7);
    assert_eq!(Antidiagonal::from_index(0).base(), sq(0, File::A));
    assert_eq!(Antidiagonal::from_index(7).base(), sq(0, File::H));
    assert_eq!(Antidiagonal::from_index(14).base(), sq(7, File::H));
    assert_eq!((Antidiagonal::from_index(9).base_rank().index(), Antidiagonal::from_index(9).base_file()), (2, File::H));
    assert_eq!((Prodiagonal::from_index(9).base_rank().index(), Prodiagonal::from_index(9).base_file()), (2, File::A));
}

fn is_permutation<C: CoordinateSystem>() {
    let mut seen = [false; 64];
    for index in 0..64u8 {
        let pos = StandardCoordinate::from_index(index);
        let coord = C::encode(pos);
        assert!(coord < 64);
        assert!(!seen[usize::from(coord)]);
        seen[usize::from(coord)] = true;
        assert_eq!(C::decode(coord), pos);
        assert_eq!(Coordinate::<C>::from_std(pos).to_std(), pos);
        let lane = C::get_lane(pos);
        assert!(lane.local_origin < lane.length && lane.length <= 8);
        assert_eq!(C::encode(lane.base) + lane.local_origin, coord);
    }
}

#[test]
fn traversals_renumber_the_tiles() {
    is_permutation::<RankMajorCS>();
    is_permutation::<FileMajorCS>();
    is_permutation::<ProdiagonalMajorCS>();
    is_permutation::<AntidiagonalMajorCS>();
    assert_eq!((RankMajorCS::slot(), FileMajorCS::slot()), (0, 1));
    assert_eq!((ProdiagonalMajorCS::slot(), AntidiagonalMajorCS::slot()), (2, 3));
    assert_eq!(RankMajorCS::encode(sq(3, File::E)), 28);
    assert_eq!(FileMajorCS::encode(sq(3, File::E)), 35);
    assert_eq!(FileMajorCS::encode(sq(7, File::A)), 7);
    assert_eq!(ProdiagonalMajorCS::encode(sq(0, File::H)), 0);
    assert_eq!(ProdiagonalMajorCS::encode(sq(0, File::G)), 1);
    assert_eq!(ProdiagonalMajorCS::encode(sq(1, File::H)), 2);
    assert_eq!(ProdiagonalMajorCS::encode(sq(3, File::E)), 24);
    assert_eq!(ProdiagonalMajorCS::encode(sq(7, File::A)), 63);
    assert_eq!(AntidiagonalMajorCS::encode(sq(0, File::A)), 0);
    assert_eq!(AntidiagonalMajorCS::encode(sq(0, File::B)), 1);
    assert_eq!(AntidiagonalMajorCS::encode(sq(1, File::A)), 2);
    assert_eq!(AntidiagonalMajorCS::encode(sq(3, File::E)), 31);
    assert_eq!(AntidiagonalMajorCS::encode(sq(7, File::H)), 63);
    let sums: Vec<u8> = (0..9u8).map(triangle_num).collect();
    assert_eq!(sums, vec![0, 1, 3, 6, 10, 15, 21, 28, 36]);
    assert_eq!(calc_diag_coord(8, 0), 36);
    assert_eq!(calc_diag_coord(14, 0), 63);
    assert_eq!(calc_diag_coord(7, 7), 35);
}

#[test]
fn relative_numbering() {
    assert_eq!(relativize(sq(1, File::E), Color::White), 12);
    assert_eq!(relativize(sq(1, File::E), Color::Black), 52);
    assert_eq!(relativize(sq(6, File::A), Color::Black), 8);
    assert_eq!(absolutize(52, Color::Black), sq(1, File::E));
    for index in 0..64u8 {
        for color in [Color::White, Color::Black] {
            assert_eq!(relativize(absolutize(index, color), color), index);
        }
    }
}

#[test]
fn bitboard_operations() {
    let mut bb: Bitboard<RankMajorCS> = Bitboard::empty();
    assert!(!bb.is_not_empty());
    bb.set(Coordinate::from_index(3));
    bb.set(Coordinate::from_index(40));
    assert_eq!(bb.raw(), (1 << 3) | (1 << 40));
    assert_eq!(bb.count(), 2);
    assert!(bb.includes(Coordinate::from_index(40)));
    assert!(!bb.includes(Coordinate::from_index(41)));
    let found: Vec<u8> = bb.scan().iter().map(|c| c.index()).collect();
    assert_eq!(found, vec![3, 40]);
    bb.unset(Coordinate::from_index(3));
    assert_eq!(bb.single().index(), 40);
    let other: Bitboard<RankMajorCS> = Bitboard::from_raw(0b1100);
    let low: Bitboard<RankMajorCS> = Bitboard::from_raw(0b0110);
    assert_eq!(other.bitand(low).raw(), 0b0100);
    assert_eq!(other.bitor(low).raw(), 0b1110);
    assert_eq!(other.not().raw(), !0b1100u64);
    let mut flipped = other;
    flipped.invert();
    assert_eq!(flipped.raw(), !0b1100u64);
    let wide: Bitboard<RankMajorCS> = Bitboard::from_raw(0x0000_0000_00ab_cd00);
    assert_eq!(wide.copy_bitlane(Coordinate::from_index(8)), 0xcd);
    assert_eq!(wide.copy_bitlane(Coordinate::from_index(12)), 0xbc);
    assert_eq!(Bitboard::<RankMajorCS>::from_raw(1 << 63).copy_bitlane(Coordinate::from_index(60)), 0b1000);
    assert_eq!(Bitboard::<RankMajorCS>::from_bitlane(Coordinate::from_index(16), 0xff, 3).raw(), 0b111 << 16);
    assert_eq!(Bitboard::<RankMajorCS>::from_bitlane(Coordinate::from_index(56), 0x81, 8).raw(), 0x81 << 56);
    assert_eq!(Bitboard::<RankMajorCS>::from_bitlane(Coordinate::from_index(5), 0xff, 0).raw(), 0);
    let mut md = MDBitboard::empty();
    md.set(sq(3, File::E));
    assert_eq!(md.get::<RankMajorCS>().raw(), 1 << 28);
    assert_eq!(md.get::<FileMajorCS>().raw(), 1 << 35);
    assert_eq!(md.get::<ProdiagonalMajorCS>().raw(), 1 << 24);
    assert_eq!(md.get::<AntidiagonalMajorCS>().raw(), 1 << 31);
    md.set(sq(0, File::A));
    md.unset(sq(3, File::E));
    assert_eq!(md.get::<RankMajorCS>().raw(), 1);
    assert_eq!(md.get::<ProdiagonalMajorCS>().raw(), 1 << 28);
}

#[test]
fn sliding_in_a_lane() {
    // An empty lane: everything but the origin.
    assert_eq!(slidescan(3, 0), 0b1111_0111);
    assert_eq!(slidelimit(3, 0), 0);
    // Blockers on cells 1 and 6; the blocker on cell 0 is hidden.
    assert_eq!(slidescan(3, 0b0100_0011), 0b0111_0110);
    assert_eq!(slidelimit(3, 0b0100_0011), 0b0100_0010);
    // The origin's own bit does not block.
    assert_eq!(slidescan(3, 0b0000_1000), 0b1111_0111);
    // At the edges.
    assert_eq!(slidescan(0, 0b0000_0100), 0b0000_0110);
    assert_eq!(slidelimit(0, 0b0000_0100), 0b0000_0100);
    assert_eq!(slidescan(7, 0b0001_0000), 0b0111_0000);
    assert_eq!(slidelimit(7, 0), 0);
    // Neighbours block at once.
    assert_eq!(slidescan(4, 0b0010_1000), 0b0010_1000);
    assert_eq!(slidelimit(4, 0b0010_1000), 0b0010_1000);
    for origin in 0..8u8 {
        for occ in 0..=255u8 {
            assert_eq!(get_slidescan(origin, occ), slidescan(origin, occ));
            assert_eq!(get_slidelimit(origin, occ), slidelimit(origin, occ));
            assert_eq!(slidelimit(origin, occ), slidescan(origin, occ) & occ & !(1 << origin));
        }
    }
}

#[test]
fn sliding_on_the_board() {
    let game = new_std_chess_position();
    let a1 = sq(0, File::A);
    assert_eq!(lanescan::<RankMajorCS>(&game.bbs, a1).raw(), 1 << 1);
    assert_eq!(lanescan::<FileMajorCS>(&game.bbs, a1).raw(), 1 << 1);
    let e4 = sq(3, File::E);
    let rank: Vec<StandardCoordinate> = lanescan::<RankMajorCS>(&game.bbs, e4).scan().iter().map(|c| c.to_std()).collect();
    assert_eq!(rank.len(), 7);
    let file: Vec<StandardCoordinate> = lanescan::<FileMajorCS>(&game.bbs, e4).scan().iter().map(|c| c.to_std()).collect();
    assert_eq!(file, vec![sq(1, File::E), sq(2, File::E), sq(4, File::E), sq(5, File::E), sq(6, File::E)]);
    let up_right: Vec<StandardCoordinate> =
        lanescan::<ProdiagonalMajorCS>(&game.bbs, e4).scan().iter().map(|c| c.to_std()).collect();
    assert_eq!(up_right, vec![sq(1, File::C), sq(2, File::D), sq(4, File::F), sq(5, File::G), sq(6, File::H)]);
    let up_left: Vec<StandardCoordinate> =
        lanescan::<AntidiagonalMajorCS>(&game.bbs, e4).scan().iter().map(|c| c.to_std()).collect();
    assert_eq!(up_left, vec![sq(1, File::G), sq(2, File::F), sq(4, File::D), sq(5, File::C), sq(6, File::B)]);
    let limits: Vec<StandardCoordinate> =
        lanelimit::<FileMajorCS>(&game.bbs, e4).scan().iter().map(|c| c.to_std()).collect();
    assert_eq!(limits, vec![sq(1, File::E), sq(6, File::E)]);
    assert_eq!(lanelimit::<RankMajorCS>(&game.bbs, e4).raw(), 0);
}

#[test]
fn attack_masks() {
    assert_eq!(king_attack(Coordinate::from_std(sq(0, File::A))).raw(), tiles(&[(0, File::B), (1, File::A), (1, File::B)]));
    assert_eq!(
        king_attack(Coordinate::from_std(sq(3, File::E))).raw(),
        tiles(&[
            (2, File::D), (2, File::E), (2, File::F), (3, File::D), (3, File::F), (4, File::D), (4, File::E),
            (4, File::F)
        ])
    );
    assert_eq!(king_attack(Coordinate::from_std(sq(7, File::H))).raw(), tiles(&[(7, File::G), (6, File::G), (6, File::H)]));
    assert_eq!(knight_attack(Coordinate::from_std(sq(0, File::A))).raw(), tiles(&[(1, File::C), (2, File::B)]));
    assert_eq!(
        knight_attack(Coordinate::from_std(sq(3, File::E))).raw(),
        tiles(&[
            (1, File::D), (1, File::F), (2, File::C), (2, File::G), (4, File::C), (4, File::G), (5, File::D),
            (5, File::F)
        ])
    );
    assert_eq!(knight_attack(Coordinate::from_std(sq(0, File::G))).raw(), tiles(&[(1, File::E), (2, File::F), (2, File::H)]));
    assert_eq!(pawn_attack(12), (1 << 19) | (1 << 21));
    assert_eq!(pawn_attack(8), 1 << 17);
    assert_eq!(pawn_attack(60), 0);
    assert_eq!(reverse_pawn_attack(28), (1 << 19) | (1 << 21));
    assert_eq!(reverse_pawn_attack(24), 1 << 17);
    assert_eq!(reverse_pawn_attack(4), 0);
}

fn lone_attacker(species: Species, at: StandardCoordinate) -> ChessGame {
    let mut game = ChessGame::new(HashChars::new([2u8; 32]));
    fill_tile(&mut game, sq(0, File::A), Piece::new(Color::White, Species::King));
    fill_tile(&mut game, sq(7, File::H), Piece::new(Color::Black, Species::King));
    fill_tile(&mut game, at, Piece::new(Color::Black, species));
    game
}

#[test]
fn attack_oracle() {
    let e4 = sq(3, File::E);
    let game = lone_attacker(Species::Pawn, sq(4, File::D));
    let query = AttackQuery { board: &game.bbs, vuln_sq: e4 };
    assert!(is_attacked_pawn(query));
    assert!(is_attacked(&game.bbs, e4));
    assert!(!is_attacked(&game.bbs, sq(5, File::E)));
    assert!(!is_attacked(&game.bbs, sq(4, File::E)));
    assert!(is_attacked(&game.bbs, sq(3, File::C)));
    let game = lone_attacker(Species::Knight, sq(5, File::F));
    assert!(is_attacked_knight(AttackQuery { board: &game.bbs, vuln_sq: e4 }));
    assert!(is_attacked(&game.bbs, e4));
    assert!(!is_attacked(&game.bbs, sq(4, File::E)));
    let game = lone_attacker(Species::Rook, sq(3, File::A));
    assert!(is_attacked_rankslide(AttackQuery { board: &game.bbs, vuln_sq: e4 }));
    assert!(!is_attacked_fileslide(AttackQuery { board: &game.bbs, vuln_sq: e4 }));
    assert!(is_attacked(&game.bbs, e4));
    assert!(is_attacked(&game.bbs, sq(6, File::A)));
    assert!(!is_attacked(&game.bbs, sq(4, File::B)));
    let game = lone_attacker(Species::Rook, sq(6, File::E));
    assert!(is_attacked_fileslide(AttackQuery { board: &game.bbs, vuln_sq: e4 }));
    let game = lone_attacker(Species::Bishop, sq(6, File::H));
    assert!(is_attacked_prodiag_slide(AttackQuery { board: &game.bbs, vuln_sq: e4 }));
    assert!(!is_attacked_antidiag_slide(AttackQuery { board: &game.bbs, vuln_sq: e4 }));
    assert!(!is_attacked(&game.bbs, sq(3, File::F)));
    let game = lone_attacker(Species::Bishop, sq(6, File::B));
    assert!(is_attacked_antidiag_slide(AttackQuery { board: &game.bbs, vuln_sq: e4 }));
    let game = lone_attacker(Species::Queen, sq(3, File::H));
    assert!(is_attacked(&game.bbs, e4));
    assert!(is_attacked(&game.bbs, sq(0, File::E)));
    let mut game = lone_attacker(Species::Queen, sq(3, File::H));
    // A piece in between shields the tile.
    fill_tile(&mut game, sq(3, File::G), Piece::new(Color::White, Species::Pawn));
    assert!(!is_attacked(&game.bbs, e4));
    assert!(is_attacked(&game.bbs, sq(3, File::G)));
    let game = lone_attacker(Species::Pawn, sq(5, File::A));
    assert!(is_attacked_king(AttackQuery { board: &game.bbs, vuln_sq: sq(6, File::G) }));
    assert!(!is_attacked_king(AttackQuery { board: &game.bbs, vuln_sq: sq(5, File::G) }));
    // The side's own pieces do not attack its tiles.
    let game = new_std_chess_position();
    assert!(!is_attacked(&game.bbs, sq(2, File::E)));
    assert!(is_attacked(&game.bbs, sq(5, File::E)));
}

#[test]
fn kings_are_located() {
    let mut game = new_std_chess_position();
    assert_eq!(locate_king_stdc(&game.bbs, Color::White), sq(0, File::E));
    assert_eq!(locate_king_stdc(&game.bbs, Color::Black), sq(7, File::E));
    assert_eq!(locate_king::<FileMajorCS>(&game.bbs, Color::Black).index(), 39);
    assert!(!game.bbs.is_check());
    apply_gstr(&mut game, "E2:E4; E7:E5; E1:E2").unwrap();
    assert_eq!(locate_king_stdc(&game.bbs, Color::White), sq(1, File::E));
    let empty = Bitboards::new();
    assert_eq!(empty.active_player, Color::White);
    assert_eq!(empty.rel_occupancy(), 0);
    assert_eq!(empty.occupancy::<RankMajorCS>().raw(), 0);
    assert_eq!(game.bbs.class::<RankMajorCS>(Color::White, Species::King).raw(), 1 << 12);
}

#[test]
fn castling_rights_word() {
    let mut rights = CastlingRights::none();
    assert_eq!(rights.data(), 0);
    rights.set(Side::Kingside, Color::White, true);
    assert_eq!(rights.data(), 0b0010);
    rights.set(Side::Queenside, Color::Black, true);
    assert_eq!(rights.data(), 0b0110);
    assert!(rights.get(Side::Kingside, Color::White));
    assert!(!rights.get(Side::Queenside, Color::White));
    rights.set(Side::Kingside, Color::White, false);
    assert_eq!(rights.data(), 0b0100);
    let mut rights = CastlingRights::initial();
    assert_eq!(rights.data(), 0b1111);
    rights.revoke(Color::White);
    assert_eq!(rights.data(), 0b1100);
    rights.revoke(Color::Black);
    assert_eq!(rights, CastlingRights::none());
    // A rook that leaves home takes its wing's right with it.
    let mut game = new_std_chess_position();
    apply_gstr(&mut game, "A2:A4; A7:A5; A1:A3").unwrap();
    assert_eq!(game.crights.data(), 0b1110);
    // A rook that is captured at home does too.
    let mut game = new_std_chess_position();
    apply_gstr(&mut game, "G2:G3; B7:B6; F1:G2; C8:B7; G2:B7; B8:C6; B7:A8").unwrap();
    assert_eq!(game.crights.data(), 0b1011);
    update_crights_all(&mut game);
    assert_eq!(game.crights.data(), 0b1011);
}

#[test]
fn tiles_are_filled_and_cleared() {
    let mut game = ChessGame::new(HashChars::new([4u8; 32]));
    let empty = game.clone();
    assert_eq!(game.active_player(), Color::White);
    let queen = Piece::new(Color::Black, Species::Queen);
    fill_tile(&mut game, sq(3, File::E), queen);
    assert_eq!(game.p_lut.get(sq(3, File::E)), Some(queen));
    assert_eq!(game.hash.value(), empty.hash.value() ^ game.hash.chs.piece_placements[28 * 12 + 10]);
    clear_tile(&mut game, sq(3, File::E));
    assert!(game == empty);
    clear_tile(&mut game, sq(3, File::E));
    assert!(game == empty);
    swap_active(&mut game);
    assert_eq!(game.active_player(), Color::Black);
    assert_eq!(game.hash.value(), empty.hash.value() ^ game.hash.chs.active);
    swap_active(&mut game);
    assert!(game == empty);
}

#[test]
fn capture_target_differs_only_en_passant() {
    let mut game = new_std_chess_position();
    apply_gstr(&mut game, "E2:E4; A7:A6; E4:E5; D7:D5;").unwrap();
    let en_passant = PieceMove::new_basic(sq(4, File::E), sq(5, File::D));
    assert_eq!(get_target_sq(en_passant, &game), sq(4, File::D));
    let advance = PieceMove::new_basic(sq(4, File::E), sq(5, File::E));
    assert_eq!(get_target_sq(advance, &game), sq(5, File::E));
    assert!(can_apply(&game, en_passant));
    assert!(test_pmove_legality(&mut game, en_passant));
    // A move of the opponent's piece, of no piece, onto an own piece.
    assert!(!can_apply(&game, PieceMove::new_basic(sq(6, File::H), sq(5, File::H))));
    assert!(!can_apply(&game, PieceMove::new_basic(sq(3, File::A), sq(4, File::A))));
    assert!(!can_apply(&game, PieceMove::new_basic(sq(0, File::A), sq(1, File::A))));
    // A promotion of a piece that is no pawn, and to a king.
    let knight = PieceMove { origin: sq(0, File::G), destin: sq(2, File::F), promote: Some(Species::Queen) };
    assert!(!can_apply(&game, knight));
    let crowned = PieceMove { origin: sq(4, File::E), destin: sq(5, File::E), promote: Some(Species::King) };
    assert!(!can_apply(&game, crowned));
}

#[test]
fn fingerprint_constants_come_from_the_seed() {
    let a = HashChars::new([1u8; 32]);
    let b = HashChars::new([1u8; 32]);
    let c = HashChars::new([2u8; 32]);
    assert!(a == b);
    assert!(a != c);
    assert!(a.piece_placements.iter().any(|word| *word != 0));
    assert_ne!(a.piece_placements[0], a.piece_placements[1]);
    assert_ne!(a.crights[0], a.crights[15]);
    assert_ne!(a.active, 0);
    let words: Vec<u64> = (0..794u64).collect();
    let laid = HashChars::from_words(&words);
    assert_eq!(laid.piece_placements[767], 767);
    assert_eq!(laid.crights[0], 768);
    assert_eq!(laid.ep_vuln[8], 792);
    assert_eq!(laid.active, 793);
    let r1 = HashChars::new_random();
    let r2 = HashChars::new_random();
    assert!(r1 != r2);
    let mut hash = IncrementalHash::new(laid);
    assert_eq!(hash.value(), 0);
    hash.toggle_tile(sq(0, File::B), Piece::new(Color::White, Species::Rook));
    assert_eq!(hash.value(), 13);
    hash.toggle_active();
    assert_eq!(hash.value(), 13 ^ 793);
    hash.toggle_crights(CastlingRights::initial());
    assert_eq!(hash.value(), 13 ^ 793 ^ 783);
    hash.toggle_ep_vuln(Some(File::A));
    assert_eq!(hash.value(), 13 ^ 793 ^ 783 ^ 785);
    hash.toggle_ep_vuln(None);
    assert_eq!(hash.value(), 13 ^ 793 ^ 783 ^ 785 ^ 784);
}
