//! The invariants of the board, checked on concrete games.

use chess_solver_3::bits::swap_bytes_u64;
use chess_solver_3::cache::HashChars;
use chess_solver_3::coordinates::{AntidiagonalMajorCS, Coordinate, FileMajorCS, ProdiagonalMajorCS, RankMajorCS};
use chess_solver_3::enpassant::is_enpassant_vuln;
use chess_solver_3::gamestate::{fold_hash, ChessGame};
use chess_solver_3::grid::{File, Rank, Side, StandardCoordinate};
use chess_solver_3::makemove::{fill_tile, make_move, swap_active, unmake_move};
use chess_solver_3::mov::{AnyMove, PieceMove};
use chess_solver_3::movegen::dispatch::{legal_moves, pseudo_legal_moves};
use chess_solver_3::persistence::{apply_gstr, LoadGameErr};
use chess_solver_3::piece::{Color, Piece, Species};
use chess_solver_3::stdinit::{new_std_chess_position, std_chess_position};

const GAME: &str = "E2:E4; E7:E5; G1:F3; B8:C6; F1:C4; F8:C5; CastleKingside; G8:F6; D2:D3; D7:D6; \
    C1:G5; H7:H6; G5:F6; D8:F6; B1:C3; C8:G4; C3:D5; F6:D8; C2:C3; CastleKingside;";

fn sq(rank: u8, file: File) -> StandardCoordinate {
    StandardCoordinate::new(Rank::from_index(rank), file)
}

fn species_all() -> [Species; 6] {
    [Species::Pawn, Species::Rook, Species::Knight, Species::Bishop, Species::Queen, Species::King]
}

fn check_coherence(game: &ChessGame) {
    for index in 0..64u8 {
        let pos = StandardCoordinate::from_index(index);
        let content = game.p_lut.get(pos);
        for color in [Color::White, Color::Black] {
            let board = game.bbs.affilia_bbs.get(color);
            let expect = matches!(content, Some(p) if p.color() == color);
            assert_eq!(board.get::<RankMajorCS>().includes(Coordinate::from_std(pos)), expect);
            assert_eq!(board.get::<FileMajorCS>().includes(Coordinate::from_std(pos)), expect);
            assert_eq!(board.get::<ProdiagonalMajorCS>().includes(Coordinate::from_std(pos)), expect);
            assert_eq!(board.get::<AntidiagonalMajorCS>().includes(Coordinate::from_std(pos)), expect);
        }
        for species in species_all() {
            let board = game.bbs.species_bbs.get(species);
            let expect = matches!(content, Some(p) if p.species() == species);
            assert_eq!(board.get::<RankMajorCS>().includes(Coordinate::from_std(pos)), expect);
            assert_eq!(board.get::<FileMajorCS>().includes(Coordinate::from_std(pos)), expect);
            assert_eq!(board.get::<ProdiagonalMajorCS>().includes(Coordinate::from_std(pos)), expect);
            assert_eq!(board.get::<AntidiagonalMajorCS>().includes(Coordinate::from_std(pos)), expect);
        }
    }
}

fn check_relative(game: &ChessGame) {
    let white = game.bbs.affilia_bbs.get(Color::White).get::<RankMajorCS>().raw();
    let black = game.bbs.affilia_bbs.get(Color::Black).get::<RankMajorCS>().raw();
    let pawns = game.bbs.species_bbs.get(Species::Pawn).get::<RankMajorCS>().raw();
    let turn = |x: u64| if game.active_player() == Color::Black { swap_bytes_u64(x) } else { x };
    assert_eq!(*game.bbs.affilia_rel_bbs.get(Color::White), turn(white));
    assert_eq!(*game.bbs.affilia_rel_bbs.get(Color::Black), turn(black));
    assert_eq!(game.bbs.pawn_rel_bb, turn((white | black) & pawns));
}

fn full_hash(game: &ChessGame) -> u64 {
    let chs = &game.hash.chs;
    let mut hash: u64 = 0;
    for index in 0..64u8 {
        if let Some(piece) = game.p_lut.get(StandardCoordinate::from_index(index)) {
            hash ^= chs.piece_placements[usize::from(index) * 12 + usize::from(piece.index())];
        }
    }
    hash ^= chs.crights[usize::from(game.crights.data())];
    hash ^= match is_enpassant_vuln(game) {
        None => chs.ep_vuln[0],
        Some(file) => chs.ep_vuln[usize::from(file.index()) + 1],
    };
    if game.active_player() == Color::Black {
        hash ^= chs.active;
    }
    hash
}

fn play_checked(transcript: &str) -> ChessGame {
    let mut game = new_std_chess_position();
    check_coherence(&game);
    check_relative(&game);
    assert_eq!(game.hash.value(), full_hash(&game));
    for token in transcript.split(';') {
        apply_gstr(&mut game, token).unwrap();
        check_coherence(&game);
        check_relative(&game);
        assert_eq!(game.hash.value(), full_hash(&game));
        assert_eq!(game.hash.value(), fold_hash(&game));
    }
    game
}

#[test]
fn grid_and_bitboards_agree_after_every_move() {
    play_checked(GAME);
    play_checked("E2:E4; A7:A6; E4:E5; D7:D5; E5:D6; C7:D6;");
}

#[test]
fn relative_boards_follow_the_side_to_move() {
    let mut game = new_std_chess_position();
    check_relative(&game);
    apply_gstr(&mut game, "E2:E4").unwrap();
    assert_eq!(game.active_player(), Color::Black);
    check_relative(&game);
    let white = game.bbs.affilia_bbs.get(Color::White).get::<RankMajorCS>().raw();
    assert_eq!(white, 0x0000_0000_1000_efff);
    assert_eq!(*game.bbs.affilia_rel_bbs.get(Color::White), 0xffef_0010_0000_0000);
}

#[test]
fn incremental_hash_is_the_full_fold() {
    let game = play_checked(GAME);
    assert_eq!(game.hash.value(), full_hash(&game));
    let mut game = new_std_chess_position();
    apply_gstr(&mut game, "E2:E4; A7:A6; E4:E5; D7:D5;").unwrap();
    assert_eq!(is_enpassant_vuln(&game), Some(File::D));
    assert_eq!(game.hash.value(), full_hash(&game));
}

#[test]
fn hash_depends_on_position_not_on_path() {
    let seed = [7u8; 32];
    let mut a = std_chess_position(HashChars::new(seed));
    let mut b = std_chess_position(HashChars::new(seed));
    apply_gstr(&mut a, "G1:F3; G8:F6; B1:C3; B8:C6").unwrap();
    apply_gstr(&mut b, "B1:C3; B8:C6; G1:F3; G8:F6").unwrap();
    assert_eq!(a.hash.value(), b.hash.value());
    apply_gstr(&mut b, "A2:A3").unwrap();
    assert_ne!(a.hash.value(), b.hash.value());
}

#[test]
fn make_then_unmake_restores_every_legal_move() {
    let mut game = new_std_chess_position();
    apply_gstr(&mut game, GAME).unwrap();
    let before = game.clone();
    let moves = legal_moves(&mut game);
    assert!(game == before);
    assert!(!moves.is_empty());
    for genmove in moves.iter() {
        make_move(&mut game, genmove.mov);
        assert!(game != before);
        unmake_move(&mut game);
        assert!(game == before);
    }
}

#[test]
fn make_then_unmake_restores_promotion_and_capture() {
    let mut game = ChessGame::new(HashChars::new([3u8; 32]));
    fill_tile(&mut game, sq(0, File::E), Piece::new(Color::White, Species::King));
    fill_tile(&mut game, sq(7, File::E), Piece::new(Color::Black, Species::King));
    fill_tile(&mut game, sq(6, File::A), Piece::new(Color::White, Species::Pawn));
    fill_tile(&mut game, sq(7, File::B), Piece::new(Color::Black, Species::Rook));
    let before = game.clone();
    let promote = AnyMove::Piece(PieceMove { origin: sq(6, File::A), destin: sq(7, File::B), promote: Some(Species::Queen) });
    let moves = legal_moves(&mut game);
    assert!(moves.iter().any(|g| g.mov == promote));
    make_move(&mut game, promote);
    assert_eq!(game.p_lut.get(sq(7, File::B)), Some(Piece::new(Color::White, Species::Queen)));
    assert_eq!(game.p_lut.get(sq(6, File::A)), None);
    assert_eq!(game.halfmoveclock, 0);
    unmake_move(&mut game);
    assert!(game == before);
}

#[test]
fn legal_moves_are_pseudo_legal_moves_that_keep_the_king_safe() {
    let mut game = new_std_chess_position();
    // The bishop on B5 pins the knight on C6 against the black king.
    apply_gstr(&mut game, "E2:E4; E7:E5; G1:F3; B8:C6; F1:B5; D7:D6; D2:D4").unwrap();
    let legal = legal_moves(&mut game);
    let pseudo = pseudo_legal_moves(&mut game);
    for genmove in legal.iter() {
        assert!(pseudo.iter().any(|g| g.mov == genmove.mov));
    }
    let mut dropped = 0;
    for genmove in pseudo.iter() {
        let kept = legal.iter().any(|g| g.mov == genmove.mov);
        let safe = match genmove.mov {
            AnyMove::Castle(_) => true,
            AnyMove::Piece(_) => {
                make_move(&mut game, genmove.mov);
                // The mover's king is now the king of the side not to move.
                swap_active(&mut game);
                let check = game.bbs.is_check();
                swap_active(&mut game);
                unmake_move(&mut game);
                !check
            }
        };
        assert_eq!(kept, safe);
        if !kept {
            dropped += 1;
        }
    }
    // Every move of the pinned knight on C6 is dropped.
    assert!(dropped >= 4);
    let knight_leaves = AnyMove::Piece(PieceMove::new_basic(sq(5, File::C), sq(3, File::D)));
    assert!(pseudo.iter().any(|g| g.mov == knight_leaves));
    assert!(!legal.iter().any(|g| g.mov == knight_leaves));
}

#[test]
fn initial_position_has_twenty_legal_moves() {
    let mut game = new_std_chess_position();
    let moves = legal_moves(&mut game);
    assert_eq!(moves.len(), 20);
    for (i, genmove) in moves.iter().enumerate() {
        assert_eq!(usize::from(genmove.gen_id), i);
    }
    apply_gstr(&mut game, "E2:E4").unwrap();
    assert_eq!(legal_moves(&mut game).len(), 20);
}

fn has_castle(game: &mut ChessGame, side: Side) -> bool {
    legal_moves(game).iter().any(|g| g.mov == AnyMove::Castle(side))
}

#[test]
fn castling_needs_every_condition() {
    // All conditions hold.
    let mut game = new_std_chess_position();
    apply_gstr(&mut game, "E2:E4; E7:E5; F1:E2; F8:E7; G1:F3; G8:F6;").unwrap();
    assert!(has_castle(&mut game, Side::Kingside));
    assert!(!has_castle(&mut game, Side::Queenside));
    // A piece in the way.
    let mut game = new_std_chess_position();
    apply_gstr(&mut game, "E2:E4; E7:E5; F1:E2; F8:E7; A2:A3; G8:F6;").unwrap();
    assert!(!has_castle(&mut game, Side::Kingside));
    // The right is gone once the king has moved, even if it came back.
    let mut game = new_std_chess_position();
    apply_gstr(&mut game, "E2:E4; E7:E5; F1:E2; F8:E7; G1:F3; G8:F6; E1:F1; A7:A6; F1:E1; A6:A5").unwrap();
    assert!(!has_castle(&mut game, Side::Kingside));
    // The right is gone once the rook has moved, even if it came back.
    let mut game = new_std_chess_position();
    apply_gstr(&mut game, "E2:E4; E7:E5; F1:E2; F8:E7; G1:F3; G8:F6; H1:G1; A7:A6; G1:H1; A6:A5").unwrap();
    assert!(!has_castle(&mut game, Side::Kingside));
    // The tile the king passes over is attacked: a black rook on the open F file.
    let mut game = ChessGame::new(HashChars::new([1u8; 32]));
    fill_tile(&mut game, sq(0, File::E), Piece::new(Color::White, Species::King));
    fill_tile(&mut game, sq(0, File::H), Piece::new(Color::White, Species::Rook));
    fill_tile(&mut game, sq(0, File::A), Piece::new(Color::White, Species::Rook));
    fill_tile(&mut game, sq(7, File::E), Piece::new(Color::Black, Species::King));
    fill_tile(&mut game, sq(7, File::F), Piece::new(Color::Black, Species::Rook));
    game.hash.toggle_crights(game.crights);
    game.crights.set(Side::Kingside, Color::White, true);
    game.crights.set(Side::Queenside, Color::White, true);
    game.hash.toggle_crights(game.crights);
    assert!(!has_castle(&mut game, Side::Kingside));
    assert!(has_castle(&mut game, Side::Queenside));
    // The king is in check: a black rook on the open E file.
    let mut game = ChessGame::new(HashChars::new([1u8; 32]));
    fill_tile(&mut game, sq(0, File::E), Piece::new(Color::White, Species::King));
    fill_tile(&mut game, sq(0, File::H), Piece::new(Color::White, Species::Rook));
    fill_tile(&mut game, sq(7, File::D), Piece::new(Color::Black, Species::King));
    fill_tile(&mut game, sq(7, File::E), Piece::new(Color::Black, Species::Rook));
    game.hash.toggle_crights(game.crights);
    game.crights.set(Side::Kingside, Color::White, true);
    game.hash.toggle_crights(game.crights);
    assert!(!has_castle(&mut game, Side::Kingside));
    // The tile the king lands on is attacked.
    let mut game = ChessGame::new(HashChars::new([1u8; 32]));
    fill_tile(&mut game, sq(0, File::E), Piece::new(Color::White, Species::King));
    fill_tile(&mut game, sq(0, File::H), Piece::new(Color::White, Species::Rook));
    fill_tile(&mut game, sq(7, File::D), Piece::new(Color::Black, Species::King));
    fill_tile(&mut game, sq(7, File::G), Piece::new(Color::Black, Species::Rook));
    game.hash.toggle_crights(game.crights);
    game.crights.set(Side::Kingside, Color::White, true);
    game.hash.toggle_crights(game.crights);
    assert!(!has_castle(&mut game, Side::Kingside));
    // Nothing attacks, and the castle is there.
    let mut game = ChessGame::new(HashChars::new([1u8; 32]));
    fill_tile(&mut game, sq(0, File::E), Piece::new(Color::White, Species::King));
    fill_tile(&mut game, sq(0, File::H), Piece::new(Color::White, Species::Rook));
    fill_tile(&mut game, sq(7, File::D), Piece::new(Color::Black, Species::King));
    fill_tile(&mut game, sq(7, File::A), Piece::new(Color::Black, Species::Rook));
    game.hash.toggle_crights(game.crights);
    game.crights.set(Side::Kingside, Color::White, true);
    game.hash.toggle_crights(game.crights);
    assert!(has_castle(&mut game, Side::Kingside));
}

#[test]
fn castle_kingside_white_scenario() {
    let mut game = new_std_chess_position();
    apply_gstr(&mut game, "E2:E4; E7:E5; F1:E2; F8:E7; G1:F3; G8:F6; CastleKingside;").unwrap();
    assert_eq!(game.p_lut.get(sq(0, File::G)), Some(Piece::new(Color::White, Species::King)));
    assert_eq!(game.p_lut.get(sq(0, File::F)), Some(Piece::new(Color::White, Species::Rook)));
    assert!(!game.crights.get(Side::Kingside, Color::White));
    assert!(!game.crights.get(Side::Queenside, Color::White));
    assert!(game.crights.get(Side::Kingside, Color::Black));
    assert!(game.crights.get(Side::Queenside, Color::Black));
    assert!(*game.has_castled.get(Color::White));
    assert!(!*game.has_castled.get(Color::Black));
}

#[test]
fn castle_queenside_white_scenario() {
    let mut game = new_std_chess_position();
    apply_gstr(
        &mut game,
        "E2:E3; E7:E6; D2:D3; D7:D6; D1:E2; D8:E7; C1:D2; C8:D7; B1:C3; B8:C6; CastleQueenside;",
    )
    .unwrap();
    assert_eq!(game.p_lut.get(sq(0, File::C)), Some(Piece::new(Color::White, Species::King)));
    assert_eq!(game.p_lut.get(sq(0, File::D)), Some(Piece::new(Color::White, Species::Rook)));
    assert!(!game.crights.get(Side::Kingside, Color::White));
    assert!(!game.crights.get(Side::Queenside, Color::White));
}

#[test]
fn en_passant_is_enabled_by_the_double_jump() {
    let mut game = new_std_chess_position();
    apply_gstr(&mut game, "E2:E4; A7:A6; E4:E5; D7:D5;").unwrap();
    assert_eq!(is_enpassant_vuln(&game), Some(File::D));
    let capture = AnyMove::Piece(PieceMove::new_basic(sq(4, File::E), sq(5, File::D)));
    assert!(legal_moves(&mut game).iter().any(|g| g.mov == capture));
    apply_gstr(&mut game, "E5:D6").unwrap();
    assert_eq!(game.p_lut.get(sq(4, File::D)), None);
    assert_eq!(game.p_lut.get(sq(5, File::D)), Some(Piece::new(Color::White, Species::Pawn)));
    assert_eq!(game.p_lut.get(sq(4, File::E)), None);
    assert_eq!(game.halfmoveclock, 0);
}

#[test]
fn en_passant_expires_after_one_move() {
    let mut game = new_std_chess_position();
    apply_gstr(&mut game, "E2:E4; A7:A6; E4:E5; D7:D5; H2:H3; H7:H6").unwrap();
    assert_eq!(is_enpassant_vuln(&game), None);
    let capture = AnyMove::Piece(PieceMove::new_basic(sq(4, File::E), sq(5, File::D)));
    assert!(!legal_moves(&mut game).iter().any(|g| g.mov == capture));
    assert_eq!(
        apply_gstr(&mut game, "E5:D6"),
        Err(LoadGameErr::IllegalMove(capture))
    );
}

#[test]
fn en_passant_round_trip_both_colors() {
    let mut white = new_std_chess_position();
    apply_gstr(&mut white, "E2:E4; A7:A6; E4:E5; D7:D5;").unwrap();
    let before = white.clone();
    make_move(&mut white, AnyMove::Piece(PieceMove::new_basic(sq(4, File::E), sq(5, File::D))));
    assert_eq!(white.p_lut.get(sq(4, File::D)), None);
    unmake_move(&mut white);
    assert!(white == before);
    let mut black = new_std_chess_position();
    apply_gstr(&mut black, "E2:E4; A7:A5; D2:D4; A5:A4; B2:B4; ").unwrap();
    let before = black.clone();
    make_move(&mut black, AnyMove::Piece(PieceMove::new_basic(sq(3, File::A), sq(2, File::B))));
    assert_eq!(black.p_lut.get(sq(3, File::B)), None);
    assert_eq!(black.p_lut.get(sq(2, File::B)), Some(Piece::new(Color::Black, Species::Pawn)));
    unmake_move(&mut black);
    assert!(black == before);
}

#[test]
fn castling_rights_never_come_back() {
    let mut game = new_std_chess_position();
    let mut rights = game.crights.data();
    for token in GAME.split(';') {
        apply_gstr(&mut game, token).unwrap();
        let now = game.crights.data();
        assert_eq!(now & !rights, 0);
        rights = now;
    }
    assert_eq!(rights, 0);
}

fn assert_listed_once(game: &mut ChessGame) {
    let moves = legal_moves(game);
    for (i, a) in moves.iter().enumerate() {
        for b in moves[i + 1..].iter() {
            assert!(a.mov != b.mov);
        }
    }
    let unfiltered = pseudo_legal_moves(game);
    for (i, a) in unfiltered.iter().enumerate() {
        for b in unfiltered[i + 1..].iter() {
            assert!(a.mov != b.mov);
        }
    }
}

#[test]
fn no_move_is_listed_twice() {
    let mut game = new_std_chess_position();
    assert_listed_once(&mut game);
    let mut game = play_checked(GAME);
    assert_listed_once(&mut game);
    // A queen in the open moves along all four kinds of line.
    let mut game = play_checked("E2:E4; E7:E5; D1:G4; D8:H4; G4:F5; H4:F4");
    assert_listed_once(&mut game);
    // Right after a double jump, with a capture en passant at hand.
    let mut game = play_checked("E2:E4; A7:A6; E4:E5; D7:D5");
    assert_listed_once(&mut game);
}

#[test]
fn a_promoting_advance_is_listed_as_four_moves_each_once() {
    let mut game = ChessGame::new(HashChars::new([3u8; 32]));
    fill_tile(&mut game, sq(0, File::E), Piece::new(Color::White, Species::King));
    fill_tile(&mut game, sq(7, File::H), Piece::new(Color::Black, Species::King));
    fill_tile(&mut game, sq(6, File::A), Piece::new(Color::White, Species::Pawn));
    let moves = legal_moves(&mut game);
    let from_pawn: Vec<PieceMove> = moves
        .iter()
        .filter_map(|g| match g.mov {
            AnyMove::Piece(m) if m.origin == sq(6, File::A) => Some(m),
            _ => None,
        })
        .collect();
    assert_eq!(from_pawn.len(), 4);
    for species in [Species::Queen, Species::Rook, Species::Bishop, Species::Knight] {
        let wanted = PieceMove { origin: sq(6, File::A), destin: sq(7, File::A), promote: Some(species) };
        assert_eq!(from_pawn.iter().filter(|m| **m == wanted).count(), 1);
    }
}

#[test]
fn the_clock_stops_at_its_highest_number() {
    let mut game = new_std_chess_position();
    game.halfmoveclock = u16::MAX;
    let before = game.clone();
    assert_eq!(legal_moves(&mut game).len(), 20);
    let knight = AnyMove::Piece(PieceMove::new_basic(sq(0, File::G), sq(2, File::F)));
    make_move(&mut game, knight);
    assert_eq!(game.halfmoveclock, u16::MAX);
    unmake_move(&mut game);
    assert!(game == before);
    let pawn = AnyMove::Piece(PieceMove::new_basic(sq(1, File::E), sq(3, File::E)));
    make_move(&mut game, pawn);
    assert_eq!(game.halfmoveclock, 0);
    unmake_move(&mut game);
    assert!(game == before);
}
