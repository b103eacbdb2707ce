//! Transcripts: reading and writing moves as text.

use std::str::FromStr;

use chess_solver_3::grid::{File, ParseFileErr, ParseRankErr, ParseStandardCoordinateError, Rank};
use chess_solver_3::grid::{Side, StandardCoordinate};
use chess_solver_3::mov::{AnyMove, PieceMove};
use chess_solver_3::persistence::{apply_gbytes, apply_gstr, bytes_equal, move_text, parse_move, parse_pmove};
use chess_solver_3::persistence::{parse_u8, split, square_text, trim, LoadGameErr, ParsePMoveErr};
use chess_solver_3::piece::{Color, Piece, Species};
use chess_solver_3::stdinit::new_std_chess_position;

fn sq(rank: u8, file: File) -> StandardCoordinate {
    StandardCoordinate::new(Rank::from_index(rank), file)
}

#[test]
fn splitting_and_trimming() {
    assert_eq!(split(b"a;b;", b';'), vec![b"a".to_vec(), b"b".to_vec(), b"".to_vec()]);
    assert_eq!(split(b"", b';'), vec![b"".to_vec()]);
    assert_eq!(split(b";;", b';'), vec![b"".to_vec(), b"".to_vec(), b"".to_vec()]);
    assert_eq!(split(b"E2:E4", b';'), vec![b"E2:E4".to_vec()]);
    assert_eq!(trim(&b"  E2 \t\r\n".to_vec()), b"E2".to_vec());
    assert_eq!(trim(&b"   ".to_vec()), b"".to_vec());
    assert_eq!(trim(&b"a b".to_vec()), b"a b".to_vec());
    assert!(bytes_equal(b"abc", b"abc"));
    assert!(!bytes_equal(b"abc", b"abd"));
    assert!(!bytes_equal(b"abc", b"ab"));
}

#[test]
fn numbers() {
    assert_eq!(parse_u8(b"0"), Some(0));
    assert_eq!(parse_u8(b"7"), Some(7));
    assert_eq!(parse_u8(b"+7"), Some(7));
    assert_eq!(parse_u8(b"007"), Some(7));
    assert_eq!(parse_u8(b"255"), Some(255));
    assert_eq!(parse_u8(b"256"), None);
    assert_eq!(parse_u8(b"99999"), None);
    assert_eq!(parse_u8(b""), None);
    assert_eq!(parse_u8(b"+"), None);
    assert_eq!(parse_u8(b"-1"), None);
    assert_eq!(parse_u8(b"1a"), None);
}

#[test]
fn tiles_from_text() {
    assert_eq!(StandardCoordinate::from_str("A1"), Ok(sq(0, File::A)));
    assert_eq!(StandardCoordinate::from_str("E4"), Ok(sq(3, File::E)));
    assert_eq!(StandardCoordinate::from_str("H8"), Ok(sq(7, File::H)));
    assert_eq!(StandardCoordinate::from_str("E"), Err(ParseStandardCoordinateError::BadLen));
    assert_eq!(StandardCoordinate::from_str("E44"), Err(ParseStandardCoordinateError::BadLen));
    assert_eq!(
        StandardCoordinate::from_str("e4"),
        Err(ParseStandardCoordinateError::ParseFileErr(ParseFileErr))
    );
    assert_eq!(
        StandardCoordinate::from_str("I4"),
        Err(ParseStandardCoordinateError::ParseFileErr(ParseFileErr))
    );
    assert_eq!(
        StandardCoordinate::from_str("E9"),
        Err(ParseStandardCoordinateError::ParseRankErr(ParseRankErr::OutOfBounds(9)))
    );
    assert_eq!(
        StandardCoordinate::from_str("E0"),
        Err(ParseStandardCoordinateError::ParseRankErr(ParseRankErr::OutOfBounds(0)))
    );
    assert_eq!(
        StandardCoordinate::from_str("Ex"),
        Err(ParseStandardCoordinateError::ParseRankErr(ParseRankErr::ParseIntErr))
    );
    assert_eq!(File::from_str("C"), Ok(File::C));
    assert_eq!(File::from_str("CC"), Err(ParseFileErr));
    assert_eq!(Rank::from_str("3"), Ok(Rank::from_index(2)));
    assert_eq!(Rank::from_str("008"), Ok(Rank::from_index(7)));
    assert_eq!(Rank::from_str("12"), Err(ParseRankErr::OutOfBounds(12)));
    assert_eq!(Rank::from_str("300"), Err(ParseRankErr::ParseIntErr));
}

#[test]
fn piece_moves_from_text() {
    assert_eq!(parse_pmove("E2:E4"), Ok(PieceMove::new_basic(sq(1, File::E), sq(3, File::E))));
    assert_eq!(parse_pmove(" E2 : E4 "), Ok(PieceMove::new_basic(sq(1, File::E), sq(3, File::E))));
    for (letter, species) in [
        ("q", Species::Queen),
        ("Q", Species::Queen),
        ("r", Species::Rook),
        ("R", Species::Rook),
        ("b", Species::Bishop),
        ("B", Species::Bishop),
        ("k", Species::Knight),
        ("K", Species::Knight),
    ] {
        let text = format!("A7:A8:{}", letter);
        assert_eq!(
            parse_pmove(&text),
            Ok(PieceMove { origin: sq(6, File::A), destin: sq(7, File::A), promote: Some(species) })
        );
    }
    assert_eq!(parse_pmove("E2"), Err(ParsePMoveErr::MissingDestin));
    assert_eq!(
        parse_pmove("X2:E4"),
        Err(ParsePMoveErr::MalformedOrigin(ParseStandardCoordinateError::ParseFileErr(ParseFileErr)))
    );
    assert_eq!(parse_pmove(""), Err(ParsePMoveErr::MalformedOrigin(ParseStandardCoordinateError::BadLen)));
    assert_eq!(
        parse_pmove("E2:E9"),
        Err(ParsePMoveErr::MalformedDestin(ParseStandardCoordinateError::ParseRankErr(
            ParseRankErr::OutOfBounds(9)
        )))
    );
    assert_eq!(parse_pmove("E2:"), Err(ParsePMoveErr::MalformedDestin(ParseStandardCoordinateError::BadLen)));
    assert_eq!(parse_pmove("A7:A8:x"), Err(ParsePMoveErr::MalformedPromote));
    assert_eq!(parse_pmove("A7:A8:qq"), Err(ParsePMoveErr::MalformedPromote));
    assert_eq!(parse_pmove("A7:A8:"), Err(ParsePMoveErr::MalformedPromote));
    assert_eq!(parse_pmove("A7:A8:q:"), Err(ParsePMoveErr::TooManyParts));
    assert_eq!(parse_pmove("A7:A8:q:r"), Err(ParsePMoveErr::TooManyParts));
}

#[test]
fn moves_from_text() {
    assert_eq!(parse_move(b"CastleKingside"), Ok(AnyMove::Castle(Side::Kingside)));
    assert_eq!(parse_move(b"CastleQueenside"), Ok(AnyMove::Castle(Side::Queenside)));
    assert_eq!(
        parse_move(b"castlekingside"),
        Err(ParsePMoveErr::MalformedOrigin(ParseStandardCoordinateError::BadLen))
    );
    assert_eq!(
        parse_move(b"G1:F3"),
        Ok(AnyMove::Piece(PieceMove::new_basic(sq(0, File::G), sq(2, File::F))))
    );
}

#[test]
fn moves_to_text_and_back() {
    assert_eq!(square_text(sq(3, File::E)), "E4");
    assert_eq!(square_text(sq(0, File::A)), "A1");
    assert_eq!(square_text(sq(7, File::H)), "H8");
    let moves = [
        (AnyMove::Castle(Side::Kingside), "CastleKingside;"),
        (AnyMove::Castle(Side::Queenside), "CastleQueenside;"),
        (AnyMove::Piece(PieceMove::new_basic(sq(1, File::E), sq(3, File::E))), "E2:E4;"),
        (
            AnyMove::Piece(PieceMove { origin: sq(6, File::A), destin: sq(7, File::B), promote: Some(Species::Queen) }),
            "A7:B8:q;",
        ),
        (
            AnyMove::Piece(PieceMove { origin: sq(6, File::A), destin: sq(7, File::A), promote: Some(Species::Knight) }),
            "A7:A8:k;",
        ),
        (
            AnyMove::Piece(PieceMove { origin: sq(1, File::H), destin: sq(0, File::H), promote: Some(Species::Rook) }),
            "H2:H1:r;",
        ),
        (
            AnyMove::Piece(PieceMove { origin: sq(1, File::H), destin: sq(0, File::G), promote: Some(Species::Bishop) }),
            "H2:G1:b;",
        ),
    ];
    for (mov, text) in moves {
        let written = move_text(mov);
        assert_eq!(written, text);
        let token = written.trim_end_matches(';');
        assert_eq!(parse_move(token.as_bytes()), Ok(mov));
    }
}

#[test]
fn transcript_stops_at_the_first_bad_token() {
    let mut game = new_std_chess_position();
    let illegal = AnyMove::Piece(PieceMove::new_basic(sq(1, File::E), sq(4, File::E)));
    assert_eq!(apply_gstr(&mut game, "E2:E4; E7:E5; E2:E5; G1:F3"), Err(LoadGameErr::IllegalMove(illegal)));
    // The two moves before the bad one stay applied; the one after it is not made.
    assert_eq!(game.movelog.len(), 2);
    assert_eq!(game.active_player(), Color::White);
    assert_eq!(game.p_lut.get(sq(3, File::E)), Some(Piece::new(Color::White, Species::Pawn)));
    assert_eq!(game.p_lut.get(sq(0, File::G)), Some(Piece::new(Color::White, Species::Knight)));
    assert_eq!(
        apply_gstr(&mut game, "G1:F3; nonsense"),
        Err(LoadGameErr::ParsePMove(ParsePMoveErr::MalformedOrigin(ParseStandardCoordinateError::BadLen)))
    );
    assert_eq!(game.movelog.len(), 3);
    assert_eq!(apply_gstr(&mut game, "CastleKingside"), Err(LoadGameErr::IllegalMove(AnyMove::Castle(Side::Kingside))));
    assert_eq!(game.movelog.len(), 3);
}

#[test]
fn transcript_ignores_blank_tokens() {
    let mut game = new_std_chess_position();
    assert_eq!(apply_gstr(&mut game, ""), Ok(()));
    assert_eq!(apply_gstr(&mut game, " ; ;\n;"), Ok(()));
    assert_eq!(game.movelog.len(), 0);
    assert_eq!(apply_gbytes(&mut game, b"\tE2:E4 ;\n E7:E5;;"), Ok(()));
    assert_eq!(game.movelog.len(), 2);
}

#[test]
fn promotion_by_transcript() {
    let mut game = new_std_chess_position();
    apply_gstr(
        &mut game,
        "A2:A4; B7:B5; A4:B5; A7:A6; B5:A6; C8:B7; A6:A7; B7:C6; A7:B8:q",
    )
    .unwrap();
    assert_eq!(game.p_lut.get(sq(7, File::B)), Some(Piece::new(Color::White, Species::Queen)));
    let mut game = new_std_chess_position();
    apply_gstr(&mut game, "A2:A4; B7:B5; A4:B5; A7:A6; B5:A6; C8:B7; A6:A7; B7:C6;").unwrap();
    // Reaching the last rank without naming a piece is not a move.
    let bare = AnyMove::Piece(PieceMove::new_basic(sq(6, File::A), sq(7, File::B)));
    assert_eq!(apply_gstr(&mut game, "A7:B8"), Err(LoadGameErr::IllegalMove(bare)));
    apply_gstr(&mut game, "A7:B8:K").unwrap();
    assert_eq!(game.p_lut.get(sq(7, File::B)), Some(Piece::new(Color::White, Species::Knight)));
}
