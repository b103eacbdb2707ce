use chess_solver_3::cli::get_unicode_symbol;
use chess_solver_3::gamestate::ChessGame;
use chess_solver_3::grid::{File, Rank, StandardCoordinate};
use chess_solver_3::persistence::apply_gstr;
use chess_solver_3::piece::{Color, Piece, Species};
use chess_solver_3::stdinit::new_std_chess_position;

fn show(game: &ChessGame) {
    println!("  A B C D E F G H");
    for rank in 0..8u8 {
        let mut line = format!("{} ", rank + 1);
        for file in 0..8u8 {
            let sq = StandardCoordinate::new(Rank::from_index(rank), File::from_index(file));
            match game.p_lut.get(sq) {
                Some(piece) => line.push_str(get_unicode_symbol(piece)),
                None => line.push(' '),
            }
            line.push(' ');
        }
        println!("{}", line);
    }
}

fn at(game: &ChessGame, rank: u8, file: File) -> Option<Piece> {
    game.p_lut.get(StandardCoordinate::new(Rank::from_index(rank), file))
}

#[test]
fn castling_test_castle_kingside() {
    let gstr = "E2:E4; E7:E5; F1:E2; F8:E7; G1:F3; G8:F6; CastleKingside; \
        CastleKingside;";
    let mut game = new_std_chess_position();
    apply_gstr(&mut game, gstr).unwrap();
    show(&game);
    assert_eq!(at(&game, 0, File::G), Some(Piece::new(Color::White, Species::King)));
    assert_eq!(at(&game, 0, File::F), Some(Piece::new(Color::White, Species::Rook)));
    assert_eq!(at(&game, 7, File::G), Some(Piece::new(Color::Black, Species::King)));
    assert_eq!(at(&game, 7, File::F), Some(Piece::new(Color::Black, Species::Rook)));
    assert_eq!(at(&game, 0, File::E), None);
    assert_eq!(at(&game, 0, File::H), None);
}

#[test]
fn castling_test_castle_queenside() {
    let gstr = "E2:E3; E7:E6; D2:D3; D7:D6; D1:E2; D8:E7; C1:D2; C8:D7; B1:C3; B8:C6; \
        CastleQueenside; CastleQueenside;";
    let mut game = new_std_chess_position();
    apply_gstr(&mut game, gstr).unwrap();
    show(&game);
    assert_eq!(at(&game, 0, File::C), Some(Piece::new(Color::White, Species::King)));
    assert_eq!(at(&game, 0, File::D), Some(Piece::new(Color::White, Species::Rook)));
    assert_eq!(at(&game, 7, File::C), Some(Piece::new(Color::Black, Species::King)));
    assert_eq!(at(&game, 7, File::D), Some(Piece::new(Color::Black, Species::Rook)));
    assert_eq!(at(&game, 0, File::A), None);
    assert_eq!(at(&game, 0, File::E), None);
}
