//! Counting the positions that legal play reaches: a census whose numbers
//! are known for well-studied positions.

use chess_solver_3::cache::HashChars;
use chess_solver_3::gamestate::ChessGame;
use chess_solver_3::grid::{File, Rank, Side, StandardCoordinate};
use chess_solver_3::makemove::{fill_tile, make_move, unmake_move};
use chess_solver_3::movegen::dispatch::legal_moves;
use chess_solver_3::piece::{Color, Piece, Species};
use chess_solver_3::stdinit::new_std_chess_position;

fn census(game: &mut ChessGame, depth: u32) -> u64 {
    if depth == 0 {
        return 1;
    }
    let moves = legal_moves(game);
    if depth == 1 {
        return moves.len() as u64;
    }
    let mut total = 0;
    for genmove in moves.iter() {
        make_move(game, genmove.mov);
        total += census(game, depth - 1);
        unmake_move(game);
    }
    total
}

/// Sets a board up from its ranks, the eighth first, as chess diagrams are
/// written: upper case for White, lower case for Black, a digit for that
/// many empty tiles.
fn set_up(ranks: [&str; 8], rights: [(Side, Color); 4], n_rights: usize) -> ChessGame {
    let mut game = ChessGame::new(HashChars::new([11u8; 32]));
    for (row, text) in ranks.iter().enumerate() {
        let rank = Rank::from_index(7 - row as u8);
        let mut file: u8 = 0;
        for ch in text.chars() {
            if let Some(skip) = ch.to_digit(10) {
                file += skip as u8;
                continue;
            }
            let color = if ch.is_ascii_uppercase() { Color::White } else { Color::Black };
            let species = match ch.to_ascii_lowercase() {
                'p' => Species::Pawn,
                'r' => Species::Rook,
                'n' => Species::Knight,
                'b' => Species::Bishop,
                'q' => Species::Queen,
                'k' => Species::King,
                other => panic!("no piece is written {}", other),
            };
            fill_tile(&mut game, StandardCoordinate::new(rank, File::from_index(file)), Piece::new(color, species));
            file += 1;
        }
        assert_eq!(file, 8);
    }
    game.hash.toggle_crights(game.crights);
    for (side, color) in rights.iter().take(n_rights) {
        game.crights.set(*side, *color, true);
    }
    game.hash.toggle_crights(game.crights);
    game
}

const ALL_RIGHTS: [(Side, Color); 4] = [
    (Side::Kingside, Color::White),
    (Side::Queenside, Color::White),
    (Side::Kingside, Color::Black),
    (Side::Queenside, Color::Black),
];

#[test]
fn census_of_the_initial_position() {
    let mut game = new_std_chess_position();
    let before = game.clone();
    assert_eq!(census(&mut game, 1), 20);
    assert_eq!(census(&mut game, 2), 400);
    assert_eq!(census(&mut game, 3), 8902);
    assert_eq!(census(&mut game, 4), 197281);
    assert!(game == before);
}

#[test]
fn census_of_a_middle_game_with_castles_and_pins() {
    let mut game = set_up(
        ["r3k2r", "p1ppqpb1", "bn2pnp1", "3PN3", "1p2P3", "2N2Q1p", "PPPBBPPP", "R3K2R"],
        ALL_RIGHTS,
        4,
    );
    let before = game.clone();
    assert_eq!(census(&mut game, 1), 48);
    assert_eq!(census(&mut game, 2), 2039);
    assert_eq!(census(&mut game, 3), 97862);
    assert!(game == before);
}

#[test]
fn census_of_an_endgame_with_en_passant_and_checks() {
    let mut game = set_up(["8", "2p5", "3p4", "KP5r", "1R3p1k", "8", "4P1P1", "8"], ALL_RIGHTS, 0);
    assert_eq!(census(&mut game, 1), 14);
    assert_eq!(census(&mut game, 2), 191);
    assert_eq!(census(&mut game, 3), 2812);
    assert_eq!(census(&mut game, 4), 43238);
}

#[test]
fn census_of_a_position_with_promotions() {
    let mut game = set_up(
        ["rnbq1k1r", "pp1Pbppp", "2p5", "8", "2B5", "8", "PPP1NnPP", "RNBQK2R"],
        ALL_RIGHTS,
        2,
    );
    assert_eq!(census(&mut game, 1), 44);
    assert_eq!(census(&mut game, 2), 1486);
    assert_eq!(census(&mut game, 3), 62379);
}
