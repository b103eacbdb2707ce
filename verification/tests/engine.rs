//! Evaluation, the transposition table, move ordering and search.

use std::time::{Duration, Instant};

use chess_solver_3::cache::{Cache, CacheValue, HashChars};
use chess_solver_3::eval::{deep_eval, deep_eval_timed, judge_child, leaf_eval, shallow_eval};
use chess_solver_3::eval::{DeepEvalContext, DeepEvalException};
use chess_solver_3::eval::{BELOW_MIN_SCORE, MAX_SCORE, MIN_SCORE};
use chess_solver_3::gamestate::{status, ChessGame, GameResult, GameStatus};
use chess_solver_3::grid::{File, Rank, Side, StandardCoordinate};
use chess_solver_3::makemove::{fill_tile, inspect_move};
use chess_solver_3::mat_eval::{calc_matdiff, count_class, get_species_value, matval, matval_class};
use chess_solver_3::misc::{Max, SegVec};
use chess_solver_3::mov::{AnyMove, PieceMove};
use chess_solver_3::movegen::dispatch::{count_legal_moves, legal_moves, movegen_legal};
use chess_solver_3::movegen::types::GeneratedMove;
use chess_solver_3::movesort::{movegen_legal_sorted, score_mov};
use chess_solver_3::persistence::apply_gstr;
use chess_solver_3::piece::{Color, Piece, Species};
use chess_solver_3::repetitions::count_repetitions;
use chess_solver_3::search::{deepen, iterdeep_search, judge_root_child, search, search_shallow};
use chess_solver_3::search::{DeadlineElapsed, IterDeepSearchContext, IterDeepSearchResult, SearchContext};
use chess_solver_3::snapshot::capture_snapshot;
use chess_solver_3::stdinit::{new_std_chess_position, std_chess_position};

fn sq(rank: u8, file: File) -> StandardCoordinate {
    StandardCoordinate::new(Rank::from_index(rank), file)
}

fn played(transcript: &str) -> ChessGame {
    let mut game = new_std_chess_position();
    apply_gstr(&mut game, transcript).unwrap();
    game
}

fn stalemate() -> ChessGame {
    let mut game = ChessGame::new(HashChars::new([9u8; 32]));
    fill_tile(&mut game, sq(0, File::A), Piece::new(Color::White, Species::King));
    fill_tile(&mut game, sq(2, File::B), Piece::new(Color::Black, Species::Queen));
    fill_tile(&mut game, sq(7, File::H), Piece::new(Color::Black, Species::King));
    game
}

#[test]
fn species_values() {
    assert_eq!(get_species_value(Species::Pawn), 1);
    assert_eq!(get_species_value(Species::Knight), 3);
    assert_eq!(get_species_value(Species::Bishop), 3);
    assert_eq!(get_species_value(Species::Rook), 5);
    assert_eq!(get_species_value(Species::Queen), 9);
    assert_eq!(get_species_value(Species::King), 0);
}

#[test]
fn material_of_the_initial_position() {
    let game = new_std_chess_position();
    assert_eq!(count_class(&game.bbs, Color::White, Species::Pawn), 8);
    assert_eq!(count_class(&game.bbs, Color::Black, Species::Knight), 2);
    assert_eq!(matval_class(&game.bbs, Color::White, Species::Rook), 10);
    assert_eq!(matval(&game.bbs, Color::White), 39);
    assert_eq!(matval(&game.bbs, Color::Black), 39);
    assert_eq!(calc_matdiff(&game.bbs), 0);
}

#[test]
fn shallow_eval_is_four_times_material_plus_castling() {
    let mut game = new_std_chess_position();
    assert_eq!(shallow_eval(&mut game), 0);
    // White has won a pawn; Black is to move.
    let mut game = played("E2:E4; D7:D5; E4:D5");
    assert_eq!(calc_matdiff(&game.bbs), -1);
    assert_eq!(shallow_eval(&mut game), -4);
    // Black has won it back with the queen; White is to move.
    apply_gstr(&mut game, "D8:D5").unwrap();
    assert_eq!(shallow_eval(&mut game), 0);
    // White gives up the right to castle by moving the king: one wing's
    // worth for each wing is lost.
    apply_gstr(&mut game, "E1:E2; A7:A6").unwrap();
    assert_eq!(shallow_eval(&mut game), -2);
    // Having castled counts like holding both rights.
    let mut game = played("E2:E4; E7:E5; F1:E2; F8:E7; G1:F3; G8:F6; CastleKingside; A7:A6");
    assert_eq!(shallow_eval(&mut game), 0);
}

#[test]
fn shallow_eval_of_a_queen_up() {
    let mut game = ChessGame::new(HashChars::new([9u8; 32]));
    fill_tile(&mut game, sq(0, File::A), Piece::new(Color::White, Species::King));
    fill_tile(&mut game, sq(3, File::D), Piece::new(Color::White, Species::Queen));
    fill_tile(&mut game, sq(7, File::H), Piece::new(Color::Black, Species::King));
    assert_eq!(shallow_eval(&mut game), 36);
}

#[test]
fn shallow_mate_detection() {
    // Fool's mate: White is to move, in check, without a legal move.
    let mut game = played("F2:F3; E7:E5; G2:G4; D8:H4;");
    assert_eq!(count_legal_moves(&mut game), 0);
    assert!(game.bbs.is_check());
    assert_eq!(shallow_eval(&mut game), MIN_SCORE);
    assert_eq!(leaf_eval(&game, true), Some(MIN_SCORE));
    assert!(matches!(status(&mut game), GameStatus::Complete(GameResult::Diff(Color::Black))));
    // Stalemate: White is to move, not in check, without a legal move.
    let mut game = stalemate();
    assert_eq!(count_legal_moves(&mut game), 0);
    assert!(!game.bbs.is_check());
    assert_eq!(shallow_eval(&mut game), 0);
    assert_eq!(leaf_eval(&game, true), Some(0));
    assert!(matches!(status(&mut game), GameStatus::Complete(GameResult::Tie)));
    // A game that goes on.
    let mut game = new_std_chess_position();
    assert_eq!(leaf_eval(&game, false), None);
    assert!(matches!(status(&mut game), GameStatus::Incomplete));
}

#[test]
fn score_sentinels() {
    assert_eq!(MIN_SCORE, i16::MIN + 2);
    assert_eq!(MAX_SCORE, i16::MAX - 1);
    assert_eq!(BELOW_MIN_SCORE, i16::MIN + 1);
    assert_eq!(-MIN_SCORE, MAX_SCORE);
}

#[test]
fn fifty_move_rule_is_a_draw() {
    let mut game = played("E2:E4; D7:D5; E4:D5");
    assert_eq!(shallow_eval(&mut game), -4);
    game.halfmoveclock = 99;
    assert_eq!(shallow_eval(&mut game), -4);
    game.halfmoveclock = 100;
    assert_eq!(shallow_eval(&mut game), 0);
    assert_eq!(leaf_eval(&game, false), Some(0));
}

#[test]
fn repetitions_are_counted_back_to_the_last_irreversible_move() {
    let mut game = new_std_chess_position();
    assert_eq!(count_repetitions(&game), 0);
    apply_gstr(&mut game, "G1:F3; G8:F6").unwrap();
    assert_eq!(count_repetitions(&game), 0);
    apply_gstr(&mut game, "F3:G1; F6:G8").unwrap();
    assert_eq!(count_repetitions(&game), 1);
    apply_gstr(&mut game, "G1:F3; G8:F6; F3:G1; F6:G8").unwrap();
    assert_eq!(count_repetitions(&game), 2);
    apply_gstr(&mut game, "G1:F3; G8:F6; F3:G1; F6:G8").unwrap();
    assert_eq!(count_repetitions(&game), 3);
    // Three earlier occurrences make a draw, whatever stands on the board.
    assert_eq!(leaf_eval(&game, false), Some(0));
    // A pawn move cuts the history off.
    apply_gstr(&mut game, "E2:E4").unwrap();
    assert_eq!(count_repetitions(&game), 0);
    apply_gstr(&mut game, "G8:F6; G1:F3; F6:G8; F3:G1").unwrap();
    assert_eq!(count_repetitions(&game), 1);
}

#[test]
fn snapshot_holds_what_identifies_a_position() {
    let game = played("E2:E4; A7:A6; E4:E5; D7:D5;");
    let snapshot = capture_snapshot(&game);
    assert!(snapshot.p_lut == game.p_lut);
    assert_eq!(snapshot.active_player, Color::White);
    assert_eq!(snapshot.crights, game.crights);
    assert_eq!(snapshot.enpassant_vuln, Some(File::D));
    let other = played("E2:E4; A7:A6; E4:E5; D7:D6; H2:H3; D6:D5; H3:H4; H7:H6; H4:H5");
    assert_ne!(capture_snapshot(&other), snapshot);
}

#[test]
fn cache_is_direct_mapped_and_single_probe() {
    let mut cache = Cache::new(1);
    assert_eq!(cache.vec.len(), 65536);
    let game = played("E2:E4");
    assert_eq!(cache.lookup_any(&game), None);
    let value = CacheValue { bestmov_id: 3, score: 17 };
    cache.update(&game, 2, value);
    assert_eq!(cache.lookup_any(&game), Some(value));
    assert_eq!(cache.lookup_atleast(&game, 2), Some(value));
    assert_eq!(cache.lookup_atleast(&game, 1), Some(value));
    assert_eq!(cache.lookup_atleast(&game, 3), None);
    assert_eq!(cache.lookup_score_atleast(&game, 2), Some(17));
    assert_eq!(cache.lookup_score_atleast(&game, 3), None);
    // An update that a lookup at that depth already answers changes nothing.
    cache.update(&game, 1, CacheValue { bestmov_id: 9, score: -1 });
    assert_eq!(cache.lookup_any(&game), Some(value));
    // A deeper result overwrites.
    let deeper = CacheValue { bestmov_id: 5, score: 40 };
    cache.update(&game, 4, deeper);
    assert_eq!(cache.lookup_atleast(&game, 4), Some(deeper));
    // Another position leaves the entry alone, or evicts it if it falls
    // into the same slot; either way it gets its own answer.
    let other = played("D2:D4");
    assert_eq!(cache.lookup_any(&other), None);
    cache.update(&other, 1, value);
    assert_eq!(cache.lookup_any(&other), Some(value));
}

#[test]
fn cache_collision_overwrites_the_slot() {
    let mut cache = Cache::new(1);
    let mut a = played("E2:E4");
    let mut b = played("D2:D4");
    let slots = cache.vec.len() as u64;
    // Force both positions into one slot with different fingerprints.
    a.hash.value = 5;
    b.hash.value = 5 + slots;
    let va = CacheValue { bestmov_id: 1, score: 10 };
    let vb = CacheValue { bestmov_id: 2, score: 20 };
    cache.update(&a, 3, va);
    assert_eq!(cache.lookup_any(&a), Some(va));
    assert_eq!(cache.lookup_any(&b), None);
    cache.update(&b, 1, vb);
    assert_eq!(cache.lookup_any(&b), Some(vb));
    assert_eq!(cache.lookup_any(&a), None);
}

#[test]
fn moves_are_scored_for_ordering() {
    // White can take the queen on D5 with the pawn on E4.
    let game = played("E2:E4; D7:D6; A2:A3; D8:D7; A3:A4; D7:E6; A4:A5; E6:D5");
    let takes_queen = AnyMove::Piece(PieceMove::new_basic(sq(3, File::E), sq(4, File::D)));
    assert_eq!(score_mov(&game, takes_queen), 4);
    let pawn_advance = AnyMove::Piece(PieceMove::new_basic(sq(1, File::H), sq(2, File::H)));
    assert_eq!(score_mov(&game, pawn_advance), 2);
    let knight_move = AnyMove::Piece(PieceMove::new_basic(sq(0, File::G), sq(2, File::F)));
    assert_eq!(score_mov(&game, knight_move), 1);
    assert_eq!(score_mov(&game, AnyMove::Castle(Side::Kingside)), 3);
    // A queen that takes a pawn wins nothing by the table.
    let game = played("E2:E4; D7:D5; D1:G4; A7:A6");
    let queen_takes_pawn = AnyMove::Piece(PieceMove::new_basic(sq(3, File::G), sq(6, File::G)));
    assert_eq!(score_mov(&game, queen_takes_pawn), 1);
}

#[test]
fn sorted_generation_puts_the_best_guess_last() {
    let mut game = played("E2:E4; D7:D6; A2:A3; D8:D7; A3:A4; D7:E6; A4:A5; E6:D5");
    let mut cache = Cache::new(1);
    let plain = legal_moves(&mut game);
    let mut buf: SegVec<GeneratedMove> = SegVec::new();
    movegen_legal_sorted(&mut game, &mut buf, &cache);
    let sorted: Vec<GeneratedMove> = buf.as_slice().to_vec();
    assert_eq!(sorted.len(), plain.len());
    for genmove in plain.iter() {
        assert!(sorted.contains(genmove));
    }
    for pair in sorted.windows(2) {
        assert!(score_mov(&game, pair[0].mov) >= score_mov(&game, pair[1].mov));
    }
    // The winning capture heads the list.
    let takes_queen = AnyMove::Piece(PieceMove::new_basic(sq(3, File::E), sq(4, File::D)));
    assert_eq!(sorted.first().unwrap().mov, takes_queen);
    // With a best move remembered, that move comes last instead.
    cache.update(&game, 1, CacheValue { bestmov_id: 0, score: 0 });
    let mut buf: SegVec<GeneratedMove> = SegVec::new();
    movegen_legal_sorted(&mut game, &mut buf, &cache);
    let hinted: Vec<GeneratedMove> = buf.as_slice().to_vec();
    assert_eq!(hinted.len(), plain.len());
    assert_eq!(*hinted.last().unwrap(), plain[0]);
    for pair in hinted[..hinted.len() - 1].windows(2) {
        assert!(score_mov(&game, pair[0].mov) >= score_mov(&game, pair[1].mov));
    }
    // A remembered ordinal past the end of the list is ignored.
    let mut cache = Cache::new(1);
    cache.update(&game, 1, CacheValue { bestmov_id: 250, score: 0 });
    let mut buf: SegVec<GeneratedMove> = SegVec::new();
    movegen_legal_sorted(&mut game, &mut buf, &cache);
    assert_eq!(buf.as_slice().to_vec(), sorted);
}

#[test]
fn sorted_generation_lists_pawn_advances_before_knight_moves() {
    let mut game = new_std_chess_position();
    let cache = Cache::new(1);
    let mut buf: SegVec<GeneratedMove> = SegVec::new();
    movegen_legal_sorted(&mut game, &mut buf, &cache);
    let sorted: Vec<GeneratedMove> = buf.as_slice().to_vec();
    assert_eq!(sorted.len(), 20);
    for genmove in sorted[..16].iter() {
        assert_eq!(score_mov(&game, genmove.mov), 2);
    }
    for genmove in sorted[16..].iter() {
        assert_eq!(score_mov(&game, genmove.mov), 1);
    }
}

#[test]
fn generation_pushes_into_any_sink() {
    let mut game = new_std_chess_position();
    let mut list: Vec<GeneratedMove> = Vec::new();
    movegen_legal(&mut game, &mut list);
    assert_eq!(list, legal_moves(&mut game));
    let mut buf: SegVec<GeneratedMove> = SegVec::new();
    movegen_legal(&mut game, &mut buf);
    assert_eq!(buf.len(), 20);
    assert_eq!(count_legal_moves(&mut game), 20);
}

const MATE_IN_ONE: &str = "E2:E4; E7:E5; F1:C4; B8:C6; D1:H5; G8:F6;";

fn the_mate() -> AnyMove {
    AnyMove::Piece(PieceMove::new_basic(sq(4, File::H), sq(6, File::F)))
}

#[test]
fn shallow_search_finds_mate_in_one() {
    let mut game = played(MATE_IN_ONE);
    let before = game.clone();
    let mut buf: SegVec<GeneratedMove> = SegVec::new();
    assert_eq!(search_shallow(&mut game, &mut buf), the_mate());
    assert!(game == before);
    assert!(buf.is_empty());
}

#[test]
fn search_to_a_depth_finds_mate_in_one() {
    let mut game = played(MATE_IN_ONE);
    let before = game.clone();
    let mut cache = Cache::new(1);
    let mut buf: SegVec<GeneratedMove> = SegVec::new();
    let found = search(SearchContext {
        gstate: &mut game,
        lookahead: 2,
        movebuf: &mut buf,
        deadline: Instant::now() + Duration::from_secs(15),
        cache: &mut cache,
    });
    assert_eq!(found.ok(), Some(the_mate()));
    assert!(game == before);
    // The result is remembered for the position.
    assert_eq!(cache.lookup_score_atleast(&game, 2), Some(MAX_SCORE));
}

#[test]
fn search_gives_up_when_the_time_is_up() {
    let mut game = played(MATE_IN_ONE);
    let before = game.clone();
    let mut cache = Cache::new(1);
    let mut buf: SegVec<GeneratedMove> = SegVec::new();
    let found = search(SearchContext {
        gstate: &mut game,
        lookahead: 3,
        movebuf: &mut buf,
        deadline: Instant::now() - Duration::from_millis(1),
        cache: &mut cache,
    });
    assert!(found.is_err());
    assert!(game == before);
}

#[test]
fn deep_eval_at_depth_zero_is_shallow_eval() {
    let mut game = played("E2:E4; D7:D5; E4:D5");
    let before = game.clone();
    let mut cache = Cache::new(1);
    let mut buf: SegVec<GeneratedMove> = SegVec::new();
    let far = Instant::now() + Duration::from_secs(15);
    let r = deep_eval(DeepEvalContext {
        gstate: &mut game,
        lookahead: 0,
        movebuf: &mut buf,
        deadline: far,
        cutoff: BELOW_MIN_SCORE,
        cache: &mut cache,
    });
    assert_eq!(r, Ok(-4));
    // One ply deep Black takes the pawn back with the queen.
    let r = deep_eval(DeepEvalContext {
        gstate: &mut game,
        lookahead: 1,
        movebuf: &mut buf,
        deadline: far,
        cutoff: BELOW_MIN_SCORE,
        cache: &mut cache,
    });
    assert_eq!(r, Ok(0));
    assert!(game == before);
    // The time is up.
    let r = deep_eval(DeepEvalContext {
        gstate: &mut game,
        lookahead: 1,
        movebuf: &mut buf,
        deadline: Instant::now() - Duration::from_millis(1),
        cutoff: BELOW_MIN_SCORE,
        cache: &mut cache,
    });
    assert_eq!(r, Err(DeepEvalException::DeadlineElapsed));
    // A side that can win a pawn for nothing is cut off by an opponent who
    // is sure of an even game elsewhere.
    let mut cache = Cache::new(1);
    let r = deep_eval(DeepEvalContext {
        gstate: &mut game,
        lookahead: 1,
        movebuf: &mut buf,
        deadline: far,
        cutoff: 1,
        cache: &mut cache,
    });
    assert_eq!(r, Err(DeepEvalException::Cut));
    assert!(game == before);
}

#[test]
fn deep_eval_scores_finished_games() {
    let far = Instant::now() + Duration::from_secs(15);
    let mut cache = Cache::new(1);
    let mut buf: SegVec<GeneratedMove> = SegVec::new();
    let mut mated = played("F2:F3; E7:E5; G2:G4; D8:H4;");
    let r = deep_eval(DeepEvalContext {
        gstate: &mut mated,
        lookahead: 2,
        movebuf: &mut buf,
        deadline: far,
        cutoff: BELOW_MIN_SCORE,
        cache: &mut cache,
    });
    assert_eq!(r, Ok(MIN_SCORE));
    let mut stale = stalemate();
    let mut buf: SegVec<GeneratedMove> = SegVec::new();
    let r = deep_eval(DeepEvalContext {
        gstate: &mut stale,
        lookahead: 2,
        movebuf: &mut buf,
        deadline: far,
        cutoff: BELOW_MIN_SCORE,
        cache: &mut cache,
    });
    assert_eq!(r, Ok(0));
}

#[test]
fn iterative_deepening_returns_a_move_though_the_time_is_up() {
    let mut game = played(MATE_IN_ONE);
    let before = game.clone();
    let mut cache = Cache::new(1);
    let mut buf: SegVec<GeneratedMove> = SegVec::new();
    let found = iterdeep_search(IterDeepSearchContext {
        gstate: &mut game,
        movebuf: &mut buf,
        deadline: Instant::now() - Duration::from_millis(1),
        cache: &mut cache,
    });
    assert_eq!(found.bestmove, the_mate());
    assert_eq!(found.depth_achieved, 1);
    assert!(game == before);
    let mut game = new_std_chess_position();
    let found = iterdeep_search(IterDeepSearchContext {
        gstate: &mut game,
        movebuf: &mut buf,
        deadline: Instant::now() - Duration::from_millis(1),
        cache: &mut cache,
    });
    assert!(legal_moves(&mut game).iter().any(|g| g.mov == found.bestmove));
}

#[test]
fn iterative_deepening_goes_deeper_with_more_time() {
    let mut game = std_chess_position(HashChars::new([5u8; 32]));
    apply_gstr(&mut game, "E2:E4; E7:E5; G1:F3").unwrap();
    let before = game.clone();
    let mut cache = Cache::new(1);
    let mut buf: SegVec<GeneratedMove> = SegVec::new();
    let hurried = iterdeep_search(IterDeepSearchContext {
        gstate: &mut game,
        movebuf: &mut buf,
        deadline: Instant::now() - Duration::from_millis(1),
        cache: &mut cache,
    });
    let mut cache = Cache::new(1);
    let patient = iterdeep_search(IterDeepSearchContext {
        gstate: &mut game,
        movebuf: &mut buf,
        deadline: Instant::now() + Duration::from_millis(1500),
        cache: &mut cache,
    });
    assert_eq!(hurried.depth_achieved, 1);
    assert!(patient.depth_achieved >= hurried.depth_achieved);
    assert!(legal_moves(&mut game).iter().any(|g| g.mov == patient.bestmove));
    assert!(game == before);
    assert!(buf.is_empty());
}

#[test]
fn search_takes_a_hanging_queen() {
    let mut game = played("E2:E4; D7:D6; A2:A3; D8:D7; A3:A4; D7:E6; A4:A5; E6:D5");
    let takes_queen = AnyMove::Piece(PieceMove::new_basic(sq(3, File::E), sq(4, File::D)));
    let mut cache = Cache::new(1);
    let mut buf: SegVec<GeneratedMove> = SegVec::new();
    let found = search(SearchContext {
        gstate: &mut game,
        lookahead: 2,
        movebuf: &mut buf,
        deadline: Instant::now() + Duration::from_secs(15),
        cache: &mut cache,
    });
    assert_eq!(found.ok(), Some(takes_queen));
}

#[test]
fn inspecting_a_move_leaves_the_state_alone() {
    let mut game = new_std_chess_position();
    let before = game.clone();
    let mov = AnyMove::Piece(PieceMove::new_basic(sq(1, File::E), sq(3, File::E)));
    let seen = inspect_move(&mut game, mov, |g: &ChessGame| (g.active_player(), g.p_lut.get(sq(3, File::E))));
    assert_eq!(seen, (Color::Black, Some(Piece::new(Color::White, Species::Pawn))));
    assert!(game == before);
}

#[test]
fn a_frame_judges_what_comes_back() {
    let a = GeneratedMove { mov: AnyMove::Castle(Side::Kingside), gen_id: 0 };
    let b = GeneratedMove { mov: AnyMove::Castle(Side::Queenside), gen_id: 1 };
    let mut best: Max<GeneratedMove> = Max::new(BELOW_MIN_SCORE);
    // The opponent scores 5 behind the move: the move is worth -5.
    assert_eq!(judge_child(&mut best, BELOW_MIN_SCORE, a, Ok(5)), None);
    assert_eq!((best.item(), best.value()), (Some(a), -5));
    // A worse move is not kept, an equal one is.
    assert_eq!(judge_child(&mut best, BELOW_MIN_SCORE, b, Ok(6)), None);
    assert_eq!((best.item(), best.value()), (Some(a), -5));
    assert_eq!(judge_child(&mut best, BELOW_MIN_SCORE, b, Ok(5)), None);
    assert_eq!((best.item(), best.value()), (Some(b), -5));
    // A cut behind the move changes nothing.
    assert_eq!(judge_child(&mut best, -2, a, Err(DeepEvalException::Cut)), None);
    assert_eq!((best.item(), best.value()), (Some(b), -5));
    // The side that moved before is sure of 3 elsewhere: a move worth -3 or
    // more here leaves it no better off, and cuts the frame.
    assert_eq!(judge_child(&mut best, 3, a, Ok(3)), Some(DeepEvalException::Cut));
    assert_eq!(judge_child(&mut best, 3, a, Ok(-2)), Some(DeepEvalException::Cut));
    assert_eq!((best.item(), best.value()), (Some(b), -5));
    assert_eq!(judge_child(&mut best, 3, a, Ok(4)), None);
    assert_eq!((best.item(), best.value()), (Some(a), -4));
    // The time is up.
    assert_eq!(
        judge_child(&mut best, 3, b, Err(DeepEvalException::DeadlineElapsed)),
        Some(DeepEvalException::DeadlineElapsed)
    );
    assert_eq!((best.item(), best.value()), (Some(a), -4));
    // At the root there is no cut.
    let mut best: Max<GeneratedMove> = Max::new(BELOW_MIN_SCORE);
    assert!(!judge_root_child(&mut best, a, Ok(MAX_SCORE)));
    assert_eq!((best.item(), best.value()), (Some(a), MIN_SCORE));
    assert!(!judge_root_child(&mut best, b, Err(DeepEvalException::Cut)));
    assert!(!judge_root_child(&mut best, b, Ok(-7)));
    assert_eq!((best.item(), best.value()), (Some(b), 7));
    assert!(judge_root_child(&mut best, a, Err(DeepEvalException::DeadlineElapsed)));
    assert_eq!((best.item(), best.value()), (Some(b), 7));
}

#[test]
fn deepening_keeps_the_last_search_that_was_through() {
    let first = AnyMove::Castle(Side::Kingside);
    let second = AnyMove::Castle(Side::Queenside);
    let mut found = IterDeepSearchResult { bestmove: first, depth_achieved: 1 };
    assert!(deepen(&mut found, 1, Ok(second)));
    assert_eq!(found, IterDeepSearchResult { bestmove: second, depth_achieved: 1 });
    assert!(deepen(&mut found, 2, Ok(first)));
    assert_eq!(found, IterDeepSearchResult { bestmove: first, depth_achieved: 2 });
    assert!(!deepen(&mut found, 3, Err(DeadlineElapsed)));
    assert_eq!(found, IterDeepSearchResult { bestmove: first, depth_achieved: 2 });
    assert!(!deepen(&mut found, 255, Ok(second)));
    assert_eq!(found, IterDeepSearchResult { bestmove: second, depth_achieved: 255 });
}

#[test]
fn a_look_ahead_told_the_time_answers_early() {
    let far = Instant::now() + Duration::from_secs(15);
    let mut game = played("E2:E4; D7:D5; E4:D5");
    let before = game.clone();
    let mut cache = Cache::new(1);
    let mut buf: SegVec<GeneratedMove> = SegVec::new();
    // Told that the time is up, it says so, whatever the clock says.
    let r = deep_eval_timed(
        DeepEvalContext { gstate: &mut game, lookahead: 2, movebuf: &mut buf, deadline: far, cutoff: BELOW_MIN_SCORE, cache: &mut cache },
        true,
    );
    assert_eq!(r, Err(DeepEvalException::DeadlineElapsed));
    // With nothing to look ahead the position is scored as it stands.
    let r = deep_eval_timed(
        DeepEvalContext { gstate: &mut game, lookahead: 0, movebuf: &mut buf, deadline: far, cutoff: BELOW_MIN_SCORE, cache: &mut cache },
        false,
    );
    assert_eq!(r, Ok(-4));
    // What the table remembers from a search at least as deep is answered.
    cache.update(&game, 3, CacheValue { bestmov_id: 0, score: 123 });
    let r = deep_eval_timed(
        DeepEvalContext { gstate: &mut game, lookahead: 2, movebuf: &mut buf, deadline: far, cutoff: BELOW_MIN_SCORE, cache: &mut cache },
        false,
    );
    assert_eq!(r, Ok(123));
    assert_eq!(cache.lookup_any(&game), Some(CacheValue { bestmov_id: 0, score: 123 }));
    // A search that looks at the moves leaves its score in the table.
    let mut cache = Cache::new(1);
    let r = deep_eval_timed(
        DeepEvalContext { gstate: &mut game, lookahead: 1, movebuf: &mut buf, deadline: far, cutoff: BELOW_MIN_SCORE, cache: &mut cache },
        false,
    );
    assert_eq!(r, Ok(0));
    assert_eq!(cache.lookup_score_atleast(&game, 1), Some(0));
    assert!(game == before);
}
