use chess_engine::models::{FigureColor, FigureType};
use chess_engine::utils::{FenError, board_from_fen};

const START: &str = "rnbqkbnr/pppppppp/8/8/8/8/PPPPPPPP/RNBQKBNR w KQkq - 0 1";

#[test]
fn parses_starting_position() {
    let board = board_from_fen(START).unwrap();
    assert_eq!(board.active, FigureColor::WHITE);
    assert_eq!(board.en_passant, -1);
    assert!(board.castle_rights.K);
    assert!(board.castle_rights.Q);
    assert!(board.castle_rights.k);
    assert!(board.castle_rights.q);
    // black back rank, then a sample of each region
    assert_eq!(board.fields[0].figure_type, FigureType::ROOK);
    assert_eq!(board.fields[0].figure_color, FigureColor::BLACK);
    assert_eq!(board.fields[4].figure_type, FigureType::KING);
    assert_eq!(board.fields[12].figure_type, FigureType::PAWN);
    assert_eq!(board.fields[28].figure_type, FigureType::NONE);
    assert_eq!(board.fields[52].figure_type, FigureType::PAWN);
    assert_eq!(board.fields[52].figure_color, FigureColor::WHITE);
    assert_eq!(board.fields[60].figure_type, FigureType::KING);
    assert_eq!(board.fields[60].figure_color, FigureColor::WHITE);
}

#[test]
fn parses_en_passant_target() {
    let board =
        board_from_fen("rnbqkbnr/pppppppp/8/8/4P3/8/PPPP1PPP/RNBQKBNR b KQkq e3 0 1").unwrap();
    assert_eq!(board.en_passant, 44);
    assert_eq!(board.active, FigureColor::BLACK);
}

#[test]
fn parses_partial_castle_rights() {
    let board = board_from_fen("r3k2r/8/8/8/8/8/8/R3K2R w Kq - 0 1").unwrap();
    assert!(board.castle_rights.K);
    assert!(!board.castle_rights.Q);
    assert!(!board.castle_rights.k);
    assert!(board.castle_rights.q);
}

#[test]
fn rejects_bad_piece_letter() {
    let r = board_from_fen("xnbqkbnr/pppppppp/8/8/8/8/PPPPPPPP/RNBQKBNR w KQkq - 0 1");
    assert_eq!(r.unwrap_err(), FenError::PieceLetter);
}

#[test]
fn rejects_wrong_square_count() {
    let r = board_from_fen("rnbqkbnr/pppppppp/8/8/8/8/PPPPPPPP/RNBQKBN w KQkq - 0 1");
    assert_eq!(r.unwrap_err(), FenError::RankStructure);
}

#[test]
fn rejects_bad_side_token() {
    let r = board_from_fen("rnbqkbnr/pppppppp/8/8/8/8/PPPPPPPP/RNBQKBNR x KQkq - 0 1");
    assert_eq!(r.unwrap_err(), FenError::SideToken);
}

#[test]
fn rejects_bad_castle_token() {
    let r = board_from_fen("rnbqkbnr/pppppppp/8/8/8/8/PPPPPPPP/RNBQKBNR w KXkq - 0 1");
    assert_eq!(r.unwrap_err(), FenError::CastleToken);
}

#[test]
fn rejects_bad_en_passant_token() {
    let r = board_from_fen("rnbqkbnr/pppppppp/8/8/8/8/PPPPPPPP/RNBQKBNR w KQkq z9 0 1");
    assert_eq!(r.unwrap_err(), FenError::EnPassantToken);
}

#[test]
fn rejects_missing_tokens() {
    let r = board_from_fen("rnbqkbnr/pppppppp/8/8/8/8/PPPPPPPP/RNBQKBNR");
    assert_eq!(r.unwrap_err(), FenError::SideToken);
}
