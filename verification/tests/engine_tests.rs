use chess_engine::engine::{calc_legal_moves, calc_reachable_fields, is_king_checked, play_move};
use chess_engine::models::{Board, FigureType};
use chess_engine::utils::board_from_fen;

const START: &str = "rnbqkbnr/pppppppp/8/8/8/8/PPPPPPPP/RNBQKBNR w KQkq - 0 1";

fn start_board() -> Board {
    board_from_fen(START).unwrap()
}

/// Exhaustive legal leaf count: the primary correctness oracle for
/// generation, legality and execution.
fn perft(board: &Board, depth: u8) -> u64 {
    if depth == 0 {
        return 1;
    }
    let mut nodes: u64 = 0;
    for index in 0..64i8 {
        let field = board.fields[index as usize];
        if field.figure_color == board.active {
            for m in calc_reachable_fields(index, board, true) {
                let mut board_cpy = board.duplicate();
                play_move(index, m, &mut board_cpy);
                if !is_king_checked(board.active, board_cpy.duplicate()) {
                    nodes += perft(&board_cpy, depth - 1);
                }
            }
        }
    }
    nodes
}

#[test]
fn twenty_opening_moves() {
    let board = start_board();
    let mut count = 0;
    let mut pawn_moves = 0;
    let mut knight_moves = 0;
    for index in 0..64i8 {
        let field = board.fields[index as usize];
        if field.figure_color == board.active {
            for m in calc_legal_moves(index, &board) {
                count += 1;
                // no capture and no castle: every destination is empty
                assert_eq!(board.fields[m.0 as usize].figure_type, FigureType::NONE);
                match field.figure_type {
                    FigureType::PAWN => pawn_moves += 1,
                    FigureType::KNIGHT => knight_moves += 1,
                    _ => panic!("only pawns and knights can move first"),
                }
            }
        }
    }
    assert_eq!(count, 20);
    assert_eq!(pawn_moves, 16);
    assert_eq!(knight_moves, 4);
}

#[test]
fn perft_depth_1() {
    assert_eq!(perft(&start_board(), 1), 20);
}

#[test]
fn perft_depth_2() {
    assert_eq!(perft(&start_board(), 2), 400);
}

#[test]
fn perft_depth_3() {
    assert_eq!(perft(&start_board(), 3), 8902);
}

#[test]
fn perft_depth_4() {
    assert_eq!(perft(&start_board(), 4), 197281);
}

#[test]
fn perft_depth_5() {
    assert_eq!(perft(&start_board(), 5), 4865609);
}

#[test]
fn perft_mixed_position_depth_2() {
    // a castling- and en-passant-heavy benchmark position
    let board =
        board_from_fen("r3k2r/p1ppqpb1/bn2pnp1/3PN3/1p2P3/2N2Q1p/PPPBBPPP/R3K2R w KQkq - 0 1")
            .unwrap();
    assert_eq!(perft(&board, 1), 48);
    assert_eq!(perft(&board, 2), 2039);
}

#[test]
fn perft_mixed_position_depth_3() {
    let board =
        board_from_fen("r3k2r/p1ppqpb1/bn2pnp1/3PN3/1p2P3/2N2Q1p/PPPBBPPP/R3K2R w KQkq - 0 1")
            .unwrap();
    assert_eq!(perft(&board, 3), 97862);
}

#[test]
fn double_step_sets_en_passant_target() {
    let mut board = start_board();
    // e2 -> e4 leaves the skipped square e3 as the target
    play_move(52, (36, FigureType::NONE), &mut board);
    assert_eq!(board.en_passant, 44);
    // any other move clears it again
    play_move(6, (21, FigureType::NONE), &mut board);
    assert_eq!(board.en_passant, -1);
}

#[test]
fn en_passant_capture_removes_pawn() {
    // white pawn e5, black pawn d5 just double-stepped (target d6)
    let mut board = board_from_fen("k7/8/8/3pP3/8/8/8/K7 w - d6 0 1").unwrap();
    assert_eq!(board.en_passant, 19);
    let moves = calc_legal_moves(28, &board);
    assert!(moves.contains(&(19, FigureType::NONE)));
    play_move(28, (19, FigureType::NONE), &mut board);
    // the captured pawn behind the destination is gone
    assert_eq!(board.fields[27].figure_type, FigureType::NONE);
    assert_eq!(board.fields[19].figure_type, FigureType::PAWN);
}

#[test]
fn castling_moves_both_pieces_and_clears_rights() {
    let mut board = board_from_fen("r3k2r/8/8/8/8/8/8/R3K2R w KQkq - 0 1").unwrap();
    let moves = calc_legal_moves(60, &board);
    // both castles are encoded as the king moving onto its own rook
    assert!(moves.contains(&(56, FigureType::NONE)));
    assert!(moves.contains(&(63, FigureType::NONE)));
    play_move(60, (63, FigureType::NONE), &mut board);
    assert_eq!(board.fields[62].figure_type, FigureType::KING);
    assert_eq!(board.fields[61].figure_type, FigureType::ROOK);
    assert_eq!(board.fields[60].figure_type, FigureType::NONE);
    assert_eq!(board.fields[63].figure_type, FigureType::NONE);
    assert!(!board.castle_rights.K);
}

#[test]
fn no_castling_through_check() {
    // a black rook on f2 guards f1: king-side transit is attacked,
    // queen-side is not
    let board = board_from_fen("r3k2r/8/8/8/8/8/5r2/R3K2R w KQkq - 0 1").unwrap();
    let moves = calc_legal_moves(60, &board);
    assert!(moves.contains(&(56, FigureType::NONE)));
    assert!(!moves.contains(&(63, FigureType::NONE)));
}

#[test]
fn no_castling_out_of_check() {
    // a black rook on e8 checks the king: neither castle is legal
    let board = board_from_fen("4r3/8/8/8/8/8/8/R3K2R w KQ - 0 1").unwrap();
    let moves = calc_legal_moves(60, &board);
    assert!(!moves.contains(&(56, FigureType::NONE)));
    assert!(!moves.contains(&(63, FigureType::NONE)));
}

#[test]
fn captured_rook_forfeits_castling_right() {
    // Ra1xa8: both queen-side flags are gone afterwards, king never moved
    let mut board = board_from_fen("r3k2r/8/8/8/8/8/8/R3K2R w KQkq - 0 1").unwrap();
    play_move(56, (0, FigureType::NONE), &mut board);
    assert!(!board.castle_rights.Q);
    assert!(!board.castle_rights.q);
    assert!(board.castle_rights.K);
    assert!(board.castle_rights.k);
}

#[test]
fn moved_rook_forfeits_castling_right() {
    let mut board = board_from_fen("r3k2r/8/8/8/8/8/8/R3K2R w KQkq - 0 1").unwrap();
    // Rh1-g1: white loses only the king-side right
    play_move(63, (62, FigureType::NONE), &mut board);
    assert!(!board.castle_rights.K);
    assert!(board.castle_rights.Q);
    assert!(board.castle_rights.k);
    assert!(board.castle_rights.q);
}

#[test]
fn promotion_choices_are_generated() {
    let board = board_from_fen("8/P6k/8/8/8/8/8/K7 w - - 0 1").unwrap();
    let moves = calc_legal_moves(8, &board);
    assert_eq!(moves.len(), 4);
    assert!(moves.contains(&(0, FigureType::QUEEN)));
    assert!(moves.contains(&(0, FigureType::KNIGHT)));
    assert!(moves.contains(&(0, FigureType::BISHOP)));
    assert!(moves.contains(&(0, FigureType::ROOK)));
}

#[test]
fn promotion_places_chosen_kind() {
    let mut board = board_from_fen("8/P6k/8/8/8/8/8/K7 w - - 0 1").unwrap();
    play_move(8, (0, FigureType::QUEEN), &mut board);
    assert_eq!(board.fields[0].figure_type, FigureType::QUEEN);
    assert_eq!(board.fields[8].figure_type, FigureType::NONE);
}

#[test]
fn pinned_piece_cannot_move() {
    // the white bishop on e2 is pinned by the rook on e8
    let board = board_from_fen("4r2k/8/8/8/8/8/4B3/4K3 w - - 0 1").unwrap();
    let moves = calc_legal_moves(52, &board);
    assert!(moves.is_empty());
}
