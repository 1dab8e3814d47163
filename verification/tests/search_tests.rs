use std::collections::HashMap;

use chess_engine::models::{FigureType, PositionDescription};
use chess_engine::search::{nega_max, nega_max_ab};
use chess_engine::utils::board_from_fen;

const START: &str = "rnbqkbnr/pppppppp/8/8/8/8/PPPPPPPP/RNBQKBNR w KQkq - 0 1";

#[test]
fn checkmate_yields_loss_sentinel() {
    // fool's mate: white to move, checkmated
    let board =
        board_from_fen("rnb1kbnr/pppp1ppp/8/4p3/6Pq/5P2/PPPPP2P/RNBQKBNR w KQkq - 0 3").unwrap();
    let mut table: HashMap<u64, PositionDescription> = HashMap::new();
    let mut best_move = (-1i8, (-1i8, FigureType::NONE));
    let score = nega_max_ab(&board, &mut table, 1, &mut best_move);
    assert_eq!(score, -32767);
    // no legal move: the chosen move is left untouched
    assert_eq!(best_move, (-1i8, (-1i8, FigureType::NONE)));
}

#[test]
fn stalemate_yields_zero() {
    // black to move has no legal move and is not in check
    let board = board_from_fen("7k/5Q2/6K1/8/8/8/8/8 b - - 0 1").unwrap();
    let mut table: HashMap<u64, PositionDescription> = HashMap::new();
    let mut best_move = (-1i8, (-1i8, FigureType::NONE));
    let score = nega_max_ab(&board, &mut table, 1, &mut best_move);
    assert_eq!(score, 0);
    assert_eq!(best_move, (-1i8, (-1i8, FigureType::NONE)));
}

#[test]
fn finds_back_rank_mate() {
    // Re1-e8 is mate against the boxed-in king
    let board = board_from_fen("6k1/5ppp/8/8/8/8/8/4R2K w - - 0 1").unwrap();
    let mut table: HashMap<u64, PositionDescription> = HashMap::new();
    let mut best_move = (-1i8, (-1i8, FigureType::NONE));
    let score = nega_max_ab(&board, &mut table, 2, &mut best_move);
    assert_eq!(best_move, (60i8, (4i8, FigureType::NONE)));
    assert!(score > 30000);
}

#[test]
fn search_is_deterministic() {
    let board = board_from_fen(START).unwrap();

    let mut table1: HashMap<u64, PositionDescription> = HashMap::new();
    let mut best1 = (-1i8, (-1i8, FigureType::NONE));
    let score1 = nega_max_ab(&board, &mut table1, 3, &mut best1);

    let mut table2: HashMap<u64, PositionDescription> = HashMap::new();
    let mut best2 = (-1i8, (-1i8, FigureType::NONE));
    let score2 = nega_max_ab(&board, &mut table2, 3, &mut best2);

    assert_eq!(score1, score2);
    assert_eq!(best1, best2);
}

#[test]
fn naive_search_sees_checkmate() {
    // fool's mate again: the unpruned form returns the sentinel untouched
    let board =
        board_from_fen("rnb1kbnr/pppp1ppp/8/4p3/6Pq/5P2/PPPPP2P/RNBQKBNR w KQkq - 0 3").unwrap();
    let mut best_move = (-1i8, (-1i8, FigureType::NONE));
    let score = nega_max(&board, 1, &mut best_move);
    assert_eq!(score, -32767);
}

#[test]
fn naive_search_scores_balanced_opening_as_even() {
    let board = board_from_fen(START).unwrap();
    let mut best_move = (-1i8, (-1i8, FigureType::NONE));
    let score = nega_max(&board, 1, &mut best_move);
    assert_eq!(score, 0);
}

#[test]
fn naive_search_is_deterministic() {
    let board = board_from_fen(START).unwrap();
    let mut best1 = (-1i8, (-1i8, FigureType::NONE));
    let score1 = nega_max(&board, 2, &mut best1);
    let mut best2 = (-1i8, (-1i8, FigureType::NONE));
    let score2 = nega_max(&board, 2, &mut best2);
    assert_eq!(score1, score2);
    assert_eq!(best1, best2);
}

#[test]
fn search_prefers_winning_a_queen() {
    // the white queen on d4 can capture the undefended queen on d7
    let board = board_from_fen("k7/3q4/8/8/3Q4/8/8/K7 w - - 0 1").unwrap();
    let mut table: HashMap<u64, PositionDescription> = HashMap::new();
    let mut best_move = (-1i8, (-1i8, FigureType::NONE));
    nega_max_ab(&board, &mut table, 2, &mut best_move);
    assert_eq!(best_move.0, 35);
    assert_eq!(best_move.1 .0, 11);
}
