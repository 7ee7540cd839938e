use connect4_bot::board::new_board;
use connect4_bot::{
    alphabeta, compute_move, easy_bot, drop_piece, insane_bot, medium_bot, minimax, BOT, PLAYER,
};

fn replay_board(moves: &[u8], rows: u8, columns: u8) -> Vec<u8> {
    let mut board = new_board(rows as usize * columns as usize);
    for (i, &col) in moves.iter().enumerate() {
        let p = if i % 2 == 0 { PLAYER } else { BOT };
        drop_piece(&mut board, col, p, columns, rows);
    }
    board
}

#[test]
fn minimax_and_alphabeta_agree_on_values() {
    // Same board, same depth, full window: identical values.
    let board = replay_board(&[3, 3, 2, 4], 6, 7);
    for depth in 0..4u8 {
        let m = minimax(&board, depth, true, 6, 7, 4);
        let a = alphabeta(&board, depth, i32::MIN, i32::MAX, true, 6, 7, 4);
        // The two searches shape terminal scores differently (1000 vs
        // 10000), which only matters on decided boards; this one is
        // open at these depths, so the leaf values coincide.
        assert_eq!(m, a, "depth {}", depth);
    }
}

#[test]
fn minimax_terminal_score_formula() {
    // A board the automated player has already won: 1000 plus the
    // remaining depth, so a win found earlier scores higher.
    let board = replay_board(&[6, 0, 6, 1, 5, 2, 5, 3], 6, 7);
    assert_eq!(minimax(&board, 4, true, 6, 7, 4), 1004);
    assert_eq!(minimax(&board, 0, false, 6, 7, 4), 1000);
    assert_eq!(alphabeta(&board, 8, i32::MIN, i32::MAX, false, 6, 7, 4), 10008);
}

#[test]
fn searches_pick_the_immediate_win() {
    // Bottom row: the automated player owns columns 0..2 and wins at 3;
    // the opponent threatens a vertical win in column 6 next turn.
    let moves = [6u8, 0, 6, 1, 6, 2, 5];
    let board = replay_board(&moves, 6, 7);
    assert_eq!(medium_bot(&board, 6, 7, 4), 3);
    assert_eq!(insane_bot(&board, 6, 7, 4), 3);
    assert_eq!(compute_move(moves.to_vec(), "medium".to_owned(), 6, 7, 4), 3);
    assert_eq!(compute_move(moves.to_vec(), "insane".to_owned(), 6, 7, 4), 3);
}

#[test]
fn easy_prefers_the_center_column() {
    let board = new_board(42);
    assert_eq!(easy_bot(&board, 7), 3);
}

#[test]
fn easy_returns_a_legal_move_when_center_is_full() {
    // Column 3 of the 7x6 grid is filled to the top.
    let board = replay_board(&[3, 3, 3, 3, 3, 3], 6, 7);
    for _ in 0..25 {
        let m = easy_bot(&board, 7);
        assert!(m <= 6);
        assert_ne!(m, 3);
    }
}

#[test]
fn easy_on_one_column_board_returns_it() {
    let board = new_board(4);
    // A 4x1 grid: the single column is also the center column.
    assert_eq!(easy_bot(&board, 1), 0);
}

#[test]
fn medium_on_empty_history_short_circuits() {
    // No moves played: it is the human's turn, so the engine answers
    // with the first legal column without searching.
    let m = compute_move(Vec::new(), "medium".to_owned(), 6, 7, 4);
    assert_eq!(m, 0);
    assert!(m <= 6);
}

#[test]
fn even_history_is_not_the_automated_players_turn() {
    // Two moves played: the next mover is the human, so the engine
    // returns the first legal column in ascending order.
    assert_eq!(compute_move(vec![3, 3], "insane".to_owned(), 6, 7, 4), 0);
}

#[test]
fn three_stacked_moves_get_a_legal_answer() {
    // Column 3 holds three pieces; the move count is odd, so the
    // engine searches and must answer with a legal column.
    let m = compute_move(vec![3, 3, 3], "insane".to_owned(), 6, 7, 4);
    assert!(m <= 6);
}

#[test]
fn unknown_difficulty_behaves_like_easy() {
    // Center column legal: the random tier short-circuits to it.
    let m = compute_move(vec![0], "nightmare".to_owned(), 6, 7, 4);
    assert_eq!(m, 3);
}

#[test]
fn full_board_returns_zero() {
    // A 1x2 grid filled by two moves, then a move is requested.
    let m = compute_move(vec![0, 1, 1], "medium".to_owned(), 1, 2, 1);
    assert_eq!(m, 0);
}

#[test]
fn deterministic_tiers_repeat_their_choice() {
    let moves = [3u8, 2, 4, 2, 1];
    let m1 = compute_move(moves.to_vec(), "medium".to_owned(), 6, 7, 4);
    let m2 = compute_move(moves.to_vec(), "medium".to_owned(), 6, 7, 4);
    assert_eq!(m1, m2);
    let i1 = compute_move(moves.to_vec(), "insane".to_owned(), 6, 7, 4);
    let i2 = compute_move(moves.to_vec(), "insane".to_owned(), 6, 7, 4);
    assert_eq!(i1, i2);
    let e = compute_move(moves.to_vec(), "easy".to_owned(), 6, 7, 4);
    assert!(e <= 6);
}
