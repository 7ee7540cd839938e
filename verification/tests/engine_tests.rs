use connect4_bot::board::new_board;
use connect4_bot::{check_winner, drop_piece, evaluate_board, get_valid_moves, BOT, EMPTY, PLAYER};

fn replay_board(moves: &[u8], rows: u8, columns: u8) -> Vec<u8> {
    let mut board = new_board(rows as usize * columns as usize);
    for (i, &col) in moves.iter().enumerate() {
        let p = if i % 2 == 0 { PLAYER } else { BOT };
        drop_piece(&mut board, col, p, columns, rows);
    }
    board
}

#[test]
fn valid_moves_nonempty_until_full() {
    // A 2x2 grid: after each of the first three legal moves a move remains.
    let rows = 2u8;
    let cols = 2u8;
    let mut board = new_board(4);
    assert_eq!(get_valid_moves(&board, cols), vec![0, 1]);
    drop_piece(&mut board, 0, PLAYER, cols, rows);
    assert_eq!(get_valid_moves(&board, cols), vec![0, 1]);
    drop_piece(&mut board, 0, BOT, cols, rows);
    assert_eq!(get_valid_moves(&board, cols), vec![1]);
    drop_piece(&mut board, 1, PLAYER, cols, rows);
    assert_eq!(get_valid_moves(&board, cols), vec![1]);
    drop_piece(&mut board, 1, BOT, cols, rows);
    assert!(get_valid_moves(&board, cols).is_empty());
}

#[test]
fn empty_board_has_no_winner() {
    let board = new_board(42);
    assert_eq!(check_winner(&board, 4, 6, 7), None);
}

#[test]
fn isolated_pieces_have_no_winner() {
    // Scattered pieces, no run of three anywhere.
    let board = replay_board(&[0, 2, 4, 6, 1], 6, 7);
    assert_eq!(check_winner(&board, 3, 6, 7), None);
}

#[test]
fn horizontal_run_is_found() {
    // The human fills columns 0..3 on the bottom row.
    let board = replay_board(&[0, 0, 1, 1, 2, 2, 3], 6, 7);
    assert_eq!(check_winner(&board, 4, 6, 7), Some(PLAYER));
}

#[test]
fn vertical_run_is_found() {
    // The automated player stacks column 5 four high.
    let board = replay_board(&[0, 5, 1, 5, 2, 5, 6, 5], 6, 7);
    assert_eq!(check_winner(&board, 4, 6, 7), Some(BOT));
}

#[test]
fn diagonal_runs_are_found() {
    // Down-left diagonal of the human: heights 4,3,2,1 in columns 0..3.
    let board = replay_board(&[0, 1, 1, 2, 2, 3, 2, 3, 3, 6, 3], 6, 7);
    assert_eq!(check_winner(&board, 4, 6, 7), Some(PLAYER));
    // Down-right diagonal: mirror it in columns 3..6 with heights 1,2,3,4.
    let board2 = replay_board(&[6, 5, 5, 4, 4, 3, 4, 3, 3, 0, 3], 6, 7);
    assert_eq!(check_winner(&board2, 4, 6, 7), Some(PLAYER));
}

#[test]
fn run_shorter_than_win_condition_is_no_win() {
    let board = replay_board(&[0, 0, 1, 1], 6, 7);
    assert_eq!(check_winner(&board, 4, 6, 7), None);
    assert_eq!(check_winner(&board, 3, 6, 7), None);
}

#[test]
fn first_hit_in_scan_order_decides_between_two_winners() {
    // Degenerate board with a run for each side: the horizontal scan is
    // row-major from the top, so the top row's owner is reported.
    let rows = 2u8;
    let cols = 4u8;
    let mut board = new_board(8);
    for c in 0..4 {
        drop_piece(&mut board, c, PLAYER, cols, rows);
    }
    for c in 0..4 {
        drop_piece(&mut board, c, BOT, cols, rows);
    }
    assert_eq!(check_winner(&board, 4, rows, cols), Some(BOT));
}

#[test]
fn vertical_scan_is_column_major() {
    // Two full columns, one per side: the vertical scan walks columns
    // left to right, so the left column's owner is reported.
    let rows = 4u8;
    let cols = 2u8;
    let mut board = new_board(8);
    for _ in 0..4 {
        drop_piece(&mut board, 0, PLAYER, cols, rows);
        drop_piece(&mut board, 1, BOT, cols, rows);
    }
    assert_eq!(check_winner(&board, 4, rows, cols), Some(PLAYER));
}

#[test]
fn drop_lands_on_lowest_empty_cell() {
    let rows = 3u8;
    let cols = 2u8;
    let mut board = new_board(6);
    drop_piece(&mut board, 1, PLAYER, cols, rows);
    // Row-major, row 2 is the bottom: cell (2, 1) = index 5.
    assert_eq!(board, vec![0, 0, 0, 0, 0, PLAYER]);
    drop_piece(&mut board, 1, BOT, cols, rows);
    assert_eq!(board, vec![0, 0, 0, BOT, 0, PLAYER]);
}

#[test]
fn drop_into_full_column_changes_nothing() {
    let rows = 2u8;
    let cols = 2u8;
    let mut board = new_board(4);
    drop_piece(&mut board, 0, PLAYER, cols, rows);
    drop_piece(&mut board, 0, BOT, cols, rows);
    let before = board.clone();
    drop_piece(&mut board, 0, PLAYER, cols, rows);
    assert_eq!(board, before);
}

#[test]
fn evaluator_exact_value() {
    // One row of three cells: a pair of the automated player, then an
    // empty cell. Pair bonus 1, center occupancy 5, mobility 2 * 1.
    let board = vec![BOT, BOT, EMPTY];
    assert_eq!(evaluate_board(&board, 3), 8);
}

#[test]
fn evaluator_opponent_rows_count_negative() {
    // One row: an opponent pair in columns 0..1, center empty, three
    // legal moves. Pair -1, mobility +6.
    let board = vec![PLAYER, PLAYER, EMPTY, EMPTY, EMPTY];
    assert_eq!(evaluate_board(&board, 5), 5);
}

#[test]
fn empty_board_evaluates_to_mobility_only() {
    let board = new_board(42);
    assert_eq!(evaluate_board(&board, 7), 14);
}
