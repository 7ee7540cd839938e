//! The static evaluator used at non-terminal search leaves: horizontal
//! run counting, a center-column occupancy bonus per row, and a mobility
//! term of twice the number of legal moves.

use vstd::prelude::*;
use crate::board::{valid_moves, BOT, EMPTY, PLAYER};
use crate::board::lemma_valid_moves_props;

verus! {

/// Score contributed by one more cell of a run that has now reached
/// `count` cells: a pair scores 1, every further cell 10.
pub open spec fn run_bonus(count: int) -> int {
    if count == 2 {
        1
    } else if count > 2 {
        10
    } else {
        0
    }
}

/// Run score of row `r` from column `c` on, with the lengths of the runs
/// of the two sides that end just before `c` carried in.
pub open spec fn row_score_from(
    board: Seq<u8>,
    r: int,
    c: int,
    cols: int,
    bot_run: int,
    player_run: int,
) -> int
    decreases cols - c,
{
    if c < 0 || c >= cols {
        0
    } else {
        let v = board[r * cols + c];
        if v == BOT {
            run_bonus(bot_run + 1) + row_score_from(board, r, c + 1, cols, bot_run + 1, 0)
        } else if v == PLAYER {
            -run_bonus(player_run + 1) + row_score_from(board, r, c + 1, cols, 0, player_run + 1)
        } else {
            row_score_from(board, r, c + 1, cols, 0, 0)
        }
    }
}

/// Center-column occupancy bonus of row `r`: +5 for the automated
/// player, -3 for the opponent.
pub open spec fn center_bonus(board: Seq<u8>, r: int, cols: int) -> int {
    let v = board[r * cols + cols / 2];
    if v == BOT {
        5
    } else if v == PLAYER {
        -3
    } else {
        0
    }
}

/// Sum of run scores and center bonuses of the rows from `r` on.
pub open spec fn rows_score_from(board: Seq<u8>, r: int, rows: int, cols: int) -> int
    decreases rows - r,
{
    if r < 0 || r >= rows {
        0
    } else {
        row_score_from(board, r, 0, cols, 0, 0) + center_bonus(board, r, cols) + rows_score_from(
            board,
            r + 1,
            rows,
            cols,
        )
    }
}

/// The full static score: all rows' run and center scores plus twice the
/// number of legal moves.
pub open spec fn eval_spec(board: Seq<u8>, rows: int, cols: int) -> int {
    rows_score_from(board, 0, rows, cols) + 2 * valid_moves(board, cols).len()
}

/// A row contributes at most 10 per remaining cell in either direction.
pub proof fn lemma_row_score_bound(
    board: Seq<u8>,
    r: int,
    c: int,
    cols: int,
    bot_run: int,
    player_run: int,
)
    ensures
        c <= cols ==> -10 * (cols - c) <= row_score_from(board, r, c, cols, bot_run, player_run)
            <= 10 * (cols - c),
        c >= cols ==> row_score_from(board, r, c, cols, bot_run, player_run) == 0,
    decreases cols - c,
{
    if 0 <= c < cols {
        lemma_row_score_bound(board, r, c + 1, cols, bot_run + 1, 0);
        lemma_row_score_bound(board, r, c + 1, cols, 0, player_run + 1);
        lemma_row_score_bound(board, r, c + 1, cols, 0, 0);
    }
}

/// The rows from `r` on contribute at most 2555 per row on a grid of at
/// most 255 columns.
pub proof fn lemma_rows_score_bound(board: Seq<u8>, r: int, rows: int, cols: int)
    requires
        cols <= 255,
    ensures
        r <= rows ==> -2555 * (rows - r) <= rows_score_from(board, r, rows, cols) <= 2555 * (rows
            - r),
        r >= rows ==> rows_score_from(board, r, rows, cols) == 0,
    decreases rows - r,
{
    if 0 <= r < rows {
        lemma_row_score_bound(board, r, 0, cols, 0, 0);
        lemma_rows_score_bound(board, r + 1, rows, cols);
    }
}

/// The whole static score fits comfortably in a machine integer on any
/// grid of at most 255 x 255 cells.
pub proof fn lemma_eval_bound(board: Seq<u8>, rows: int, cols: int)
    requires
        0 <= rows <= 255,
        0 <= cols <= 255,
    ensures
        -660000 <= eval_spec(board, rows, cols) <= 660000,
{
    lemma_rows_score_bound(board, 0, rows, cols);
    lemma_valid_moves_props(board, cols);
    assert(valid_moves(board, cols).len() <= cols);
}

/// Computes the static score of the board: per row, running counts of
/// consecutive same-owner cells (a pair adds 1, each longer run cell 10,
/// negated for the opponent) plus the center-column bonus, and finally
/// twice the number of legal moves as a mobility term.
#[verifier::loop_isolation(false)]
pub fn evaluate_board(board: &Vec<u8>, columns: u8) -> (score: i32)
    requires
        columns >= 1,
        board@.len() >= columns as int,
        board@.len() <= 255 * (columns as int),
        (board@.len() as int) % (columns as int) == 0,
    ensures
        score as int == eval_spec(board@, board@.len() as int / (columns as int), columns as int),
{
    let cols = columns as usize;
    let n = board.len();
    let rows = n / cols;
    let center = cols / 2;
    let ghost colsi = columns as int;
    let ghost rowsi = rows as int;
    proof {
        vstd::arithmetic::div_mod::lemma_fundamental_div_mod(n as int, colsi);
        assert(n as int == colsi * rowsi);
        assert(rowsi * colsi == n as int && 0 <= rowsi <= 255) by (nonlinear_arith)
            requires
                n as int == colsi * rowsi,
                0 <= n as int <= 255 * colsi,
                colsi >= 1,
        ;
        lemma_rows_score_bound(board@, 0, rowsi, colsi);
    }
    let mut score: i32 = 0;
    let mut r: usize = 0;
    while r < rows
        invariant
            r <= rows,
            score as int + rows_score_from(board@, r as int, rowsi, colsi) == rows_score_from(
                board@,
                0,
                rowsi,
                colsi,
            ),
            -2555 * (r as int) <= score as int <= 2555 * (r as int),
        decreases rows - r,
    {
        proof {
            assert((r as int) * colsi + colsi <= rowsi * colsi && 0 <= (r as int) * colsi)
                by (nonlinear_arith)
                requires
                    0 <= r as int,
                    (r as int) < rowsi,
                    colsi >= 1,
            ;
            lemma_rows_score_bound(board@, r as int + 1, rowsi, colsi);
            lemma_row_score_bound(board@, r as int, 0, colsi, 0, 0);
        }
        let ghost score_at_row_start = score as int;
        let row_base = r * cols;
        let mut bot_count: i32 = 0;
        let mut player_count: i32 = 0;
        let mut c: usize = 0;
        while c < cols
            invariant
                c <= cols,
                0 <= bot_count <= c,
                0 <= player_count <= c,
                row_base == (r as int) * colsi,
                r < rows,
                score as int + row_score_from(
                    board@,
                    r as int,
                    c as int,
                    colsi,
                    bot_count as int,
                    player_count as int,
                ) == score_at_row_start + row_score_from(board@, r as int, 0, colsi, 0, 0),
                -2555 * (r as int) - 10 * (c as int) <= score as int <= 2555 * (r as int) + 10 * (
                c as int),
            decreases cols - c,
        {
            proof {
                lemma_row_score_bound(
                    board@,
                    r as int,
                    c as int + 1,
                    colsi,
                    bot_count as int + 1,
                    0,
                );
                lemma_row_score_bound(
                    board@,
                    r as int,
                    c as int + 1,
                    colsi,
                    0,
                    player_count as int + 1,
                );
                lemma_row_score_bound(board@, r as int, c as int + 1, colsi, 0, 0);
            }
            let idx = row_base + c;
            if board[idx] == BOT {
                bot_count = bot_count + 1;
                player_count = 0;
                if bot_count >= 2 {
                    score = score + (if bot_count == 2 {
                        1
                    } else {
                        10
                    });
                }
            } else if board[idx] == PLAYER {
                player_count = player_count + 1;
                bot_count = 0;
                if player_count >= 2 {
                    score = score - (if player_count == 2 {
                        1
                    } else {
                        10
                    });
                }
            } else {
                bot_count = 0;
                player_count = 0;
            }
            c = c + 1;
        }
        let center_idx = row_base + center;
        if board[center_idx] == BOT {
            score = score + 5;
        } else if board[center_idx] == PLAYER {
            score = score - 3;
        }
        r = r + 1;
    }
    proof {
        lemma_valid_moves_props(board@, colsi);
    }
    let valid = get_valid_count(board, columns);
    score + (valid as i32) * 2
}

/// Counts the legal moves: columns whose top cell is empty.
#[verifier::loop_isolation(false)]
fn get_valid_count(board: &Vec<u8>, columns: u8) -> (r: u8)
    requires
        board@.len() >= columns as int,
    ensures
        r as int == valid_moves(board@, columns as int).len(),
{
    let mut count: u8 = 0;
    let mut c: usize = 0;
    while c < columns as usize
        invariant
            c <= columns,
            count as int == valid_moves(board@, c as int).len(),
            count <= c,
        decreases columns as int - c,
    {
        if board[c] == EMPTY {
            count = count + 1;
        }
        c = c + 1;
    }
    count
}

} // verus!
