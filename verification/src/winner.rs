//! Win detection: scanning the board for a run of `win` consecutive
//! same-owner cells along any of the four line orientations.

use vstd::prelude::*;
use crate::board::{board_wf, cell_index, drop_spec, empty_board, lemma_drop_spec_props, lowest_empty_row, EMPTY, PLAYER, BOT};

verus! {

/// The `len` cells at `start`, `start + step`, ... all hold `p`.
pub open spec fn run_at(board: Seq<u8>, start: int, step: int, len: int, p: u8) -> bool
    decreases len,
{
    len <= 0 || (board[start] == p && run_at(board, start + step, step, len - 1, p))
}

/// A winning run begins at row `r`, column `c`, heading right.
pub open spec fn win_start_h(board: Seq<u8>, r: int, c: int, win: int, cols: int) -> bool {
    board[cell_index(r, c, cols)] != EMPTY && run_at(
        board,
        cell_index(r, c, cols),
        1,
        win,
        board[cell_index(r, c, cols)],
    )
}

/// A winning run begins at row `r`, column `c`, heading down.
pub open spec fn win_start_v(board: Seq<u8>, r: int, c: int, win: int, cols: int) -> bool {
    board[cell_index(r, c, cols)] != EMPTY && run_at(
        board,
        cell_index(r, c, cols),
        cols,
        win,
        board[cell_index(r, c, cols)],
    )
}

/// A winning run begins at row `r`, column `c`, heading down-right.
pub open spec fn win_start_d1(board: Seq<u8>, r: int, c: int, win: int, cols: int) -> bool {
    board[cell_index(r, c, cols)] != EMPTY && run_at(
        board,
        cell_index(r, c, cols),
        cols + 1,
        win,
        board[cell_index(r, c, cols)],
    )
}

/// A winning run begins at row `r`, column `c`, heading down-left.
pub open spec fn win_start_d2(board: Seq<u8>, r: int, c: int, win: int, cols: int) -> bool {
    board[cell_index(r, c, cols)] != EMPTY && run_at(
        board,
        cell_index(r, c, cols),
        cols - 1,
        win,
        board[cell_index(r, c, cols)],
    )
}

/// `p` owns a fully in-bounds horizontal run of length `win`.
pub open spec fn has_run_h(board: Seq<u8>, win: int, rows: int, cols: int, p: u8) -> bool {
    exists|r: int, c: int|
        0 <= r < rows && 0 <= c && c + win <= cols && #[trigger] win_start_h(board, r, c, win, cols)
            && board[cell_index(r, c, cols)] == p
}

/// `p` owns a fully in-bounds vertical run of length `win`.
pub open spec fn has_run_v(board: Seq<u8>, win: int, rows: int, cols: int, p: u8) -> bool {
    exists|r: int, c: int|
        0 <= r && r + win <= rows && 0 <= c < cols && #[trigger] win_start_v(board, r, c, win, cols)
            && board[cell_index(r, c, cols)] == p
}

/// `p` owns a fully in-bounds down-right diagonal run of length `win`.
pub open spec fn has_run_d1(board: Seq<u8>, win: int, rows: int, cols: int, p: u8) -> bool {
    exists|r: int, c: int|
        0 <= r && r + win <= rows && 0 <= c && c + win <= cols && #[trigger] win_start_d1(
            board,
            r,
            c,
            win,
            cols,
        ) && board[cell_index(r, c, cols)] == p
}

/// `p` owns a fully in-bounds down-left diagonal run of length `win`.
pub open spec fn has_run_d2(board: Seq<u8>, win: int, rows: int, cols: int, p: u8) -> bool {
    exists|r: int, c: int|
        0 <= r && r + win <= rows && win - 1 <= c < cols && #[trigger] win_start_d2(
            board,
            r,
            c,
            win,
            cols,
        ) && board[cell_index(r, c, cols)] == p
}

/// `p` has won: some run of `win` consecutive cells of `p` lies fully on
/// the board in one of the four orientations.
pub open spec fn is_winner(board: Seq<u8>, win: int, rows: int, cols: int, p: u8) -> bool {
    p != EMPTY && (has_run_h(board, win, rows, cols, p) || has_run_v(board, win, rows, cols, p)
        || has_run_d1(board, win, rows, cols, p) || has_run_d2(board, win, rows, cols, p))
}

/// No side has a winning run on the board.
pub open spec fn no_winner(board: Seq<u8>, win: int, rows: int, cols: int) -> bool {
    forall|p: u8| !is_winner(board, win, rows, cols, p)
}

/// Each cell of a run holds the run's owner.
pub proof fn lemma_run_at_index(board: Seq<u8>, start: int, step: int, len: int, p: u8, k: int)
    requires
        0 <= k < len,
        run_at(board, start, step, len, p),
    ensures
        board[start + k * step] == p,
    decreases k,
{
    if k == 0 {
        assert(k * step == 0) by (nonlinear_arith)
            requires
                k == 0,
        ;
    } else {
        lemma_run_at_index(board, start + step, step, len - 1, p, k - 1);
        assert((start + step) + (k - 1) * step == start + k * step) by (nonlinear_arith);
    }
}

/// A run of length `k` whose next cell also holds `p` extends to `k + 1`.
pub proof fn lemma_run_at_extend(board: Seq<u8>, start: int, step: int, k: int, p: u8)
    requires
        k >= 0,
        run_at(board, start, step, k, p),
        board[start + k * step] == p,
    ensures
        run_at(board, start, step, k + 1, p),
    decreases k,
{
    if k == 0 {
        assert(k * step == 0) by (nonlinear_arith)
            requires
                k == 0,
        ;
        assert(board[start] == p);
        assert(run_at(board, start + step, step, 0, p));
    } else {
        assert((start + step) + (k - 1) * step == start + k * step) by (nonlinear_arith);
        lemma_run_at_extend(board, start + step, step, k - 1, p);
        assert(board[start] == p);
    }
}

/// Rewriting one cell to a value other than `q` cannot create a run of
/// `q`: the run avoids the changed cell, so it already stood before.
pub proof fn lemma_run_update_other(
    board: Seq<u8>,
    i: int,
    v: u8,
    start: int,
    step: int,
    len: int,
    q: u8,
)
    requires
        0 <= i < board.len(),
        v != q,
        0 <= start,
        0 <= step,
        len >= 1,
        start + (len - 1) * step < board.len(),
        run_at(board.update(i, v), start, step, len, q),
    ensures
        run_at(board, start, step, len, q),
    decreases len,
{
    let b2 = board.update(i, v);
    assert(0 <= (len - 1) * step) by (nonlinear_arith)
        requires
            len >= 1,
            step >= 0,
    ;
    assert(b2[start] == q);
    assert(start != i);
    if len > 1 {
        assert((start + step) + (len - 2) * step == start + (len - 1) * step) by (nonlinear_arith);
        lemma_run_update_other(board, i, v, start + step, step, len - 1, q);
    } else {
        assert(run_at(board, start + step, step, 0, q));
    }
}

/// Owner of the first winning run in row `r` of the horizontal scan at
/// or right of column `c`, windows tried left to right.
pub open spec fn scan_h_row(board: Seq<u8>, win: int, rows: int, cols: int, r: int, c: int) -> Option<
    u8,
>
    decreases cols - c,
{
    if c < 0 || c >= cols || c + win > cols {
        None
    } else if win_start_h(board, r, c, win, cols) {
        Some(board[cell_index(r, c, cols)])
    } else {
        scan_h_row(board, win, rows, cols, r, c + 1)
    }
}

/// Owner of the first winning run of the horizontal scan at or below
/// row `r`, rows tried top to bottom, row-major.
pub open spec fn scan_h(board: Seq<u8>, win: int, rows: int, cols: int, r: int) -> Option<u8>
    decreases rows - r,
{
    if r < 0 || r >= rows {
        None
    } else if scan_h_row(board, win, rows, cols, r, 0) is Some {
        scan_h_row(board, win, rows, cols, r, 0)
    } else {
        scan_h(board, win, rows, cols, r + 1)
    }
}

/// Owner of the first winning run in column `c` of the vertical scan at
/// or below row `r`, windows tried top to bottom.
pub open spec fn scan_v_col(board: Seq<u8>, win: int, rows: int, cols: int, c: int, r: int) -> Option<
    u8,
>
    decreases rows - r,
{
    if r < 0 || r >= rows || r + win > rows {
        None
    } else if win_start_v(board, r, c, win, cols) {
        Some(board[cell_index(r, c, cols)])
    } else {
        scan_v_col(board, win, rows, cols, c, r + 1)
    }
}

/// Owner of the first winning run of the vertical scan at or right of
/// column `c`, columns tried left to right, column-major.
pub open spec fn scan_v(board: Seq<u8>, win: int, rows: int, cols: int, c: int) -> Option<u8>
    decreases cols - c,
{
    if c < 0 || c >= cols {
        None
    } else if scan_v_col(board, win, rows, cols, c, 0) is Some {
        scan_v_col(board, win, rows, cols, c, 0)
    } else {
        scan_v(board, win, rows, cols, c + 1)
    }
}

/// Owner of the first winning down-right run in row `r` at or right of
/// column `c`.
pub open spec fn scan_d1_row(board: Seq<u8>, win: int, rows: int, cols: int, r: int, c: int) -> Option<
    u8,
>
    decreases cols - c,
{
    if c < 0 || c >= cols || c + win > cols {
        None
    } else if win_start_d1(board, r, c, win, cols) {
        Some(board[cell_index(r, c, cols)])
    } else {
        scan_d1_row(board, win, rows, cols, r, c + 1)
    }
}

/// Owner of the first winning run of the down-right diagonal scan at or
/// below row `r`, row-major.
pub open spec fn scan_d1(board: Seq<u8>, win: int, rows: int, cols: int, r: int) -> Option<u8>
    decreases rows - r,
{
    if r < 0 || r >= rows || r + win > rows {
        None
    } else if scan_d1_row(board, win, rows, cols, r, 0) is Some {
        scan_d1_row(board, win, rows, cols, r, 0)
    } else {
        scan_d1(board, win, rows, cols, r + 1)
    }
}

/// Owner of the first winning down-left run in row `r` at or right of
/// column `c`; a window needs `win - 1` columns to its left.
pub open spec fn scan_d2_row(board: Seq<u8>, win: int, rows: int, cols: int, r: int, c: int) -> Option<
    u8,
>
    decreases cols - c,
{
    if c < 0 || c >= cols {
        None
    } else if c >= win - 1 && win_start_d2(board, r, c, win, cols) {
        Some(board[cell_index(r, c, cols)])
    } else {
        scan_d2_row(board, win, rows, cols, r, c + 1)
    }
}

/// Owner of the first winning run of the down-left diagonal scan at or
/// below row `r`, row-major.
pub open spec fn scan_d2(board: Seq<u8>, win: int, rows: int, cols: int, r: int) -> Option<u8>
    decreases rows - r,
{
    if r < 0 || r >= rows || r + win > rows {
        None
    } else if scan_d2_row(board, win, rows, cols, r, win - 1) is Some {
        scan_d2_row(board, win, rows, cols, r, win - 1)
    } else {
        scan_d2(board, win, rows, cols, r + 1)
    }
}

/// Owner of the first winning run of the whole fixed scan order:
/// horizontal windows row-major, then vertical windows column-major,
/// then the down-right and down-left diagonal families row-major.
pub open spec fn first_winner(board: Seq<u8>, win: int, rows: int, cols: int) -> Option<u8> {
    if scan_h(board, win, rows, cols, 0) is Some {
        scan_h(board, win, rows, cols, 0)
    } else if scan_v(board, win, rows, cols, 0) is Some {
        scan_v(board, win, rows, cols, 0)
    } else if scan_d1(board, win, rows, cols, 0) is Some {
        scan_d1(board, win, rows, cols, 0)
    } else {
        scan_d2(board, win, rows, cols, 0)
    }
}

/// A row scan skips its cleared prefix.
proof fn lemma_scan_h_row_from(board: Seq<u8>, win: int, rows: int, cols: int, r: int, c: int)
    requires
        c >= 0,
        forall|c2: int|
            0 <= c2 < c && c2 + win <= cols ==> !win_start_h(board, r, c2, win, cols),
    ensures
        scan_h_row(board, win, rows, cols, r, 0) == scan_h_row(board, win, rows, cols, r, c),
    decreases c,
{
    if c > 0 {
        lemma_scan_h_row_from(board, win, rows, cols, r, c - 1);
    }
}

/// The horizontal scan skips its cleared rows.
proof fn lemma_scan_h_from(board: Seq<u8>, win: int, rows: int, cols: int, r: int)
    requires
        r >= 0,
        forall|r2: int, c2: int|
            0 <= r2 < r && 0 <= c2 && c2 + win <= cols ==> !win_start_h(board, r2, c2, win, cols),
    ensures
        scan_h(board, win, rows, cols, 0) == scan_h(board, win, rows, cols, r),
    decreases r,
{
    if r > 0 {
        lemma_scan_h_from(board, win, rows, cols, r - 1);
        if r - 1 < rows {
            let cstar: int = if cols - win + 1 >= 0 {
                cols - win + 1
            } else {
                0
            };
            lemma_scan_h_row_from(board, win, rows, cols, r - 1, cstar);
            assert(scan_h_row(board, win, rows, cols, r - 1, cstar) is None);
        }
    }
}

/// A column scan skips its cleared prefix.
proof fn lemma_scan_v_col_from(board: Seq<u8>, win: int, rows: int, cols: int, c: int, r: int)
    requires
        r >= 0,
        forall|r2: int|
            0 <= r2 < r && r2 + win <= rows ==> !win_start_v(board, r2, c, win, cols),
    ensures
        scan_v_col(board, win, rows, cols, c, 0) == scan_v_col(board, win, rows, cols, c, r),
    decreases r,
{
    if r > 0 {
        lemma_scan_v_col_from(board, win, rows, cols, c, r - 1);
    }
}

/// The vertical scan skips its cleared columns.
proof fn lemma_scan_v_from(board: Seq<u8>, win: int, rows: int, cols: int, c: int)
    requires
        c >= 0,
        forall|r2: int, c2: int|
            0 <= c2 < c && 0 <= r2 && r2 + win <= rows ==> !win_start_v(board, r2, c2, win, cols),
    ensures
        scan_v(board, win, rows, cols, 0) == scan_v(board, win, rows, cols, c),
    decreases c,
{
    if c > 0 {
        lemma_scan_v_from(board, win, rows, cols, c - 1);
        if c - 1 < cols {
            let rstar: int = if rows - win + 1 >= 0 {
                rows - win + 1
            } else {
                0
            };
            lemma_scan_v_col_from(board, win, rows, cols, c - 1, rstar);
            assert(scan_v_col(board, win, rows, cols, c - 1, rstar) is None);
        }
    }
}

/// A down-right row scan skips its cleared prefix.
proof fn lemma_scan_d1_row_from(board: Seq<u8>, win: int, rows: int, cols: int, r: int, c: int)
    requires
        c >= 0,
        forall|c2: int|
            0 <= c2 < c && c2 + win <= cols ==> !win_start_d1(board, r, c2, win, cols),
    ensures
        scan_d1_row(board, win, rows, cols, r, 0) == scan_d1_row(board, win, rows, cols, r, c),
    decreases c,
{
    if c > 0 {
        lemma_scan_d1_row_from(board, win, rows, cols, r, c - 1);
    }
}

/// The down-right scan skips its cleared rows.
proof fn lemma_scan_d1_from(board: Seq<u8>, win: int, rows: int, cols: int, r: int)
    requires
        r >= 0,
        forall|r2: int, c2: int|
            0 <= r2 < r && r2 + win <= rows && 0 <= c2 && c2 + win <= cols ==> !win_start_d1(
                board,
                r2,
                c2,
                win,
                cols,
            ),
    ensures
        scan_d1(board, win, rows, cols, 0) == scan_d1(board, win, rows, cols, r),
    decreases r,
{
    if r > 0 {
        lemma_scan_d1_from(board, win, rows, cols, r - 1);
        if r - 1 + win <= rows {
            let cstar: int = if cols - win + 1 >= 0 {
                cols - win + 1
            } else {
                0
            };
            lemma_scan_d1_row_from(board, win, rows, cols, r - 1, cstar);
            assert(scan_d1_row(board, win, rows, cols, r - 1, cstar) is None);
        }
    }
}

/// A down-left row scan skips its cleared prefix.
proof fn lemma_scan_d2_row_from(board: Seq<u8>, win: int, rows: int, cols: int, r: int, c: int)
    requires
        win >= 1,
        c >= win - 1,
        forall|c2: int|
            win - 1 <= c2 < c && c2 < cols ==> !win_start_d2(board, r, c2, win, cols),
    ensures
        scan_d2_row(board, win, rows, cols, r, win - 1) == scan_d2_row(board, win, rows, cols, r, c),
    decreases c - win + 1,
{
    if c > win - 1 {
        lemma_scan_d2_row_from(board, win, rows, cols, r, c - 1);
    }
}

/// The down-left scan skips its cleared rows.
proof fn lemma_scan_d2_from(board: Seq<u8>, win: int, rows: int, cols: int, r: int)
    requires
        win >= 1,
        r >= 0,
        forall|r2: int, c2: int|
            0 <= r2 < r && r2 + win <= rows && win - 1 <= c2 && c2 < cols ==> !win_start_d2(
                board,
                r2,
                c2,
                win,
                cols,
            ),
    ensures
        scan_d2(board, win, rows, cols, 0) == scan_d2(board, win, rows, cols, r),
    decreases r,
{
    if r > 0 {
        lemma_scan_d2_from(board, win, rows, cols, r - 1);
        if r - 1 + win <= rows {
            let cstar: int = if cols >= win - 1 {
                cols
            } else {
                win - 1
            };
            lemma_scan_d2_row_from(board, win, rows, cols, r - 1, cstar);
            assert(scan_d2_row(board, win, rows, cols, r - 1, cstar) is None);
        }
    }
}

/// An empty board has no winner: every run would need an occupied cell.
pub proof fn lemma_empty_board_no_winner(win: int, rows: int, cols: int)
    requires
        win >= 1,
    ensures
        no_winner(empty_board(rows * cols), win, rows, cols),
{
    let b = empty_board(rows * cols);
    assert forall|p: u8| !is_winner(b, win, rows, cols, p) by {
        if is_winner(b, win, rows, cols, p) {
            if has_run_h(b, win, rows, cols, p) {
                let (r, c) = choose|r: int, c: int|
                    0 <= r < rows && 0 <= c && c + win <= cols && #[trigger] win_start_h(
                        b,
                        r,
                        c,
                        win,
                        cols,
                    ) && b[cell_index(r, c, cols)] == p;
                assert(0 <= r * cols + c < rows * cols) by (nonlinear_arith)
                    requires
                        0 <= r < rows,
                        0 <= c < cols,
                ;
                assert(b[cell_index(r, c, cols)] == EMPTY);
            } else if has_run_v(b, win, rows, cols, p) {
                let (r, c) = choose|r: int, c: int|
                    0 <= r && r + win <= rows && 0 <= c < cols && #[trigger] win_start_v(
                        b,
                        r,
                        c,
                        win,
                        cols,
                    ) && b[cell_index(r, c, cols)] == p;
                assert(0 <= r * cols + c < rows * cols) by (nonlinear_arith)
                    requires
                        0 <= r,
                        r < rows,
                        0 <= c < cols,
                ;
                assert(b[cell_index(r, c, cols)] == EMPTY);
            } else if has_run_d1(b, win, rows, cols, p) {
                let (r, c) = choose|r: int, c: int|
                    0 <= r && r + win <= rows && 0 <= c && c + win <= cols && #[trigger] win_start_d1(
                        b,
                        r,
                        c,
                        win,
                        cols,
                    ) && b[cell_index(r, c, cols)] == p;
                assert(0 <= r * cols + c < rows * cols) by (nonlinear_arith)
                    requires
                        0 <= r,
                        r < rows,
                        0 <= c < cols,
                ;
                assert(b[cell_index(r, c, cols)] == EMPTY);
            } else {
                let (r, c) = choose|r: int, c: int|
                    0 <= r && r + win <= rows && win - 1 <= c < cols && #[trigger] win_start_d2(
                        b,
                        r,
                        c,
                        win,
                        cols,
                    ) && b[cell_index(r, c, cols)] == p;
                assert(0 <= r * cols + c < rows * cols) by (nonlinear_arith)
                    requires
                        0 <= r,
                        r < rows,
                        0 <= c < cols,
                ;
                assert(b[cell_index(r, c, cols)] == EMPTY);
            }
        }
    }
}

/// On a well-formed board a winner is one of the two sides.
pub proof fn lemma_winner_is_side(board: Seq<u8>, win: int, rows: int, cols: int, p: u8)
    requires
        board_wf(board, rows, cols),
        is_winner(board, win, rows, cols, p),
        win >= 1,
    ensures
        p == PLAYER || p == BOT,
{
    if has_run_h(board, win, rows, cols, p) {
        let (r, c) = choose|r: int, c: int|
            0 <= r < rows && 0 <= c && c + win <= cols && #[trigger] win_start_h(board, r, c, win, cols)
                && board[cell_index(r, c, cols)] == p;
        assert(0 <= r * cols + c < rows * cols) by (nonlinear_arith)
            requires
                0 <= r < rows,
                0 <= c < cols,
        ;
    } else if has_run_v(board, win, rows, cols, p) {
        let (r, c) = choose|r: int, c: int|
            0 <= r && r + win <= rows && 0 <= c < cols && #[trigger] win_start_v(board, r, c, win, cols)
                && board[cell_index(r, c, cols)] == p;
        assert(0 <= r * cols + c < rows * cols) by (nonlinear_arith)
            requires
                0 <= r,
                r < rows,
                0 <= c < cols,
        ;
    } else if has_run_d1(board, win, rows, cols, p) {
        let (r, c) = choose|r: int, c: int|
            0 <= r && r + win <= rows && 0 <= c && c + win <= cols && #[trigger] win_start_d1(
                board,
                r,
                c,
                win,
                cols,
            ) && board[cell_index(r, c, cols)] == p;
        assert(0 <= r * cols + c < rows * cols) by (nonlinear_arith)
            requires
                0 <= r,
                r < rows,
                0 <= c < cols,
        ;
    } else {
        let (r, c) = choose|r: int, c: int|
            0 <= r && r + win <= rows && win - 1 <= c < cols && #[trigger] win_start_d2(
                board,
                r,
                c,
                win,
                cols,
            ) && board[cell_index(r, c, cols)] == p;
        assert(0 <= r * cols + c < rows * cols) by (nonlinear_arith)
            requires
                0 <= r,
                r < rows,
                0 <= c < cols,
        ;
    }
}

/// A drop by one side cannot create a winning run for the other side:
/// the other side's runs are untouched by the one rewritten cell.
pub proof fn lemma_drop_keeps_other_no_win(
    board: Seq<u8>,
    col: int,
    p: u8,
    q: u8,
    win: int,
    rows: int,
    cols: int,
)
    requires
        board.len() == rows * cols,
        0 <= col < cols,
        1 <= rows <= 255,
        1 <= cols <= 255,
        win >= 1,
        p != q,
        !is_winner(board, win, rows, cols, q),
    ensures
        !is_winner(drop_spec(board, col, p, rows, cols), win, rows, cols, q),
{
    lemma_drop_spec_props(board, col, p, rows, cols);
    let lr = lowest_empty_row(board, col, cols, rows - 1);
    if lr >= 0 && q != EMPTY {
        let i = lr * cols + col;
        let b2 = drop_spec(board, col, p, rows, cols);
        if is_winner(b2, win, rows, cols, q) {
            if has_run_h(b2, win, rows, cols, q) {
                let (r, c) = choose|r: int, c: int|
                    0 <= r < rows && 0 <= c && c + win <= cols && #[trigger] win_start_h(
                        b2,
                        r,
                        c,
                        win,
                        cols,
                    ) && b2[cell_index(r, c, cols)] == q;
                assert(0 <= r * cols + c && r * cols + c + (win - 1) * 1 < rows * cols)
                    by (nonlinear_arith)
                    requires
                        0 <= r < rows,
                        0 <= c,
                        c + win <= cols,
                        win >= 1,
                ;
                lemma_run_update_other(board, i, p, cell_index(r, c, cols), 1, win, q);
                assert(win_start_h(board, r, c, win, cols));
                assert(has_run_h(board, win, rows, cols, q));
            } else if has_run_v(b2, win, rows, cols, q) {
                let (r, c) = choose|r: int, c: int|
                    0 <= r && r + win <= rows && 0 <= c < cols && #[trigger] win_start_v(
                        b2,
                        r,
                        c,
                        win,
                        cols,
                    ) && b2[cell_index(r, c, cols)] == q;
                assert(0 <= r * cols + c && r * cols + c + (win - 1) * cols < rows * cols)
                    by (nonlinear_arith)
                    requires
                        0 <= r,
                        r + win <= rows,
                        0 <= c < cols,
                        win >= 1,
                ;
                lemma_run_update_other(board, i, p, cell_index(r, c, cols), cols, win, q);
                assert(win_start_v(board, r, c, win, cols));
                assert(has_run_v(board, win, rows, cols, q));
            } else if has_run_d1(b2, win, rows, cols, q) {
                let (r, c) = choose|r: int, c: int|
                    0 <= r && r + win <= rows && 0 <= c && c + win <= cols && #[trigger] win_start_d1(
                        b2,
                        r,
                        c,
                        win,
                        cols,
                    ) && b2[cell_index(r, c, cols)] == q;
                assert(0 <= r * cols + c && r * cols + c + (win - 1) * (cols + 1) < rows * cols)
                    by (nonlinear_arith)
                    requires
                        0 <= r,
                        r + win <= rows,
                        0 <= c,
                        c + win <= cols,
                        win >= 1,
                ;
                lemma_run_update_other(board, i, p, cell_index(r, c, cols), cols + 1, win, q);
                assert(win_start_d1(board, r, c, win, cols));
                assert(has_run_d1(board, win, rows, cols, q));
            } else {
                let (r, c) = choose|r: int, c: int|
                    0 <= r && r + win <= rows && win - 1 <= c < cols && #[trigger] win_start_d2(
                        b2,
                        r,
                        c,
                        win,
                        cols,
                    ) && b2[cell_index(r, c, cols)] == q;
                assert(0 <= r * cols + c && r * cols + c + (win - 1) * (cols - 1) < rows * cols
                    && 0 <= cols - 1) by (nonlinear_arith)
                    requires
                        0 <= r,
                        r + win <= rows,
                        win - 1 <= c < cols,
                        win >= 1,
                        win <= cols,
                ;
                lemma_run_update_other(board, i, p, cell_index(r, c, cols), cols - 1, win, q);
                assert(win_start_d2(board, r, c, win, cols));
                assert(has_run_d2(board, win, rows, cols, q));
            }
        }
    }
}

/// Tests whether the cell at `start` is occupied and begins a run of
/// `win` cells of its owner, advancing by `step` cells each time.
#[verifier::loop_isolation(false)]
fn is_run(board: &Vec<u8>, start: usize, step: usize, win: u8) -> (b: bool)
    requires
        win >= 1,
        start as int + (win as int - 1) * (step as int) < board@.len(),
    ensures
        b == (board@[start as int] != EMPTY && run_at(
            board@,
            start as int,
            step as int,
            win as int,
            board@[start as int],
        )),
{
    proof {
        assert(0 <= (win as int - 1) * (step as int)) by (nonlinear_arith)
            requires
                (win as int) >= 1,
                (step as int) >= 0,
        ;
    }
    let total = board.len();
    let cell = board[start];
    if cell == EMPTY {
        return false;
    }
    proof {
        assert(start as int + (win as int - 1) * (step as int) < total as int);
    }
    proof {
        assert(run_at(board@, start as int + step as int, step as int, 0, cell));
    }
    let mut k: usize = 1;
    while k < win as usize
        invariant
            1 <= k <= win,
            win >= 1,
            cell == board@[start as int],
            cell != EMPTY,
            start as int + (win as int - 1) * (step as int) < board@.len(),
            run_at(board@, start as int, step as int, k as int, cell),
        decreases win as int - k,
    {
        proof {
            assert((k as int) * (step as int) <= (win as int - 1) * (step as int)
                && 0 <= (k as int) * (step as int)) by (nonlinear_arith)
                requires
                    0 <= k as int <= win as int - 1,
                    (step as int) >= 0,
            ;
        }
        if board[start + k * step] != cell {
            proof {
                if run_at(board@, start as int, step as int, win as int, cell) {
                    lemma_run_at_index(
                        board@,
                        start as int,
                        step as int,
                        win as int,
                        cell,
                        k as int,
                    );
                }
            }
            return false;
        }
        proof {
            lemma_run_at_extend(board@, start as int, step as int, k as int, cell);
        }
        k = k + 1;
    }
    true
}

/// Scans the whole board for a winning run of `win_condition` cells and
/// returns its owner, or `None` when no side has one. The scan covers
/// horizontal windows row-major, then vertical windows column-major,
/// then the two diagonal families row-major, and returns the owner of
/// the first hit of that fixed order -- exactly `first_winner`.
#[verifier::loop_isolation(false)]
pub fn check_winner(board: &Vec<u8>, win_condition: u8, rows: u8, columns: u8) -> (r: Option<u8>)
    requires
        board@.len() == rows as int * columns as int,
        win_condition >= 1,
    ensures
        r == first_winner(board@, win_condition as int, rows as int, columns as int),
        match r {
            Some(p) => is_winner(board@, win_condition as int, rows as int, columns as int, p),
            None => no_winner(board@, win_condition as int, rows as int, columns as int),
        },
{
    let rows_us = rows as usize;
    let cols_us = columns as usize;
    let win_us = win_condition as usize;
    let ghost rowsi = rows as int;
    let ghost colsi = columns as int;
    let ghost wini = win_condition as int;

    if win_us <= cols_us {
        let mut rr: usize = 0;
        while rr < rows_us
            invariant
                rr <= rows_us,
                rows_us == rowsi,
                cols_us == colsi,
                win_us == wini,
                wini >= 1,
                wini <= colsi,
                board@.len() == rowsi * colsi,
                rowsi <= 255,
                colsi <= 255,
                forall|r: int, c: int|
                    0 <= r < rr && 0 <= c && c + wini <= colsi ==> !#[trigger] win_start_h(
                        board@,
                        r,
                        c,
                        wini,
                        colsi,
                    ),
            decreases rows_us - rr,
        {
            let mut cc: usize = 0;
            while cc + win_us <= cols_us
                invariant
                    rr < rows_us,
                    cc <= cols_us,
                    rows_us == rowsi,
                    cols_us == colsi,
                    win_us == wini,
                    wini >= 1,
                    wini <= colsi,
                    board@.len() == rowsi * colsi,
                    rowsi <= 255,
                    colsi <= 255,
                    forall|r: int, c: int|
                        (0 <= r < rr && 0 <= c && c + wini <= colsi) || (r == rr && 0 <= c < cc && c
                            + wini <= colsi) ==> !#[trigger] win_start_h(board@, r, c, wini, colsi),
                decreases cols_us - cc,
            {
                proof {
                    assert((rr as int) * colsi + cc as int + (wini - 1) * 1 < rowsi * colsi
                        && (rr as int) * colsi + (cc as int) < 65536 && 0 <= (rr as int) * colsi)
                        by (nonlinear_arith)
                        requires
                            0 <= (rr as int) < rowsi,
                            0 <= cc as int,
                            cc as int + wini <= colsi,
                            wini >= 1,
                            rowsi <= 255,
                            colsi <= 255,
                    ;
                }
                let idx = rr * cols_us + cc;
                proof {
                    assert(idx as int == cell_index(rr as int, cc as int, colsi));
                }
                if is_run(board, idx, 1, win_condition) {
                    proof {
                        assert(win_start_h(board@, rr as int, cc as int, wini, colsi));
                        assert(is_winner(board@, wini, rowsi, colsi, board@[idx as int]));
                        lemma_scan_h_from(board@, wini, rowsi, colsi, rr as int);
                        lemma_scan_h_row_from(board@, wini, rowsi, colsi, rr as int, cc as int);
                        assert(scan_h_row(board@, wini, rowsi, colsi, rr as int, cc as int)
                            == Some(board@[idx as int]));
                        assert(first_winner(board@, wini, rowsi, colsi) == Some(
                            board@[idx as int],
                        ));
                    }
                    return Some(board[idx]);
                }
                cc = cc + 1;
            }
            rr = rr + 1;
        }
    }

    if win_us <= rows_us {
        let mut cc: usize = 0;
        while cc < cols_us
            invariant
                cc <= cols_us,
                rows_us == rowsi,
                cols_us == colsi,
                win_us == wini,
                wini >= 1,
                wini <= rowsi,
                board@.len() == rowsi * colsi,
                rowsi <= 255,
                colsi <= 255,
                forall|r: int, c: int|
                    0 <= c < cc && 0 <= r && r + wini <= rowsi ==> !#[trigger] win_start_v(
                        board@,
                        r,
                        c,
                        wini,
                        colsi,
                    ),
            decreases cols_us - cc,
        {
            let mut rr: usize = 0;
            while rr + win_us <= rows_us
                invariant
                    cc < cols_us,
                    rr <= rows_us,
                    rows_us == rowsi,
                    cols_us == colsi,
                    win_us == wini,
                    wini >= 1,
                    wini <= rowsi,
                    board@.len() == rowsi * colsi,
                    rowsi <= 255,
                    colsi <= 255,
                    forall|r: int, c: int|
                        (0 <= c < cc && 0 <= r && r + wini <= rowsi) || (c == cc && 0 <= r < rr && r
                            + wini <= rowsi) ==> !#[trigger] win_start_v(board@, r, c, wini, colsi),
                decreases rows_us - rr,
            {
                proof {
                    assert((rr as int) * colsi + cc as int + (wini - 1) * colsi < rowsi * colsi
                        && (rr as int) * colsi + (cc as int) < 65536 && 0 <= (rr as int) * colsi
                        && 0 <= (wini - 1) * colsi) by (nonlinear_arith)
                        requires
                            0 <= rr as int,
                            rr as int + wini <= rowsi,
                            0 <= (cc as int) < colsi,
                            wini >= 1,
                            rowsi <= 255,
                            colsi <= 255,
                    ;
                }
                let idx = rr * cols_us + cc;
                proof {
                    assert(idx as int == cell_index(rr as int, cc as int, colsi));
                }
                if is_run(board, idx, cols_us, win_condition) {
                    proof {
                        assert(win_start_v(board@, rr as int, cc as int, wini, colsi));
                        assert(is_winner(board@, wini, rowsi, colsi, board@[idx as int]));
                        lemma_scan_h_from(board@, wini, rowsi, colsi, rowsi);
                        assert(scan_h(board@, wini, rowsi, colsi, rowsi) is None);
                        lemma_scan_v_from(board@, wini, rowsi, colsi, cc as int);
                        lemma_scan_v_col_from(board@, wini, rowsi, colsi, cc as int, rr as int);
                        assert(scan_v_col(board@, wini, rowsi, colsi, cc as int, rr as int)
                            == Some(board@[idx as int]));
                        assert(first_winner(board@, wini, rowsi, colsi) == Some(
                            board@[idx as int],
                        ));
                    }
                    return Some(board[idx]);
                }
                rr = rr + 1;
            }
            cc = cc + 1;
        }
    }

    if win_us <= rows_us && win_us <= cols_us {
        let mut rr: usize = 0;
        while rr + win_us <= rows_us
            invariant
                rr <= rows_us,
                rows_us == rowsi,
                cols_us == colsi,
                win_us == wini,
                wini >= 1,
                wini <= rowsi,
                wini <= colsi,
                board@.len() == rowsi * colsi,
                rowsi <= 255,
                colsi <= 255,
                forall|r: int, c: int|
                    0 <= r < rr && r + wini <= rowsi && 0 <= c && c + wini <= colsi
                        ==> !#[trigger] win_start_d1(board@, r, c, wini, colsi),
            decreases rows_us - rr,
        {
            let mut cc: usize = 0;
            while cc + win_us <= cols_us
                invariant
                    rr + win_us <= rows_us,
                    cc <= cols_us,
                    rows_us == rowsi,
                    cols_us == colsi,
                    win_us == wini,
                    wini >= 1,
                    wini <= rowsi,
                    wini <= colsi,
                    board@.len() == rowsi * colsi,
                    rowsi <= 255,
                    colsi <= 255,
                    forall|r: int, c: int|
                        (0 <= r < rr && r + wini <= rowsi && 0 <= c && c + wini <= colsi) || (r
                            == rr && 0 <= c < cc && c + wini <= colsi) ==> !#[trigger] win_start_d1(
                            board@,
                            r,
                            c,
                            wini,
                            colsi,
                        ),
                decreases cols_us - cc,
            {
                proof {
                    assert((rr as int) * colsi + cc as int + (wini - 1) * (colsi + 1) < rowsi * colsi
                        && (rr as int) * colsi + (cc as int) < 65536 && 0 <= (rr as int) * colsi
                        && 0 <= (wini - 1) * (colsi + 1)) by (nonlinear_arith)
                        requires
                            0 <= rr as int,
                            rr as int + wini <= rowsi,
                            0 <= cc as int,
                            cc as int + wini <= colsi,
                            wini >= 1,
                            rowsi <= 255,
                            colsi <= 255,
                    ;
                }
                let idx = rr * cols_us + cc;
                proof {
                    assert(idx as int == cell_index(rr as int, cc as int, colsi));
                }
                if is_run(board, idx, cols_us + 1, win_condition) {
                    proof {
                        assert(win_start_d1(board@, rr as int, cc as int, wini, colsi));
                        assert(is_winner(board@, wini, rowsi, colsi, board@[idx as int]));
                        lemma_scan_h_from(board@, wini, rowsi, colsi, rowsi);
                        assert(scan_h(board@, wini, rowsi, colsi, rowsi) is None);
                        lemma_scan_v_from(board@, wini, rowsi, colsi, colsi);
                        assert(scan_v(board@, wini, rowsi, colsi, colsi) is None);
                        lemma_scan_d1_from(board@, wini, rowsi, colsi, rr as int);
                        lemma_scan_d1_row_from(board@, wini, rowsi, colsi, rr as int, cc as int);
                        assert(scan_d1_row(board@, wini, rowsi, colsi, rr as int, cc as int)
                            == Some(board@[idx as int]));
                        assert(first_winner(board@, wini, rowsi, colsi) == Some(
                            board@[idx as int],
                        ));
                    }
                    return Some(board[idx]);
                }
                cc = cc + 1;
            }
            rr = rr + 1;
        }
    }

    if win_us <= rows_us && win_us <= cols_us {
        let mut rr: usize = 0;
        while rr + win_us <= rows_us
            invariant
                rr <= rows_us,
                rows_us == rowsi,
                cols_us == colsi,
                win_us == wini,
                wini >= 1,
                wini <= rowsi,
                wini <= colsi,
                board@.len() == rowsi * colsi,
                rowsi <= 255,
                colsi <= 255,
                forall|r: int, c: int|
                    0 <= r < rr && r + wini <= rowsi && wini - 1 <= c < colsi
                        ==> !#[trigger] win_start_d2(board@, r, c, wini, colsi),
            decreases rows_us - rr,
        {
            let mut cc: usize = win_us - 1;
            while cc < cols_us
                invariant
                    rr + win_us <= rows_us,
                    win_us - 1 <= cc,
                    cc <= cols_us,
                    rows_us == rowsi,
                    cols_us == colsi,
                    win_us == wini,
                    wini >= 1,
                    wini <= rowsi,
                    wini <= colsi,
                    board@.len() == rowsi * colsi,
                    rowsi <= 255,
                    colsi <= 255,
                    forall|r: int, c: int|
                        (0 <= r < rr && r + wini <= rowsi && wini - 1 <= c < colsi) || (r == rr
                            && wini - 1 <= c < cc) ==> !#[trigger] win_start_d2(
                            board@,
                            r,
                            c,
                            wini,
                            colsi,
                        ),
                decreases cols_us - cc,
            {
                proof {
                    assert((rr as int) * colsi + cc as int + (wini - 1) * (colsi - 1) < rowsi * colsi
                        && (rr as int) * colsi + (cc as int) < 65536 && 0 <= (rr as int) * colsi
                        && 0 <= (wini - 1) * (colsi - 1)) by (nonlinear_arith)
                        requires
                            0 <= rr as int,
                            rr as int + wini <= rowsi,
                            wini - 1 <= cc as int,
                            (cc as int) < colsi,
                            wini >= 1,
                            wini <= colsi,
                            rowsi <= 255,
                            colsi <= 255,
                    ;
                }
                let idx = rr * cols_us + cc;
                proof {
                    assert(idx as int == cell_index(rr as int, cc as int, colsi));
                }
                if is_run(board, idx, cols_us - 1, win_condition) {
                    proof {
                        assert(win_start_d2(board@, rr as int, cc as int, wini, colsi));
                        assert(is_winner(board@, wini, rowsi, colsi, board@[idx as int]));
                        lemma_scan_h_from(board@, wini, rowsi, colsi, rowsi);
                        assert(scan_h(board@, wini, rowsi, colsi, rowsi) is None);
                        lemma_scan_v_from(board@, wini, rowsi, colsi, colsi);
                        assert(scan_v(board@, wini, rowsi, colsi, colsi) is None);
                        lemma_scan_d1_from(board@, wini, rowsi, colsi, rowsi);
                        assert(scan_d1(board@, wini, rowsi, colsi, rowsi) is None);
                        lemma_scan_d2_from(board@, wini, rowsi, colsi, rr as int);
                        lemma_scan_d2_row_from(board@, wini, rowsi, colsi, rr as int, cc as int);
                        assert(scan_d2_row(board@, wini, rowsi, colsi, rr as int, cc as int)
                            == Some(board@[idx as int]));
                        assert(first_winner(board@, wini, rowsi, colsi) == Some(
                            board@[idx as int],
                        ));
                    }
                    return Some(board[idx]);
                }
                cc = cc + 1;
            }
            rr = rr + 1;
        }
    }

    proof {
        lemma_scan_h_from(board@, wini, rowsi, colsi, rowsi);
        assert(scan_h(board@, wini, rowsi, colsi, rowsi) is None);
        lemma_scan_v_from(board@, wini, rowsi, colsi, colsi);
        assert(scan_v(board@, wini, rowsi, colsi, colsi) is None);
        lemma_scan_d1_from(board@, wini, rowsi, colsi, rowsi);
        assert(scan_d1(board@, wini, rowsi, colsi, rowsi) is None);
        lemma_scan_d2_from(board@, wini, rowsi, colsi, rowsi);
        assert(scan_d2(board@, wini, rowsi, colsi, rowsi) is None);
        assert(first_winner(board@, wini, rowsi, colsi) is None);
        assert forall|p: u8| !is_winner(board@, wini, rowsi, colsi, p) by {
            if is_winner(board@, wini, rowsi, colsi, p) {
                if has_run_h(board@, wini, rowsi, colsi, p) {
                    let (r, c) = choose|r: int, c: int|
                        0 <= r < rowsi && 0 <= c && c + wini <= colsi && #[trigger] win_start_h(
                            board@,
                            r,
                            c,
                            wini,
                            colsi,
                        ) && board@[cell_index(r, c, colsi)] == p;
                    assert(!win_start_h(board@, r, c, wini, colsi));
                } else if has_run_v(board@, wini, rowsi, colsi, p) {
                    let (r, c) = choose|r: int, c: int|
                        0 <= r && r + wini <= rowsi && 0 <= c < colsi && #[trigger] win_start_v(
                            board@,
                            r,
                            c,
                            wini,
                            colsi,
                        ) && board@[cell_index(r, c, colsi)] == p;
                    assert(!win_start_v(board@, r, c, wini, colsi));
                } else if has_run_d1(board@, wini, rowsi, colsi, p) {
                    let (r, c) = choose|r: int, c: int|
                        0 <= r && r + wini <= rowsi && 0 <= c && c + wini <= colsi
                            && #[trigger] win_start_d1(board@, r, c, wini, colsi)
                            && board@[cell_index(r, c, colsi)] == p;
                    assert(!win_start_d1(board@, r, c, wini, colsi));
                } else {
                    let (r, c) = choose|r: int, c: int|
                        0 <= r && r + wini <= rowsi && wini - 1 <= c < colsi
                            && #[trigger] win_start_d2(board@, r, c, wini, colsi)
                            && board@[cell_index(r, c, colsi)] == p;
                    assert(!win_start_d2(board@, r, c, wini, colsi));
                }
            }
        }
    }
    None
}

} // verus!
