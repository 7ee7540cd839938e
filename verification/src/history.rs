//! Laws of legal histories: a legal replay fills exactly one cell per
//! move, keeps the columns gravity-packed, and leaves a legal move
//! whenever the board is not yet full.

use vstd::prelude::*;
use crate::board::{
    cell_index, col_cell, empty_board, lemma_drop_spec_props, lemma_lowest_empty_props,
    lemma_valid_moves_props, lowest_empty_row, player_of, replay, valid_moves, EMPTY,
};

verus! {

/// Every move of the history lands in a column that still has room on
/// the board reached by the moves before it.
pub open spec fn legal_history(moves: Seq<u8>, rows: int, cols: int) -> bool
    decreases moves.len(),
{
    moves.len() == 0 || (legal_history(moves.drop_last(), rows, cols) && moves.last() < cols
        && lowest_empty_row(replay(moves.drop_last(), rows, cols), moves.last() as int, cols, rows - 1)
        >= 0)
}

/// A prefix of a legal history is legal, and each move of a legal
/// history lands on the board its prefix builds.
pub proof fn lemma_legal_history_prefix(moves: Seq<u8>, k: int, rows: int, cols: int)
    requires
        legal_history(moves, rows, cols),
        0 <= k < moves.len(),
    ensures
        legal_history(moves.take(k), rows, cols),
        moves[k] < cols,
        lowest_empty_row(replay(moves.take(k), rows, cols), moves[k] as int, cols, rows - 1) >= 0,
    decreases moves.len(),
{
    if k == moves.len() - 1 {
        assert(moves.take(k) =~= moves.drop_last());
    } else {
        lemma_legal_history_prefix(moves.drop_last(), k, rows, cols);
        assert(moves.drop_last().take(k) =~= moves.take(k));
        assert(moves.drop_last()[k] == moves[k]);
    }
}

/// Number of occupied cells of a board.
pub open spec fn count_pieces(board: Seq<u8>) -> int
    decreases board.len(),
{
    if board.len() == 0 {
        0
    } else {
        count_pieces(board.drop_last()) + (if board.last() != EMPTY {
            1int
        } else {
            0int
        })
    }
}

/// Pieces rest on pieces: below an empty cell of a column every cell is
/// empty too -- equivalently, above an occupied cell every cell is
/// occupied. Row 0 is the top of the board.
pub open spec fn stacked(board: Seq<u8>, rows: int, cols: int) -> bool {
    forall|r1: int, r2: int, c: int|
        0 <= r1 < r2 < rows && 0 <= c < cols && #[trigger] col_cell(board, r2, c, cols) == EMPTY
            ==> #[trigger] col_cell(board, r1, c, cols) == EMPTY
}

/// Filling one empty cell raises the piece count by one.
proof fn lemma_count_update(board: Seq<u8>, i: int, p: u8)
    requires
        0 <= i < board.len(),
        board[i] == EMPTY,
        p != EMPTY,
    ensures
        count_pieces(board.update(i, p)) == count_pieces(board) + 1,
    decreases board.len(),
{
    let b2 = board.update(i, p);
    if i == board.len() - 1 {
        assert(b2.drop_last() =~= board.drop_last());
    } else {
        assert(b2.drop_last() =~= board.drop_last().update(i, p));
        lemma_count_update(board.drop_last(), i, p);
    }
}

/// A board with fewer pieces than cells has an empty cell.
proof fn lemma_count_finds_empty(board: Seq<u8>)
    requires
        count_pieces(board) < board.len(),
    ensures
        exists|i: int| 0 <= i < board.len() && board[i] == EMPTY,
    decreases board.len(),
{
    if board.last() == EMPTY {
        assert(board[board.len() - 1] == EMPTY);
    } else {
        lemma_count_finds_empty(board.drop_last());
        let i = choose|i: int|
            0 <= i < board.drop_last().len() && board.drop_last()[i] == EMPTY;
        assert(board[i] == EMPTY);
    }
}

/// Distinct row-major cells have distinct indices.
proof fn lemma_cell_index_injective(r1: int, c1: int, r2: int, c2: int, cols: int)
    requires
        cell_index(r1, c1, cols) == cell_index(r2, c2, cols),
        0 <= c1 < cols,
        0 <= c2 < cols,
    ensures
        r1 == r2 && c1 == c2,
{
    let idx = cell_index(r1, c1, cols);
    vstd::arithmetic::div_mod::lemma_fundamental_div_mod_converse_div(idx, cols, r1, c1);
    vstd::arithmetic::div_mod::lemma_fundamental_div_mod_converse_div(idx, cols, r2, c2);
    vstd::arithmetic::div_mod::lemma_fundamental_div_mod_converse_mod(idx, cols, r1, c1);
    vstd::arithmetic::div_mod::lemma_fundamental_div_mod_converse_mod(idx, cols, r2, c2);
}

/// A legal replay leaves one piece per move on the board and keeps the
/// columns gravity-packed.
pub proof fn lemma_replay_packed(moves: Seq<u8>, rows: int, cols: int)
    requires
        1 <= rows <= 255,
        1 <= cols <= 255,
        legal_history(moves, rows, cols),
    ensures
        count_pieces(replay(moves, rows, cols)) == moves.len(),
        stacked(replay(moves, rows, cols), rows, cols),
    decreases moves.len(),
{
    let board = replay(moves, rows, cols);
    if moves.len() == 0 {
        lemma_count_empty(rows * cols);
        assert forall|r1: int, r2: int, c: int|
            0 <= r1 < r2 < rows && 0 <= c < cols && #[trigger] col_cell(board, r2, c, cols)
                == EMPTY implies #[trigger] col_cell(board, r1, c, cols) == EMPTY by {
            assert(0 <= r1 * cols + c < rows * cols) by (nonlinear_arith)
                requires
                    0 <= r1 < rows,
                    0 <= c < cols,
            ;
        }
    } else {
        let pre = moves.drop_last();
        let b = replay(pre, rows, cols);
        let col = moves.last() as int;
        let p = player_of(moves.len() - 1);
        lemma_replay_packed(pre, rows, cols);
        lemma_replay_wf_forall(pre, rows, cols);
        lemma_drop_spec_props(b, col, p, rows, cols);
        lemma_lowest_empty_props(b, col, cols, rows - 1);
        let lr = lowest_empty_row(b, col, cols, rows - 1);
        let i = lr * cols + col;
        assert(board == b.update(i, p));
        assert(b[i] == EMPTY) by {
            assert(col_cell(b, lr, col, cols) == EMPTY);
        }
        lemma_count_update(b, i, p);
        assert forall|r1: int, r2: int, c: int|
            0 <= r1 < r2 < rows && 0 <= c < cols && #[trigger] col_cell(board, r2, c, cols)
                == EMPTY implies #[trigger] col_cell(board, r1, c, cols) == EMPTY by {
            assert(0 <= r1 * cols + c < rows * cols && 0 <= r2 * cols + c < rows * cols)
                by (nonlinear_arith)
                requires
                    0 <= r1 < rows,
                    0 <= r2 < rows,
                    0 <= c < cols,
            ;
            if r2 * cols + c == i {
                lemma_cell_index_injective(r2, c, lr, col, cols);
                assert(false);
            }
            assert(col_cell(b, r2, c, cols) == EMPTY);
            assert(col_cell(b, r1, c, cols) == EMPTY);
            if r1 * cols + c == i {
                lemma_cell_index_injective(r1, c, lr, col, cols);
                assert(r1 == lr && c == col);
                assert(col_cell(b, r2, c, cols) != EMPTY);
                assert(false);
            }
        }
    }
}

/// An empty board holds no pieces.
proof fn lemma_count_empty(size: int)
    requires
        size >= 0,
    ensures
        count_pieces(empty_board(size)) == 0,
    decreases size,
{
    if size > 0 {
        assert(empty_board(size).drop_last() =~= empty_board(size - 1));
        lemma_count_empty(size - 1);
    }
}

/// Well-formedness of a legal replay, restated for this module's use.
proof fn lemma_replay_wf_forall(moves: Seq<u8>, rows: int, cols: int)
    requires
        1 <= rows <= 255,
        1 <= cols <= 255,
        legal_history(moves, rows, cols),
    ensures
        replay(moves, rows, cols).len() == rows * cols,
    decreases moves.len(),
{
    if moves.len() == 0 {
        assert(0 <= rows * cols) by (nonlinear_arith)
            requires
                rows >= 1,
                cols >= 1,
        ;
    } else {
        lemma_replay_wf_forall(moves.drop_last(), rows, cols);
        lemma_drop_spec_props(
            replay(moves.drop_last(), rows, cols),
            moves.last() as int,
            player_of(moves.len() - 1),
            rows,
            cols,
        );
    }
}

/// Reconstruction of any legal history shorter than the grid leaves at
/// least one legal move: the board has an empty cell, and by gravity
/// the top cell of that cell's column is empty too.
pub proof fn lemma_moves_available(moves: Seq<u8>, rows: int, cols: int)
    requires
        1 <= rows <= 255,
        1 <= cols <= 255,
        legal_history(moves, rows, cols),
        moves.len() < rows * cols,
    ensures
        valid_moves(replay(moves, rows, cols), cols).len() > 0,
{
    let board = replay(moves, rows, cols);
    lemma_replay_packed(moves, rows, cols);
    lemma_replay_wf_forall(moves, rows, cols);
    lemma_count_finds_empty(board);
    let i = choose|i: int| 0 <= i < board.len() && board[i] == EMPTY;
    let r = i / cols;
    let c = i % cols;
    vstd::arithmetic::div_mod::lemma_fundamental_div_mod(i, cols);
    vstd::arithmetic::div_mod::lemma_mod_bound(i, cols);
    assert(i == cols * r + c);
    assert(0 <= r < rows) by (nonlinear_arith)
        requires
            i == cols * r + c,
            0 <= i < rows * cols,
            0 <= c < cols,
            cols >= 1,
    ;
    assert(col_cell(board, r, c, cols) == EMPTY) by {
        assert(r * cols + c == i) by (nonlinear_arith)
            requires
                i == cols * r + c,
        ;
    }
    if r > 0 {
        assert(col_cell(board, 0, c, cols) == EMPTY);
    }
    assert(0 * cols + c == c) by (nonlinear_arith);
    assert(board[c] == EMPTY);
    lemma_valid_moves_props(board, cols);
    assert(valid_moves(board, cols).contains(c as u8));
    let j = choose|j: int|
        0 <= j < valid_moves(board, cols).len() && valid_moves(board, cols)[j] == c as u8;
}

} // verus!
