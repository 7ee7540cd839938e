//! The board: a flat row-major grid of cells, piece drops with gravity,
//! and generation of the legal moves (columns whose top cell is empty).

use vstd::prelude::*;

verus! {

/// An unoccupied cell.
pub const EMPTY: u8 = 0;

/// A cell owned by the human opponent, who moves at even history indices.
pub const PLAYER: u8 = 1;

/// A cell owned by the automated player, who moves at odd history indices.
pub const BOT: u8 = 2;

/// Row-major index of the cell at row `r`, column `c`.
pub open spec fn cell_index(r: int, c: int, cols: int) -> int {
    r * cols + c
}

/// A board is well formed for a `rows` x `cols` grid when it has one cell
/// per position and every cell holds one of the three cell values.
pub open spec fn board_wf(board: Seq<u8>, rows: int, cols: int) -> bool {
    &&& board.len() == rows * cols
    &&& forall|i: int|
        0 <= i < board.len() ==> board[i] == EMPTY || board[i] == PLAYER || board[i] == BOT
}

/// The board of the given size with every cell empty.
pub open spec fn empty_board(size: int) -> Seq<u8> {
    Seq::new(size as nat, |i: int| EMPTY)
}

/// Highest row index at or below `row` whose cell in `col` is empty, or -1
/// when every such cell is occupied. With `row == rows - 1` this is the row
/// where a dropped piece lands: the lowest empty cell of the column.
pub open spec fn lowest_empty_row(board: Seq<u8>, col: int, cols: int, row: int) -> int
    decreases row + 1,
{
    if row < 0 {
        -1
    } else if board[row * cols + col] == EMPTY {
        row
    } else {
        lowest_empty_row(board, col, cols, row - 1)
    }
}

/// The board after dropping `player`'s piece in `col`: the lowest empty
/// cell of the column is filled, and a full column leaves the board as is.
pub open spec fn drop_spec(board: Seq<u8>, col: int, player: u8, rows: int, cols: int) -> Seq<u8> {
    let r = lowest_empty_row(board, col, cols, rows - 1);
    if r >= 0 {
        board.update(r * cols + col, player)
    } else {
        board
    }
}

/// The legal moves among columns `0 .. n`: those whose top cell (row 0)
/// is empty, in ascending order.
pub open spec fn valid_moves(board: Seq<u8>, n: int) -> Seq<u8>
    decreases n,
{
    if n <= 0 {
        Seq::empty()
    } else if board[n - 1] == EMPTY {
        valid_moves(board, n - 1).push((n - 1) as u8)
    } else {
        valid_moves(board, n - 1)
    }
}

/// The mover at history index `i`: the human opponent opens the game and
/// the two sides strictly alternate.
pub open spec fn player_of(i: int) -> u8 {
    if i % 2 == 0 {
        PLAYER
    } else {
        BOT
    }
}

/// The board reached by replaying a move history onto an empty grid,
/// alternating the two movers by history index.
pub open spec fn replay(moves: Seq<u8>, rows: int, cols: int) -> Seq<u8>
    decreases moves.len(),
{
    if moves.len() == 0 {
        empty_board(rows * cols)
    } else {
        drop_spec(
            replay(moves.drop_last(), rows, cols),
            moves.last() as int,
            player_of(moves.len() - 1),
            rows,
            cols,
        )
    }
}

/// A fresh all-empty board with one cell per grid position.
pub fn new_board(size: usize) -> (r: Vec<u8>)
    ensures
        r@ == empty_board(size as int),
{
    let mut r: Vec<u8> = Vec::new();
    let mut i: usize = 0;
    while i < size
        invariant
            i <= size,
            r@.len() == i as int,
            forall|j: int| 0 <= j < i ==> r@[j] == EMPTY,
        decreases size - i,
    {
        r.push(EMPTY);
        i = i + 1;
    }
    proof {
        assert(r@ =~= empty_board(size as int));
    }
    r
}

/// An independently owned copy of a board.
pub fn clone_board(board: &Vec<u8>) -> (r: Vec<u8>)
    ensures
        r@ == board@,
{
    let mut r: Vec<u8> = Vec::new();
    let mut i: usize = 0;
    while i < board.len()
        invariant
            i <= board@.len(),
            r@.len() == i as int,
            forall|j: int| 0 <= j < i ==> r@[j] == board@[j],
        decreases board@.len() - i,
    {
        r.push(board[i]);
        i = i + 1;
    }
    proof {
        assert(r@ =~= board@);
    }
    r
}

/// Drops `player`'s piece in `col`: scans the column from the bottom row
/// upward and fills the first empty cell; a full column is left unchanged.
pub fn drop_piece(board: &mut Vec<u8>, col: u8, player: u8, columns: u8, rows: u8)
    requires
        old(board)@.len() == rows as int * columns as int,
        col < columns,
    ensures
        final(board)@ == drop_spec(old(board)@, col as int, player, rows as int, columns as int),
        final(board)@.len() == old(board)@.len(),
{
    let cols = columns as usize;
    let mut r: usize = rows as usize;
    while r > 0
        invariant
            board@ == old(board)@,
            r <= rows,
            col < columns,
            cols == columns as int,
            board@.len() == rows as int * columns as int,
            lowest_empty_row(board@, col as int, columns as int, rows as int - 1)
                == lowest_empty_row(board@, col as int, columns as int, r as int - 1),
        decreases r,
    {
        r = r - 1;
        proof {
            assert((r as int) * (cols as int) + (col as int) < (rows as int) * (cols as int)
                && (r as int) * (cols as int) + (col as int) < 65536) by (nonlinear_arith)
                requires
                    (r as int) < (rows as int),
                    (col as int) < (cols as int),
                    0 <= r as int,
                    0 <= col as int,
                    0 < cols as int,
                    rows as int <= 255,
                    cols as int <= 255,
            ;
            assert(0 <= (r as int) * (cols as int)) by (nonlinear_arith)
                requires
                    0 <= r as int,
                    0 <= cols as int,
            ;
        }
        let idx = r * cols + col as usize;
        if board[idx] == EMPTY {
            board[idx] = player;
            proof {
                assert(lowest_empty_row(old(board)@, col as int, columns as int, r as int)
                    == r as int);
            }
            return ;
        }
    }
    proof {
        assert(lowest_empty_row(old(board)@, col as int, columns as int, -1) == -1);
    }
}

/// Lists the legal moves: the columns in `0 .. columns` whose top cell is
/// empty, in ascending order.
pub fn get_valid_moves(board: &Vec<u8>, columns: u8) -> (r: Vec<u8>)
    requires
        board@.len() >= columns as int,
    ensures
        r@ == valid_moves(board@, columns as int),
{
    let mut r: Vec<u8> = Vec::new();
    let mut c: usize = 0;
    while c < columns as usize
        invariant
            c <= columns,
            board@.len() >= columns as int,
            r@ == valid_moves(board@, c as int),
        decreases columns as int - c,
    {
        if board[c] == EMPTY {
            r.push(c as u8);
        }
        c = c + 1;
    }
    r
}

/// Cell of column `col` at row `r`.
pub open spec fn col_cell(board: Seq<u8>, r: int, col: int, cols: int) -> u8 {
    board[r * cols + col]
}

/// The landing row of a drop is empty itself while every cell below it
/// in the column is occupied, and it is `-1` exactly when the whole
/// column is occupied.
pub proof fn lemma_lowest_empty_props(board: Seq<u8>, col: int, cols: int, row: int)
    requires
        row >= -1,
    ensures
        -1 <= lowest_empty_row(board, col, cols, row) <= row,
        lowest_empty_row(board, col, cols, row) >= 0 ==> col_cell(
            board,
            lowest_empty_row(board, col, cols, row),
            col,
            cols,
        ) == EMPTY,
        forall|r2: int|
            lowest_empty_row(board, col, cols, row) < r2 <= row ==> #[trigger] col_cell(
                board,
                r2,
                col,
                cols,
            ) != EMPTY,
    decreases row + 1,
{
    if row >= 0 {
        if board[row * cols + col] == EMPTY {
            assert(col_cell(board, row, col, cols) == EMPTY);
        } else {
            lemma_lowest_empty_props(board, col, cols, row - 1);
            assert(col_cell(board, row, col, cols) != EMPTY);
        }
    }
}

/// A drop preserves the board's length and well-formedness; when the
/// column is not full it rewrites exactly one in-bounds cell.
pub proof fn lemma_drop_spec_props(board: Seq<u8>, col: int, player: u8, rows: int, cols: int)
    requires
        board.len() == rows * cols,
        0 <= col < cols,
        1 <= rows <= 255,
        1 <= cols <= 255,
    ensures
        drop_spec(board, col, player, rows, cols).len() == board.len(),
        lowest_empty_row(board, col, cols, rows - 1) >= 0 ==> 0 <= lowest_empty_row(
            board,
            col,
            cols,
            rows - 1,
        ) * cols + col < board.len(),
        lowest_empty_row(board, col, cols, rows - 1) >= 0 ==> drop_spec(
            board,
            col,
            player,
            rows,
            cols,
        ) == board.update(lowest_empty_row(board, col, cols, rows - 1) * cols + col, player),
        lowest_empty_row(board, col, cols, rows - 1) < 0 ==> drop_spec(board, col, player, rows, cols)
            == board,
        (player == PLAYER || player == BOT) && board_wf(board, rows, cols) ==> board_wf(
            drop_spec(board, col, player, rows, cols),
            rows,
            cols,
        ),
{
    lemma_lowest_empty_props(board, col, cols, rows - 1);
    let lr = lowest_empty_row(board, col, cols, rows - 1);
    if lr >= 0 {
        assert(0 <= lr * cols + col < rows * cols) by (nonlinear_arith)
            requires
                0 <= lr,
                lr <= rows - 1,
                0 <= col < cols,
        ;
    }
}

/// A replayed history yields a well-formed board of the grid's size.
pub proof fn lemma_replay_wf(moves: Seq<u8>, rows: int, cols: int)
    requires
        1 <= rows <= 255,
        1 <= cols <= 255,
        forall|i: int| 0 <= i < moves.len() ==> moves[i] < cols,
    ensures
        board_wf(replay(moves, rows, cols), rows, cols),
        replay(moves, rows, cols).len() == rows * cols,
    decreases moves.len(),
{
    assert(0 <= rows * cols) by (nonlinear_arith)
        requires
            rows >= 1,
            cols >= 1,
    ;
    if moves.len() == 0 {
        assert(board_wf(empty_board(rows * cols), rows, cols));
    } else {
        let pre = moves.drop_last();
        assert(forall|i: int| 0 <= i < pre.len() ==> pre[i] == moves[i]);
        lemma_replay_wf(pre, rows, cols);
        lemma_drop_spec_props(
            replay(pre, rows, cols),
            moves.last() as int,
            player_of(moves.len() - 1),
            rows,
            cols,
        );
    }
}

/// Every legal move is a column below `n` with an empty top cell, every
/// such column is listed, and the listing is strictly ascending.
pub proof fn lemma_valid_moves_props(board: Seq<u8>, n: int)
    requires
        n <= 256,
    ensures
        n >= 0 ==> valid_moves(board, n).len() <= n,
        forall|j: int|
            0 <= j < valid_moves(board, n).len() ==> 0 <= #[trigger] valid_moves(board, n)[j] < n
                && board[valid_moves(board, n)[j] as int] == EMPTY,
        forall|c: int|
            0 <= c < n && board[c] == EMPTY ==> valid_moves(board, n).contains(c as u8),
        forall|j1: int, j2: int|
            0 <= j1 < j2 < valid_moves(board, n).len() ==> #[trigger] valid_moves(board, n)[j1]
                < #[trigger] valid_moves(board, n)[j2],
    decreases n,
{
    if n > 0 {
        lemma_valid_moves_props(board, n - 1);
        if board[n - 1] == EMPTY {
            let prev = valid_moves(board, n - 1);
            let cur = valid_moves(board, n);
            assert(cur == prev.push((n - 1) as u8));
            assert forall|j: int| 0 <= j < cur.len() implies 0 <= cur[j] < n && board[cur[j] as int]
                == EMPTY by {
                if j < cur.len() - 1 {
                    assert(cur[j] == prev[j]);
                } else {
                    assert(cur[j] == (n - 1) as u8);
                }
            }
            assert forall|c: int| 0 <= c < n && board[c] == EMPTY implies cur.contains(
                c as u8,
            ) by {
                if c < n - 1 {
                    let k = choose|k: int| 0 <= k < prev.len() && prev[k] == c as u8;
                    assert(cur[k] == c as u8);
                } else {
                    assert(cur[cur.len() - 1] == c as u8);
                }
            }
            assert forall|j1: int, j2: int| 0 <= j1 < j2 < cur.len() implies cur[j1]
                < cur[j2] by {
                if j2 == cur.len() - 1 {
                    assert(cur[j1] == prev[j1]);
                    assert(prev[j1] < n - 1);
                } else {
                    assert(cur[j1] == prev[j1] && cur[j2] == prev[j2]);
                }
            }
        } else {
            let prev = valid_moves(board, n - 1);
            let cur = valid_moves(board, n);
            assert(cur == prev);
            assert forall|j: int| 0 <= j < cur.len() implies 0 <= cur[j] < n && board[cur[j] as int]
                == EMPTY by {
                assert(cur[j] == prev[j]);
                assert(prev[j] < n - 1);
            }
            assert forall|c: int| 0 <= c < n && board[c] == EMPTY implies cur.contains(
                c as u8,
            ) by {
                assert(prev.contains(c as u8));
            }
            assert forall|j1: int, j2: int| 0 <= j1 < j2 < cur.len() implies cur[j1]
                < cur[j2] by {
                assert(cur[j1] == prev[j1] && cur[j2] == prev[j2]);
            }
        }
    }
}

} // verus!
