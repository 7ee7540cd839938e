//! The entry point: reconstructs the board from the move history,
//! short-circuits finished or out-of-turn positions, and dispatches to
//! the difficulty tier named by the tag.

use vstd::prelude::*;
use crate::board::{
    drop_piece, get_valid_moves, lemma_replay_wf, lemma_valid_moves_props, new_board, player_of,
    replay, valid_moves, BOT, PLAYER,
};
use crate::winner::{check_winner, no_winner};
use crate::board::{col_cell, lemma_lowest_empty_props, lowest_empty_row, EMPTY};
use crate::history::{legal_history, lemma_legal_history_prefix, lemma_replay_packed};
use crate::strategy::{
    easy_bot, insane_bot, medium_bot, search_choice, INSANE_DEPTH, INSANE_WIN_SCORE, MEDIUM_DEPTH,
    MEDIUM_WIN_SCORE,
};

verus! {

/// The game is over: some side has a winning run or the board is full.
pub open spec fn game_over(board: Seq<u8>, win: int, rows: int, cols: int) -> bool {
    !no_winner(board, win, rows, cols) || valid_moves(board, cols).len() == 0
}

/// The defensive answer outside a search: the first legal move in
/// ascending order, or `0` when the board is full.
pub open spec fn fallback_move(board: Seq<u8>, cols: int) -> u8 {
    if valid_moves(board, cols).len() > 0 {
        valid_moves(board, cols)[0]
    } else {
        0
    }
}

/// The column a deterministic search tier returns for a history: the
/// fallback when the game is already over or the move count says it is
/// not the automated player's turn, otherwise the search choice.
pub open spec fn engine_choice(
    moves: Seq<u8>,
    depth: int,
    wscore: int,
    rows: int,
    cols: int,
    win: int,
) -> u8 {
    let board = replay(moves, rows, cols);
    if game_over(board, win, rows, cols) || moves.len() % 2 != 1 {
        fallback_move(board, cols)
    } else {
        search_choice(board, depth, rows, cols, win, wscore)
    }
}

/// Two calls of a deterministic search tier on identical inputs return
/// the same column: the choice is a function of the inputs alone.
pub proof fn lemma_engine_deterministic(
    moves: Seq<u8>,
    depth: int,
    wscore: int,
    rows: int,
    cols: int,
    win: int,
    r1: u8,
    r2: u8,
)
    requires
        r1 == engine_choice(moves, depth, wscore, rows, cols, win),
        r2 == engine_choice(moves, depth, wscore, rows, cols, win),
    ensures
        r1 == r2,
{
}

/// Computes the automated player's next move for the given history,
/// difficulty tag (`"medium"` and `"insane"` are the search tiers; any
/// other tag plays the random tier) and grid configuration. Finished or
/// out-of-turn positions get the first legal move in ascending order.
/// The result is a legal column whenever one exists, and `0` otherwise.
#[verifier::loop_isolation(false)]
#[verifier::rlimit(60)]
pub fn compute_move(
    moves: Vec<u8>,
    difficulty: String,
    rows: u8,
    columns: u8,
    win_condition: u8,
) -> (r: u8)
    requires
        rows >= 1,
        columns >= 1,
        win_condition >= 1,
        forall|i: int| 0 <= i < moves@.len() ==> moves@[i] < columns,
    ensures
        difficulty@ == "medium"@ ==> r == engine_choice(
            moves@,
            MEDIUM_DEPTH as int,
            MEDIUM_WIN_SCORE as int,
            rows as int,
            columns as int,
            win_condition as int,
        ),
        difficulty@ == "insane"@ ==> r == engine_choice(
            moves@,
            INSANE_DEPTH as int,
            INSANE_WIN_SCORE as int,
            rows as int,
            columns as int,
            win_condition as int,
        ),
        game_over(replay(moves@, rows as int, columns as int), win_condition as int, rows as int, columns as int)
            || moves@.len() % 2 != 1 ==> r == fallback_move(
            replay(moves@, rows as int, columns as int),
            columns as int,
        ),
        valid_moves(replay(moves@, rows as int, columns as int), columns as int).len() > 0
            ==> valid_moves(replay(moves@, rows as int, columns as int), columns as int).contains(r),
        valid_moves(replay(moves@, rows as int, columns as int), columns as int).len() == 0 ==> r
            == 0,
        !(game_over(replay(moves@, rows as int, columns as int), win_condition as int, rows as int, columns as int)
            || moves@.len() % 2 != 1) && difficulty@ != "medium"@ && difficulty@ != "insane"@
            && valid_moves(replay(moves@, rows as int, columns as int), columns as int).contains(
            columns / 2,
        ) ==> r == columns / 2,
{
    let ghost rowsi = rows as int;
    let ghost colsi = columns as int;
    let ghost wini = win_condition as int;
    proof {
        assert(colsi <= rowsi * colsi && rowsi * colsi <= 65025) by (nonlinear_arith)
            requires
                1 <= rowsi <= 255,
                1 <= colsi <= 255,
        ;
    }
    let size = (rows as usize) * (columns as usize);
    let mut board = new_board(size);
    let mut i: usize = 0;
    while i < moves.len()
        invariant
            i <= moves@.len(),
            board@ == replay(moves@.take(i as int), rowsi, colsi),
            board@.len() == rowsi * colsi,
        decreases moves@.len() - i,
    {
        let p = if i % 2 == 0 {
            PLAYER
        } else {
            BOT
        };
        drop_piece(&mut board, moves[i], p, columns, rows);
        proof {
            assert(moves@.take(i as int + 1).drop_last() =~= moves@.take(i as int));
            assert(moves@.take(i as int + 1).last() == moves@[i as int]);
            assert(p == player_of(i as int));
        }
        i = i + 1;
    }
    proof {
        assert(moves@.take(moves@.len() as int) =~= moves@);
        lemma_replay_wf(moves@, rowsi, colsi);
        lemma_valid_moves_props(board@, colsi);
    }
    let winner = check_winner(&board, win_condition, rows, columns);
    let valid = get_valid_moves(&board, columns);
    let game_done = winner.is_some() || valid.len() == 0;
    let bot_turn = moves.len() % 2 == 1;
    if game_done || !bot_turn {
        if valid.len() > 0 {
            return valid[0];
        } else {
            return 0;
        }
    }
    proof {
        reveal_strlit("medium");
        reveal_strlit("insane");
        assert("medium"@[0] != "insane"@[0]);
    }
    let med: String = "medium".to_owned();
    let ins: String = "insane".to_owned();
    if difficulty == med {
        medium_bot(&board, rows, columns, win_condition)
    } else if difficulty == ins {
        insane_bot(&board, rows, columns, win_condition)
    } else {
        easy_bot(&board, columns)
    }
}

/// Why a checked move computation was refused.
#[derive(Debug, Clone, Copy, PartialEq, Eq, Structural)]
pub enum MoveError {
    /// A grid dimension or the win length is zero, or the win length
    /// exceeds both grid dimensions.
    InvalidConfiguration,
    /// A history move names a column off the board or one already full.
    IllegalMoveInHistory,
    /// The board is full, so no move can be played.
    NoLegalMove,
}

/// The configuration is one the engine accepts: positive dimensions
/// and a win length fitting at least one of them.
pub open spec fn config_ok(rows: int, cols: int, win: int) -> bool {
    rows >= 1 && cols >= 1 && win >= 1 && (win <= rows || win <= cols)
}

/// Fail-fast variant of `compute_move`: instead of degrading to a
/// default it reports exactly why no move can be computed. It succeeds
/// if and only if the configuration is accepted, the history is legal,
/// and the board is not full; the move returned is then the one
/// `compute_move` computes.
#[verifier::loop_isolation(false)]
#[verifier::rlimit(60)]
pub fn compute_move_checked(
    moves: Vec<u8>,
    difficulty: String,
    rows: u8,
    columns: u8,
    win_condition: u8,
) -> (r: Result<u8, MoveError>)
    ensures
        r == Err::<u8, MoveError>(MoveError::InvalidConfiguration) <==> !config_ok(
            rows as int,
            columns as int,
            win_condition as int,
        ),
        config_ok(rows as int, columns as int, win_condition as int) ==> ((r == Err::<
            u8,
            MoveError,
        >(MoveError::IllegalMoveInHistory)) <==> !legal_history(
            moves@,
            rows as int,
            columns as int,
        )),
        config_ok(rows as int, columns as int, win_condition as int) && legal_history(
            moves@,
            rows as int,
            columns as int,
        ) ==> ((r == Err::<u8, MoveError>(MoveError::NoLegalMove)) <==> valid_moves(
            replay(moves@, rows as int, columns as int),
            columns as int,
        ).len() == 0),
        r is Ok <==> config_ok(rows as int, columns as int, win_condition as int)
            && legal_history(moves@, rows as int, columns as int) && valid_moves(
            replay(moves@, rows as int, columns as int),
            columns as int,
        ).len() > 0,
        r matches Ok(c) ==> valid_moves(replay(moves@, rows as int, columns as int), columns as int)
            .contains(c),
        r matches Ok(c) ==> difficulty@ == "medium"@ ==> c == engine_choice(
            moves@,
            MEDIUM_DEPTH as int,
            MEDIUM_WIN_SCORE as int,
            rows as int,
            columns as int,
            win_condition as int,
        ),
        r matches Ok(c) ==> difficulty@ == "insane"@ ==> c == engine_choice(
            moves@,
            INSANE_DEPTH as int,
            INSANE_WIN_SCORE as int,
            rows as int,
            columns as int,
            win_condition as int,
        ),
{
    let ghost rowsi = rows as int;
    let ghost colsi = columns as int;
    if rows < 1 || columns < 1 || win_condition < 1 || (win_condition > rows && win_condition
        > columns) {
        return Err(MoveError::InvalidConfiguration);
    }
    proof {
        assert(colsi <= rowsi * colsi && rowsi * colsi <= 65025) by (nonlinear_arith)
            requires
                1 <= rowsi <= 255,
                1 <= colsi <= 255,
        ;
    }
    let size = (rows as usize) * (columns as usize);
    let mut board = new_board(size);
    let mut i: usize = 0;
    while i < moves.len()
        invariant
            i <= moves@.len(),
            board@ == replay(moves@.take(i as int), rowsi, colsi),
            board@.len() == rowsi * colsi,
            legal_history(moves@.take(i as int), rowsi, colsi),
        decreases moves@.len() - i,
    {
        let col = moves[i];
        proof {
            if legal_history(moves@, rowsi, colsi) {
                lemma_legal_history_prefix(moves@, i as int, rowsi, colsi);
            }
            lemma_replay_packed(moves@.take(i as int), rowsi, colsi);
            lemma_lowest_empty_props(board@, col as int, colsi, rowsi - 1);
            if col < columns {
                assert(0 * colsi + col as int == col as int) by (nonlinear_arith);
                assert(col_cell(board@, 0, col as int, colsi) == board@[col as int]);
            }
        }
        if col >= columns || board[col as usize] != EMPTY {
            proof {
                if col < columns {
                    let lr = lowest_empty_row(board@, col as int, colsi, rowsi - 1);
                    if lr >= 0 {
                        assert(col_cell(board@, lr, col as int, colsi) == EMPTY);
                        if lr > 0 {
                            assert(col_cell(board@, 0, col as int, colsi) == EMPTY);
                        }
                        assert(false);
                    }
                }
            }
            return Err(MoveError::IllegalMoveInHistory);
        }
        let p = if i % 2 == 0 {
            PLAYER
        } else {
            BOT
        };
        drop_piece(&mut board, col, p, columns, rows);
        proof {
            assert(moves@.take(i as int + 1).drop_last() =~= moves@.take(i as int));
            assert(moves@.take(i as int + 1).last() == moves@[i as int]);
            assert(p == player_of(i as int));
        }
        i = i + 1;
    }
    proof {
        assert(moves@.take(moves@.len() as int) =~= moves@);
    }
    let valid = get_valid_moves(&board, columns);
    if valid.len() == 0 {
        return Err(MoveError::NoLegalMove);
    }
    proof {
        assert forall|j: int| 0 <= j < moves@.len() implies moves@[j] < columns by {
            lemma_legal_history_prefix(moves@, j, rowsi, colsi);
        }
    }
    let chosen = compute_move(moves, difficulty, rows, columns, win_condition);
    Ok(chosen)
}

} // verus!
