//! Adversarial search: the minimax value of a position, the exhaustive
//! fixed-depth search, and the alpha-beta pruned search that computes
//! the same values.

use vstd::prelude::*;
use crate::board::{
    board_wf, clone_board, drop_piece, drop_spec, get_valid_moves, lemma_drop_spec_props,
    lemma_valid_moves_props, valid_moves, BOT, PLAYER,
};
use crate::winner::{is_winner, lemma_drop_keeps_other_no_win, lemma_winner_is_side};
use crate::winner::check_winner;
use crate::eval::{eval_spec, evaluate_board, lemma_eval_bound};

verus! {

/// Every search value, terminal or static, lies within this bound.
pub const VALUE_BOUND: i32 = 700000;

/// The side that moves at a node: the automated player maximizes.
pub open spec fn piece_of(maxing: bool) -> u8 {
    if maxing {
        BOT
    } else {
        PLAYER
    }
}

/// The minimax value of the board at the given remaining depth. A board
/// already won scores `wscore` plus the remaining depth for the
/// automated player -- a win found with more depth remaining scores
/// higher, rewarding faster wins -- and a lost board `depth - wscore`,
/// delaying losses; an exhausted depth or a full board scores the
/// static evaluation; otherwise the children -- one legal drop by the
/// side to move each -- are combined by maximum or minimum.
pub open spec fn mm(
    board: Seq<u8>,
    depth: int,
    maxing: bool,
    rows: int,
    cols: int,
    win: int,
    wscore: int,
) -> int
    decreases depth, 1int, 0int,
{
    if is_winner(board, win, rows, cols, BOT) {
        wscore + depth
    } else if is_winner(board, win, rows, cols, PLAYER) {
        -wscore + depth
    } else if depth <= 0 || valid_moves(board, cols).len() == 0 {
        eval_spec(board, rows, cols)
    } else {
        mm_children(board, valid_moves(board, cols), depth, maxing, rows, cols, win, wscore)
    }
}

/// Maximum (or minimum) of the children's minimax values over the listed
/// moves of the side to move.
pub open spec fn mm_children(
    board: Seq<u8>,
    ms: Seq<u8>,
    depth: int,
    maxing: bool,
    rows: int,
    cols: int,
    win: int,
    wscore: int,
) -> int
    decreases depth, 0int, ms.len(),
{
    if depth <= 0 || ms.len() == 0 {
        0
    } else {
        let v = mm(
            drop_spec(board, ms[0] as int, piece_of(maxing), rows, cols),
            depth - 1,
            !maxing,
            rows,
            cols,
            win,
            wscore,
        );
        if ms.len() == 1 {
            v
        } else {
            let rest = mm_children(board, ms.drop_first(), depth, maxing, rows, cols, win, wscore);
            if maxing {
                if v >= rest {
                    v
                } else {
                    rest
                }
            } else {
                if v <= rest {
                    v
                } else {
                    rest
                }
            }
        }
    }
}

/// The minimax value of the child reached by the move `m` of the side
/// to move at a node searched to `depth` with `maxing` set.
pub open spec fn child_val(
    board: Seq<u8>,
    m: u8,
    depth: int,
    maxing: bool,
    rows: int,
    cols: int,
    win: int,
    wscore: int,
) -> int {
    mm(drop_spec(board, m as int, piece_of(maxing), rows, cols), depth - 1, !maxing, rows, cols, win, wscore)
}

/// Minimax values stay within `VALUE_BOUND` on boards of at most
/// 255 x 255 cells with scores shaped by `wscore` of at most 10000.
pub proof fn lemma_mm_bound(
    board: Seq<u8>,
    depth: int,
    maxing: bool,
    rows: int,
    cols: int,
    win: int,
    wscore: int,
)
    requires
        0 <= depth <= 255,
        1 <= wscore <= 10000,
        1 <= rows <= 255,
        1 <= cols <= 255,
        board.len() == rows * cols,
    ensures
        -VALUE_BOUND <= mm(board, depth, maxing, rows, cols, win, wscore) <= VALUE_BOUND,
    decreases depth, 1int, 0int,
{
    lemma_eval_bound(board, rows, cols);
    if !is_winner(board, win, rows, cols, BOT) && !is_winner(board, win, rows, cols, PLAYER)
        && depth > 0 && valid_moves(board, cols).len() > 0 {
        lemma_valid_moves_props(board, cols);
        lemma_mm_children_bound(
            board,
            valid_moves(board, cols),
            depth,
            maxing,
            rows,
            cols,
            win,
            wscore,
        );
    }
}

/// The combined children's value stays within `VALUE_BOUND` whenever all
/// listed moves are columns of the board.
pub proof fn lemma_mm_children_bound(
    board: Seq<u8>,
    ms: Seq<u8>,
    depth: int,
    maxing: bool,
    rows: int,
    cols: int,
    win: int,
    wscore: int,
)
    requires
        1 <= depth <= 255,
        1 <= wscore <= 10000,
        1 <= rows <= 255,
        1 <= cols <= 255,
        board.len() == rows * cols,
        ms.len() >= 1,
        forall|j: int| 0 <= j < ms.len() ==> 0 <= #[trigger] ms[j] < cols,
    ensures
        -VALUE_BOUND <= mm_children(board, ms, depth, maxing, rows, cols, win, wscore)
            <= VALUE_BOUND,
    decreases depth, 0int, ms.len(),
{
    lemma_drop_spec_props(board, ms[0] as int, piece_of(maxing), rows, cols);
    lemma_mm_bound(
        drop_spec(board, ms[0] as int, piece_of(maxing), rows, cols),
        depth - 1,
        !maxing,
        rows,
        cols,
        win,
        wscore,
    );
    if ms.len() > 1 {
        assert(forall|j: int|
            0 <= j < ms.drop_first().len() ==> 0 <= #[trigger] ms.drop_first()[j] < cols);
        lemma_mm_children_bound(board, ms.drop_first(), depth, maxing, rows, cols, win, wscore);
    }
}

/// The combined children's value is the maximum (or minimum) of the
/// children's values: it bounds each of them and equals one of them.
pub proof fn lemma_mm_children_props(
    board: Seq<u8>,
    ms: Seq<u8>,
    depth: int,
    maxing: bool,
    rows: int,
    cols: int,
    win: int,
    wscore: int,
)
    requires
        depth >= 1,
        ms.len() >= 1,
    ensures
        forall|j: int|
            0 <= j < ms.len() ==> (if maxing {
                child_val(board, ms[j], depth, maxing, rows, cols, win, wscore) <= mm_children(
                    board,
                    ms,
                    depth,
                    maxing,
                    rows,
                    cols,
                    win,
                    wscore,
                )
            } else {
                mm_children(board, ms, depth, maxing, rows, cols, win, wscore) <= child_val(
                    board,
                    #[trigger] ms[j],
                    depth,
                    maxing,
                    rows,
                    cols,
                    win,
                    wscore,
                )
            }),
        exists|j: int|
            0 <= j < ms.len() && child_val(board, #[trigger] ms[j], depth, maxing, rows, cols, win, wscore)
                == mm_children(board, ms, depth, maxing, rows, cols, win, wscore),
    decreases ms.len(),
{
    let fold = mm_children(board, ms, depth, maxing, rows, cols, win, wscore);
    let v0 = child_val(board, ms[0], depth, maxing, rows, cols, win, wscore);
    if ms.len() == 1 {
        assert(fold == v0);
        assert(ms[0] == ms[0] && v0 == fold);
    } else {
        let rest = ms.drop_first();
        lemma_mm_children_props(board, rest, depth, maxing, rows, cols, win, wscore);
        let frest = mm_children(board, rest, depth, maxing, rows, cols, win, wscore);
        assert(forall|j: int| 0 <= j < rest.len() ==> rest[j] == ms[j + 1]);
        let k = choose|k: int|
            0 <= k < rest.len() && child_val(board, #[trigger] rest[k], depth, maxing, rows, cols, win, wscore)
                == frest;
        if (maxing && v0 >= frest) || (!maxing && v0 <= frest) {
            assert(fold == v0);
        } else {
            assert(fold == frest);
            assert(ms[k + 1] == rest[k]);
        }
        assert forall|j: int| 0 <= j < ms.len() implies (if maxing {
            child_val(board, ms[j], depth, maxing, rows, cols, win, wscore) <= fold
        } else {
            fold <= child_val(board, #[trigger] ms[j], depth, maxing, rows, cols, win, wscore)
        }) by {
            if j > 0 {
                assert(ms[j] == rest[j - 1]);
            }
        }
    }
}

/// Exhaustive minimax to the given remaining depth: returns exactly the
/// minimax value of the board with terminal scores shaped by 1000.
#[verifier::loop_isolation(false)]
pub fn minimax(
    board: &Vec<u8>,
    depth: u8,
    is_maximizing: bool,
    rows: u8,
    columns: u8,
    win_condition: u8,
) -> (r: i32)
    requires
        rows >= 1,
        columns >= 1,
        win_condition >= 1,
        board@.len() == rows as int * columns as int,
        board_wf(board@, rows as int, columns as int),
        !(is_winner(board@, win_condition as int, rows as int, columns as int, PLAYER) && is_winner(
            board@,
            win_condition as int,
            rows as int,
            columns as int,
            BOT,
        )),
    ensures
        r as int == mm(
            board@,
            depth as int,
            is_maximizing,
            rows as int,
            columns as int,
            win_condition as int,
            1000,
        ),
        -VALUE_BOUND <= r <= VALUE_BOUND,
    decreases depth,
{
    let ghost rowsi = rows as int;
    let ghost colsi = columns as int;
    let ghost wini = win_condition as int;
    proof {
        lemma_mm_bound(board@, depth as int, is_maximizing, rowsi, colsi, wini, 1000);
        assert(colsi <= rowsi * colsi && rowsi * colsi <= 255 * colsi) by (nonlinear_arith)
            requires
                1 <= rowsi <= 255,
                1 <= colsi,
        ;
    }
    match check_winner(board, win_condition, rows, columns) {
        Some(w) => {
            proof {
                lemma_winner_is_side(board@, wini, rowsi, colsi, w);
            }
            if w == BOT {
                return 1000 + depth as i32;
            } else {
                return -1000 + depth as i32;
            }
        },
        None => {},
    }
    let valid = get_valid_moves(board, columns);
    if depth == 0 || valid.len() == 0 {
        proof {
            assert((rows as int) * (columns as int) == (rows as int) * (columns as int) + 0);
            vstd::arithmetic::div_mod::lemma_fundamental_div_mod_converse_mod(
                (rows as int) * (columns as int),
                columns as int,
                rows as int,
                0,
            );
            vstd::arithmetic::div_mod::lemma_fundamental_div_mod_converse_div(
                (rows as int) * (columns as int),
                columns as int,
                rows as int,
                0,
            );
        }
        return evaluate_board(board, columns);
    }
    proof {
        lemma_valid_moves_props(board@, colsi);
        lemma_mm_children_props(board@, valid@, depth as int, is_maximizing, rowsi, colsi, wini, 1000);
        lemma_mm_children_bound(board@, valid@, depth as int, is_maximizing, rowsi, colsi, wini, 1000);
    }
    let piece = if is_maximizing {
        BOT
    } else {
        PLAYER
    };
    let mut best: i32 = if is_maximizing {
        i32::MIN
    } else {
        i32::MAX
    };
    let mut i: usize = 0;
    while i < valid.len()
        invariant
            i <= valid@.len(),
            i == 0 ==> best == (if is_maximizing {
                i32::MIN
            } else {
                i32::MAX
            }),
            i > 0 ==> exists|j: int|
                0 <= j < i && best as int == child_val(
                    board@,
                    #[trigger] valid@[j],
                    depth as int,
                    is_maximizing,
                    rowsi,
                    colsi,
                    wini,
                    1000,
                ),
            forall|j: int|
                0 <= j < i ==> (if is_maximizing {
                    child_val(board@, #[trigger] valid@[j], depth as int, is_maximizing, rowsi, colsi, wini, 1000)
                        <= best as int
                } else {
                    best as int <= child_val(
                        board@,
                        #[trigger] valid@[j],
                        depth as int,
                        is_maximizing,
                        rowsi,
                        colsi,
                        wini,
                        1000,
                    )
                }),
        decreases valid@.len() - i,
    {
        let mut nb = clone_board(board);
        drop_piece(&mut nb, valid[i], piece, columns, rows);
        proof {
            lemma_drop_spec_props(board@, valid@[i as int] as int, piece, rowsi, colsi);
            if is_winner(nb@, wini, rowsi, colsi, PLAYER) && is_winner(nb@, wini, rowsi, colsi, BOT) {
                let q = if piece == BOT {
                    PLAYER
                } else {
                    BOT
                };
                lemma_drop_keeps_other_no_win(
                    board@,
                    valid@[i as int] as int,
                    piece,
                    q,
                    wini,
                    rowsi,
                    colsi,
                );
            }
        }
        let ev = minimax(&nb, depth - 1, !is_maximizing, rows, columns, win_condition);
        if is_maximizing {
            if ev > best {
                best = ev;
            }
        } else {
            if ev < best {
                best = ev;
            }
        }
        i = i + 1;
    }
    best
}

/// Alpha-beta pruned search over the same tree as `minimax`, with
/// terminal scores shaped by 10000. The window clamps the result: at or
/// below `alpha` the result is an upper bound on the minimax value, at
/// or above `beta` a lower bound, and strictly inside the window it is
/// the minimax value itself -- so a search opened with a full window
/// returns exactly what exhaustive minimax would.
#[verifier::loop_isolation(false)]
pub fn alphabeta(
    board: &Vec<u8>,
    depth: u8,
    alpha: i32,
    beta: i32,
    is_maximizing: bool,
    rows: u8,
    columns: u8,
    win_condition: u8,
) -> (r: i32)
    requires
        rows >= 1,
        columns >= 1,
        win_condition >= 1,
        board@.len() == rows as int * columns as int,
        board_wf(board@, rows as int, columns as int),
        alpha < beta,
        !(is_winner(board@, win_condition as int, rows as int, columns as int, PLAYER) && is_winner(
            board@,
            win_condition as int,
            rows as int,
            columns as int,
            BOT,
        )),
    ensures
        -VALUE_BOUND <= r <= VALUE_BOUND,
        r <= alpha ==> mm(
            board@,
            depth as int,
            is_maximizing,
            rows as int,
            columns as int,
            win_condition as int,
            10000,
        ) <= r as int,
        r >= beta ==> r as int <= mm(
            board@,
            depth as int,
            is_maximizing,
            rows as int,
            columns as int,
            win_condition as int,
            10000,
        ),
        alpha < r < beta ==> r as int == mm(
            board@,
            depth as int,
            is_maximizing,
            rows as int,
            columns as int,
            win_condition as int,
            10000,
        ),
        is_winner(board@, win_condition as int, rows as int, columns as int, BOT) || is_winner(
            board@,
            win_condition as int,
            rows as int,
            columns as int,
            PLAYER,
        ) || depth == 0 || valid_moves(board@, columns as int).len() == 0 ==> r as int == mm(
            board@,
            depth as int,
            is_maximizing,
            rows as int,
            columns as int,
            win_condition as int,
            10000,
        ),
    decreases depth,
{
    let ghost rowsi = rows as int;
    let ghost colsi = columns as int;
    let ghost wini = win_condition as int;
    proof {
        lemma_mm_bound(board@, depth as int, is_maximizing, rowsi, colsi, wini, 10000);
        assert(colsi <= rowsi * colsi && rowsi * colsi <= 255 * colsi) by (nonlinear_arith)
            requires
                1 <= rowsi <= 255,
                1 <= colsi,
        ;
    }
    match check_winner(board, win_condition, rows, columns) {
        Some(w) => {
            proof {
                lemma_winner_is_side(board@, wini, rowsi, colsi, w);
            }
            if w == BOT {
                return 10000 + depth as i32;
            } else {
                return -10000 + depth as i32;
            }
        },
        None => {},
    }
    let valid = get_valid_moves(board, columns);
    if depth == 0 || valid.len() == 0 {
        proof {
            assert((rows as int) * (columns as int) == (rows as int) * (columns as int) + 0);
            vstd::arithmetic::div_mod::lemma_fundamental_div_mod_converse_mod(
                (rows as int) * (columns as int),
                columns as int,
                rows as int,
                0,
            );
            vstd::arithmetic::div_mod::lemma_fundamental_div_mod_converse_div(
                (rows as int) * (columns as int),
                columns as int,
                rows as int,
                0,
            );
        }
        return evaluate_board(board, columns);
    }
    proof {
        lemma_valid_moves_props(board@, colsi);
        lemma_mm_children_props(
            board@,
            valid@,
            depth as int,
            is_maximizing,
            rowsi,
            colsi,
            wini,
            10000,
        );
        lemma_mm_children_bound(
            board@,
            valid@,
            depth as int,
            is_maximizing,
            rowsi,
            colsi,
            wini,
            10000,
        );
    }
    let ghost fold = mm_children(board@, valid@, depth as int, is_maximizing, rowsi, colsi, wini, 10000);
    let piece = if is_maximizing {
        BOT
    } else {
        PLAYER
    };
    if is_maximizing {
        let mut max_eval: i32 = i32::MIN;
        let mut a = alpha;
        let mut i: usize = 0;
        while i < valid.len() && a < beta
            invariant
                i <= valid@.len(),
                a as int == (if max_eval as int > alpha as int {
                    max_eval as int
                } else {
                    alpha as int
                }),
                i == 0 ==> max_eval == i32::MIN,
                i > 0 ==> -VALUE_BOUND <= max_eval <= VALUE_BOUND,
                (max_eval as int) < beta as int ==> forall|j: int|
                    0 <= j < i ==> child_val(
                        board@,
                        #[trigger] valid@[j],
                        depth as int,
                        true,
                        rowsi,
                        colsi,
                        wini,
                        10000,
                    ) <= max_eval as int,
                i > 0 ==> max_eval <= alpha || exists|j: int|
                    0 <= j < i && child_val(
                        board@,
                        #[trigger] valid@[j],
                        depth as int,
                        true,
                        rowsi,
                        colsi,
                        wini,
                        10000,
                    ) >= max_eval as int,
            decreases valid@.len() - i,
        {
            let mut nb = clone_board(board);
            drop_piece(&mut nb, valid[i], piece, columns, rows);
            proof {
                lemma_drop_spec_props(board@, valid@[i as int] as int, piece, rowsi, colsi);
                if is_winner(nb@, wini, rowsi, colsi, PLAYER) && is_winner(nb@, wini, rowsi, colsi, BOT) {
                    lemma_drop_keeps_other_no_win(
                        board@,
                        valid@[i as int] as int,
                        piece,
                        PLAYER,
                        wini,
                        rowsi,
                        colsi,
                    );
                }
            }
            let ev = alphabeta(&nb, depth - 1, a, beta, false, rows, columns, win_condition);
            proof {
                let vi = child_val(board@, valid@[i as int], depth as int, true, rowsi, colsi, wini, 10000);
                assert(vi == mm(nb@, depth as int - 1, false, rowsi, colsi, wini, 10000));
                let g2: int = if ev > max_eval {
                    ev as int
                } else {
                    max_eval as int
                };
                if g2 < beta as int {
                    if ev <= a {
                        assert(vi <= ev as int);
                    } else {
                        assert(a < ev < beta);
                        assert(vi == ev as int);
                    }
                }
                if g2 > alpha as int {
                    if ev as int == g2 {
                        if ev <= a {
                            assert(vi <= ev as int);
                            assert(max_eval as int > alpha as int || a == alpha);
                            assert(a as int == max_eval as int);
                            assert(ev as int <= max_eval as int);
                        } else if ev < beta {
                            assert(vi == ev as int);
                        } else {
                            assert(ev as int <= vi);
                        }
                    }
                }
            }
            if ev > max_eval {
                max_eval = ev;
            }
            if ev > a {
                a = ev;
            }
            i = i + 1;
        }
        proof {
            if max_eval as int >= beta as int {
                let j = choose|j: int|
                    0 <= j < i && child_val(
                        board@,
                        #[trigger] valid@[j],
                        depth as int,
                        true,
                        rowsi,
                        colsi,
                        wini,
                        10000,
                    ) >= max_eval as int;
                assert(child_val(board@, valid@[j], depth as int, true, rowsi, colsi, wini, 10000)
                    <= fold);
            } else {
                assert(i == valid@.len());
                let k = choose|k: int|
                    0 <= k < valid@.len() && child_val(
                        board@,
                        #[trigger] valid@[k],
                        depth as int,
                        true,
                        rowsi,
                        colsi,
                        wini,
                        10000,
                    ) == fold;
                assert(fold <= max_eval as int);
                if max_eval as int > alpha as int {
                    let j = choose|j: int|
                        0 <= j < i && child_val(
                            board@,
                            #[trigger] valid@[j],
                            depth as int,
                            true,
                            rowsi,
                            colsi,
                            wini,
                            10000,
                        ) >= max_eval as int;
                    assert(child_val(board@, valid@[j], depth as int, true, rowsi, colsi, wini, 10000)
                        <= fold);
                }
            }
        }
        max_eval
    } else {
        let mut min_eval: i32 = i32::MAX;
        let mut b = beta;
        let mut i: usize = 0;
        while i < valid.len() && alpha < b
            invariant
                i <= valid@.len(),
                b as int == (if (min_eval as int) < beta as int {
                    min_eval as int
                } else {
                    beta as int
                }),
                i == 0 ==> min_eval == i32::MAX,
                i > 0 ==> -VALUE_BOUND <= min_eval <= VALUE_BOUND,
                (min_eval as int) > alpha as int ==> forall|j: int|
                    0 <= j < i ==> child_val(
                        board@,
                        #[trigger] valid@[j],
                        depth as int,
                        false,
                        rowsi,
                        colsi,
                        wini,
                        10000,
                    ) >= min_eval as int,
                i > 0 ==> min_eval >= beta || exists|j: int|
                    0 <= j < i && child_val(
                        board@,
                        #[trigger] valid@[j],
                        depth as int,
                        false,
                        rowsi,
                        colsi,
                        wini,
                        10000,
                    ) <= min_eval as int,
            decreases valid@.len() - i,
        {
            let mut nb = clone_board(board);
            drop_piece(&mut nb, valid[i], piece, columns, rows);
            proof {
                lemma_drop_spec_props(board@, valid@[i as int] as int, piece, rowsi, colsi);
                if is_winner(nb@, wini, rowsi, colsi, PLAYER) && is_winner(nb@, wini, rowsi, colsi, BOT) {
                    lemma_drop_keeps_other_no_win(
                        board@,
                        valid@[i as int] as int,
                        piece,
                        BOT,
                        wini,
                        rowsi,
                        colsi,
                    );
                }
            }
            let ev = alphabeta(&nb, depth - 1, alpha, b, true, rows, columns, win_condition);
            proof {
                let vi = child_val(board@, valid@[i as int], depth as int, false, rowsi, colsi, wini, 10000);
                assert(vi == mm(nb@, depth as int - 1, true, rowsi, colsi, wini, 10000));
                let g2: int = if ev < min_eval {
                    ev as int
                } else {
                    min_eval as int
                };
                if g2 > alpha as int {
                    if ev >= b {
                        assert(ev as int <= vi);
                    } else {
                        assert(alpha < ev < b);
                        assert(vi == ev as int);
                    }
                }
                if g2 < beta as int {
                    if ev as int == g2 {
                        if ev >= b {
                            assert(ev as int <= vi);
                            assert((min_eval as int) < beta as int || b == beta);
                            assert(b as int == min_eval as int);
                            assert(ev as int >= min_eval as int);
                        } else if ev > alpha {
                            assert(vi == ev as int);
                        } else {
                            assert(vi <= ev as int);
                        }
                    }
                }
            }
            if ev < min_eval {
                min_eval = ev;
            }
            if ev < b {
                b = ev;
            }
            i = i + 1;
        }
        proof {
            if min_eval as int <= alpha as int {
                let j = choose|j: int|
                    0 <= j < i && child_val(
                        board@,
                        #[trigger] valid@[j],
                        depth as int,
                        false,
                        rowsi,
                        colsi,
                        wini,
                        10000,
                    ) <= min_eval as int;
                assert(fold <= child_val(board@, valid@[j], depth as int, false, rowsi, colsi, wini, 10000));
            } else {
                assert(i == valid@.len());
                let k = choose|k: int|
                    0 <= k < valid@.len() && child_val(
                        board@,
                        #[trigger] valid@[k],
                        depth as int,
                        false,
                        rowsi,
                        colsi,
                        wini,
                        10000,
                    ) == fold;
                assert(min_eval as int <= fold);
                if (min_eval as int) < beta as int {
                    let j = choose|j: int|
                        0 <= j < i && child_val(
                            board@,
                            #[trigger] valid@[j],
                            depth as int,
                            false,
                            rowsi,
                            colsi,
                            wini,
                            10000,
                        ) <= min_eval as int;
                    assert(fold <= child_val(board@, valid@[j], depth as int, false, rowsi, colsi, wini, 10000));
                }
            }
        }
        min_eval
    }
}

} // verus!
