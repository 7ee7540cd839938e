//! The three difficulty tiers: a random choice with a center
//! preference, exhaustive minimax to depth 4, and alpha-beta search to
//! depth 8, the two searches trying center-near columns first.

use vstd::prelude::*;
use crate::board::{board_wf, clone_board, drop_piece, get_valid_moves, valid_moves, BOT, PLAYER};
use crate::board::lemma_valid_moves_props;
use crate::board::lemma_drop_spec_props;
use crate::winner::no_winner;
use crate::winner::lemma_drop_keeps_other_no_win;
use crate::search::{alphabeta, child_val, minimax, mm};
use crate::rng::random_below;

verus! {

/// Depth of the exhaustive search tier.
pub const MEDIUM_DEPTH: u8 = 4;

/// Depth of the pruned search tier.
pub const INSANE_DEPTH: u8 = 8;

/// Terminal score scale of the exhaustive search tier.
pub const MEDIUM_WIN_SCORE: i32 = 1000;

/// Terminal score scale of the pruned search tier.
pub const INSANE_WIN_SCORE: i32 = 10000;

/// The legal moves at distance at most `d` from the center column, near
/// ones first; of the two columns at one distance the left one, which
/// comes first in ascending order, is tried first.
pub open spec fn picks_upto(legal: Seq<u8>, center: int, cols: int, d: int) -> Seq<u8>
    decreases d,
{
    if d <= 0 {
        if legal.contains(center as u8) {
            seq![center as u8]
        } else {
            Seq::empty()
        }
    } else {
        picks_upto(legal, center, cols, d - 1) + (if center - d >= 0 && legal.contains(
            (center - d) as u8,
        ) {
            seq![(center - d) as u8]
        } else {
            Seq::empty()
        }) + (if center + d < cols && legal.contains((center + d) as u8) {
            seq![(center + d) as u8]
        } else {
            Seq::empty()
        })
    }
}

/// The legal moves ordered by distance from the center column.
pub open spec fn center_order_spec(legal: Seq<u8>, cols: int) -> Seq<u8> {
    picks_upto(legal, cols / 2, cols, cols)
}

/// Every listed column is a legal move.
pub proof fn lemma_picks_in_legal(legal: Seq<u8>, center: int, cols: int, d: int)
    ensures
        forall|j: int|
            0 <= j < picks_upto(legal, center, cols, d).len() ==> legal.contains(
                #[trigger] picks_upto(legal, center, cols, d)[j],
            ),
    decreases d,
{
    let cur = picks_upto(legal, center, cols, d);
    if d <= 0 {
        assert forall|j: int| 0 <= j < cur.len() implies legal.contains(cur[j]) by {
            assert(cur[j] == center as u8);
        }
    } else {
        lemma_picks_in_legal(legal, center, cols, d - 1);
        let pre = picks_upto(legal, center, cols, d - 1);
        assert forall|j: int| 0 <= j < cur.len() implies legal.contains(cur[j]) by {
            if j < pre.len() {
                assert(cur[j] == pre[j]);
            }
        }
    }
}

/// Every legal column within distance `d` of the center is listed.
pub proof fn lemma_picks_complete(legal: Seq<u8>, center: int, cols: int, d: int, c: u8)
    requires
        legal.contains(c),
        0 <= (c as int) && (c as int) < cols,
        0 <= center && center < cols,
        d >= (if c as int >= center {
            c as int - center
        } else {
            center - c as int
        }),
    ensures
        picks_upto(legal, center, cols, d).contains(c),
    decreases d,
{
    let dc: int = if c as int >= center {
        c as int - center
    } else {
        center - c as int
    };
    if d == dc {
        if d <= 0 {
            assert(c as int == center);
            assert(picks_upto(legal, center, cols, d)[0] == c);
        } else {
            let pre = picks_upto(legal, center, cols, d - 1);
            let s1: Seq<u8> = if center - d >= 0 && legal.contains((center - d) as u8) {
                seq![(center - d) as u8]
            } else {
                Seq::empty()
            };
            let s2: Seq<u8> = if center + d < cols && legal.contains((center + d) as u8) {
                seq![(center + d) as u8]
            } else {
                Seq::empty()
            };
            assert(picks_upto(legal, center, cols, d) == pre + s1 + s2);
            if c as int == center - d {
                assert(s1[0] == c);
                assert((pre + s1 + s2)[pre.len() as int] == c);
            } else {
                assert(c as int == center + d);
                assert(s2[0] == c);
                assert((pre + s1 + s2)[(pre + s1).len() as int] == c);
            }
        }
    } else {
        lemma_picks_complete(legal, center, cols, d - 1, c);
        let pre = picks_upto(legal, center, cols, d - 1);
        let j = choose|j: int| 0 <= j < pre.len() && pre[j] == c;
        assert(picks_upto(legal, center, cols, d)[j] == c);
    }
}

/// Orders the legal moves by distance from the center column, nearer
/// first and of two equally near columns the left one first -- the
/// order a stable sort of the ascending listing by center distance
/// produces.
#[verifier::loop_isolation(false)]
pub fn center_order(legal: &Vec<u8>, columns: u8) -> (r: Vec<u8>)
    requires
        columns >= 1,
        forall|j: int| 0 <= j < legal@.len() ==> #[trigger] legal@[j] < columns,
    ensures
        r@ == center_order_spec(legal@, columns as int),
        legal@.len() > 0 ==> r@.len() > 0,
{
    let cols = columns as usize;
    let center = cols / 2;
    let ghost colsi = columns as int;
    let mut r: Vec<u8> = Vec::new();
    if contains_col(legal, center as u8) {
        r.push(center as u8);
    }
    let mut d: usize = 1;
    while d <= cols
        invariant
            1 <= d <= cols + 1,
            r@ == picks_upto(legal@, center as int, colsi, d as int - 1),
        decreases cols + 1 - d,
    {
        if center >= d && contains_col(legal, (center - d) as u8) {
            r.push((center - d) as u8);
        }
        if center + d < cols && contains_col(legal, (center + d) as u8) {
            r.push((center + d) as u8);
        }
        proof {
            assert(r@ =~= picks_upto(legal@, center as int, colsi, d as int));
        }
        d = d + 1;
    }
    proof {
        if legal@.len() > 0 {
            let c = legal@[0];
            lemma_picks_complete(legal@, center as int, colsi, colsi, c);
        }
    }
    r
}

/// Tests whether a column is listed.
#[verifier::loop_isolation(false)]
fn contains_col(list: &Vec<u8>, c: u8) -> (b: bool)
    ensures
        b == list@.contains(c),
{
    let mut i: usize = 0;
    while i < list.len()
        invariant
            i <= list@.len(),
            forall|j: int| 0 <= j < i ==> list@[j] != c,
        decreases list@.len() - i,
    {
        if list[i] == c {
            return true;
        }
        i = i + 1;
    }
    false
}

/// The running best of the search tiers from position `i` on: a move
/// displaces the incumbent only when its child's minimax value strictly
/// exceeds the best value seen, so the earliest maximum wins.
pub open spec fn best_from(
    board: Seq<u8>,
    ms: Seq<u8>,
    i: int,
    best: u8,
    bv: int,
    depth: int,
    rows: int,
    cols: int,
    win: int,
    wscore: int,
) -> u8
    decreases ms.len() - i,
{
    if i < 0 || i >= ms.len() {
        best
    } else {
        let v = child_val(board, ms[i], depth + 1, true, rows, cols, win, wscore);
        if v > bv {
            best_from(board, ms, i + 1, ms[i], v, depth, rows, cols, win, wscore)
        } else {
            best_from(board, ms, i + 1, best, bv, depth, rows, cols, win, wscore)
        }
    }
}

/// The column a search tier of the given depth and score scale picks:
/// the center-biased legal move maximizing the minimax value of the
/// child, earlier ones winning ties; `0` when the board is full.
pub open spec fn search_choice(
    board: Seq<u8>,
    depth: int,
    rows: int,
    cols: int,
    win: int,
    wscore: int,
) -> u8 {
    let ms = center_order_spec(valid_moves(board, cols), cols);
    if valid_moves(board, cols).len() == 0 {
        0
    } else {
        best_from(board, ms, 0, ms[0], i32::MIN as int, depth, rows, cols, win, wscore)
    }
}

/// The exhaustive search tier: depth 4 minimax over center-biased moves.
/// Returns exactly `search_choice` at that depth, a legal move whenever
/// one exists and `0` otherwise.
#[verifier::loop_isolation(false)]
pub fn medium_bot(board: &Vec<u8>, rows: u8, columns: u8, win_condition: u8) -> (r: u8)
    requires
        rows >= 1,
        columns >= 1,
        win_condition >= 1,
        board@.len() == rows as int * columns as int,
        board_wf(board@, rows as int, columns as int),
        no_winner(board@, win_condition as int, rows as int, columns as int),
    ensures
        r as int == search_choice(
            board@,
            MEDIUM_DEPTH as int,
            rows as int,
            columns as int,
            win_condition as int,
            MEDIUM_WIN_SCORE as int,
        ) as int,
        valid_moves(board@, columns as int).len() > 0 ==> valid_moves(board@, columns as int)
            .contains(r),
        valid_moves(board@, columns as int).len() == 0 ==> r == 0,
{
    let ghost rowsi = rows as int;
    let ghost colsi = columns as int;
    let ghost wini = win_condition as int;
    proof {
        assert(colsi <= rowsi * colsi) by (nonlinear_arith)
            requires
                1 <= rowsi,
                1 <= colsi,
        ;
        lemma_valid_moves_props(board@, colsi);
    }
    let valid = get_valid_moves(board, columns);
    if valid.len() == 0 {
        return 0;
    }
    let ordered = center_order(&valid, columns);
    proof {
        lemma_picks_in_legal(valid@, colsi / 2, colsi, colsi);
    }
    let mut best_score: i32 = i32::MIN;
    let mut best_move = ordered[0];
    let mut i: usize = 0;
    while i < ordered.len()
        invariant
            i <= ordered@.len(),
            valid@.contains(best_move),
            best_from(
                board@,
                ordered@,
                i as int,
                best_move,
                best_score as int,
                MEDIUM_DEPTH as int,
                rowsi,
                colsi,
                wini,
                MEDIUM_WIN_SCORE as int,
            ) == best_from(
                board@,
                ordered@,
                0,
                ordered@[0],
                i32::MIN as int,
                MEDIUM_DEPTH as int,
                rowsi,
                colsi,
                wini,
                MEDIUM_WIN_SCORE as int,
            ),
        decreases ordered@.len() - i,
    {
        let mut nb = clone_board(board);
        drop_piece(&mut nb, ordered[i], BOT, columns, rows);
        proof {
            lemma_drop_spec_props(board@, ordered@[i as int] as int, BOT, rowsi, colsi);
            lemma_drop_keeps_other_no_win(
                board@,
                ordered@[i as int] as int,
                BOT,
                PLAYER,
                wini,
                rowsi,
                colsi,
            );
        }
        let score = minimax(&nb, MEDIUM_DEPTH, false, rows, columns, win_condition);
        if score > best_score {
            best_score = score;
            best_move = ordered[i];
        }
        i = i + 1;
    }
    best_move
}

/// The pruned search tier: depth 8 alpha-beta over center-biased moves,
/// each root child searched with a full window, so the choice is the
/// minimax choice. Returns exactly `search_choice` at that depth, a
/// legal move whenever one exists and `0` otherwise.
#[verifier::loop_isolation(false)]
pub fn insane_bot(board: &Vec<u8>, rows: u8, columns: u8, win_condition: u8) -> (r: u8)
    requires
        rows >= 1,
        columns >= 1,
        win_condition >= 1,
        board@.len() == rows as int * columns as int,
        board_wf(board@, rows as int, columns as int),
        no_winner(board@, win_condition as int, rows as int, columns as int),
    ensures
        r as int == search_choice(
            board@,
            INSANE_DEPTH as int,
            rows as int,
            columns as int,
            win_condition as int,
            INSANE_WIN_SCORE as int,
        ) as int,
        valid_moves(board@, columns as int).len() > 0 ==> valid_moves(board@, columns as int)
            .contains(r),
        valid_moves(board@, columns as int).len() == 0 ==> r == 0,
{
    let ghost rowsi = rows as int;
    let ghost colsi = columns as int;
    let ghost wini = win_condition as int;
    proof {
        assert(colsi <= rowsi * colsi) by (nonlinear_arith)
            requires
                1 <= rowsi,
                1 <= colsi,
        ;
        lemma_valid_moves_props(board@, colsi);
    }
    let valid = get_valid_moves(board, columns);
    if valid.len() == 0 {
        return 0;
    }
    let ordered = center_order(&valid, columns);
    proof {
        lemma_picks_in_legal(valid@, colsi / 2, colsi, colsi);
    }
    let mut best_score: i32 = i32::MIN;
    let mut best_move = ordered[0];
    let mut i: usize = 0;
    while i < ordered.len()
        invariant
            i <= ordered@.len(),
            valid@.contains(best_move),
            best_from(
                board@,
                ordered@,
                i as int,
                best_move,
                best_score as int,
                INSANE_DEPTH as int,
                rowsi,
                colsi,
                wini,
                INSANE_WIN_SCORE as int,
            ) == best_from(
                board@,
                ordered@,
                0,
                ordered@[0],
                i32::MIN as int,
                INSANE_DEPTH as int,
                rowsi,
                colsi,
                wini,
                INSANE_WIN_SCORE as int,
            ),
        decreases ordered@.len() - i,
    {
        let mut nb = clone_board(board);
        drop_piece(&mut nb, ordered[i], BOT, columns, rows);
        proof {
            lemma_drop_spec_props(board@, ordered@[i as int] as int, BOT, rowsi, colsi);
            lemma_drop_keeps_other_no_win(
                board@,
                ordered@[i as int] as int,
                BOT,
                PLAYER,
                wini,
                rowsi,
                colsi,
            );
        }
        let score = alphabeta(
            &nb,
            INSANE_DEPTH,
            i32::MIN,
            i32::MAX,
            false,
            rows,
            columns,
            win_condition,
        );
        proof {
            assert(score as int == mm(nb@, INSANE_DEPTH as int, false, rowsi, colsi, wini, 10000));
        }
        if score > best_score {
            best_score = score;
            best_move = ordered[i];
        }
        i = i + 1;
    }
    best_move
}

/// The random tier: the center column whenever it is legal, otherwise a
/// draw among the legal moves; `0` when the board is full.
#[verifier::loop_isolation(false)]
pub fn easy_bot(board: &Vec<u8>, columns: u8) -> (r: u8)
    requires
        columns >= 1,
        board@.len() >= columns as int,
    ensures
        valid_moves(board@, columns as int).len() == 0 ==> r == 0,
        valid_moves(board@, columns as int).contains(columns / 2) ==> r == columns / 2,
        valid_moves(board@, columns as int).len() > 0 ==> valid_moves(board@, columns as int)
            .contains(r),
{
    let valid = get_valid_moves(board, columns);
    if valid.len() == 0 {
        return 0;
    }
    let center = columns / 2;
    if contains_col(&valid, center) {
        return center;
    }
    let idx = random_below(valid.len());
    let r = valid[idx];
    proof {
        assert(valid@[idx as int] == r);
    }
    r
}

} // verus!
