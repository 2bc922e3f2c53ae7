//! Depth-limited minimax search with alpha-beta pruning. A result is a move,
//! its evaluation and the depth budget left where that evaluation was found.
//! Results are ordered by evaluation, then by that depth: `X` takes the
//! greatest (so the shallower of equal evaluations), `O` the least (the
//! deeper), and among equals the first move in board order.
use vstd::prelude::*;

use rayon::iter::{IndexedParallelIterator, IntoParallelRefIterator, ParallelIterator};

use crate::board::{
    lemma_play_keeps_shape, lemma_play_keeps_wf, lemma_view_shaped, local_full, local_state, meta_full,
    Board, BoardModel, Player,
};
use crate::cache::{
    cached, grows_from, kept, lemma_grows_keeps, lemma_grows_trans, lemma_marks_play, marks,
    sound_within, SearchCache,
};
use crate::codec::{key_matches, lemma_key_injective, BoardKey};
use crate::eval::{leaf_value, EvalTables, LEAF_MAX, WORTH_MAX};

verus! {

/// A move (local board, cell), its evaluation, and the depth budget that was
/// left where the evaluation was found.
pub type SearchResult = ((usize, usize), i64, u64);

/// A search result as mathematical integers.
pub type Res = ((int, int), int, int);

/// One whole unit of evaluation. Evaluations are integers counting
/// 1/(18 * 9!) of a unit; the leaf heuristic lies within two units either way.
pub const EVAL_UNIT: i64 = 18 * WORTH_MAX;

/// The evaluation of a won game: ten units, beyond any leaf heuristic.
pub const WIN_SCORE: i64 = 10 * EVAL_UNIT;

pub open spec fn res_of(r: SearchResult) -> Res {
    ((r.0.0 as int, r.0.1 as int), r.1 as int, r.2 as int)
}

pub open spec fn score(r: Res) -> (int, int) {
    (r.1, r.2)
}

/// `a` is greater than `b`: by evaluation, then by depth left.
pub open spec fn above(a: (int, int), b: (int, int)) -> bool {
    a.0 > b.0 || (a.0 == b.0 && a.1 > b.1)
}

/// The mover (`X` when `x`) would rather have `a` than `b`.
pub open spec fn prefers(x: bool, a: (int, int), b: (int, int)) -> bool {
    if x {
        above(a, b)
    } else {
        above(b, a)
    }
}

/// The better of a best-so-far and a new candidate; the earlier stays on a tie.
pub open spec fn pick(x: bool, prev: Option<Res>, cand: Res) -> Option<Res> {
    match prev {
        None => Some(cand),
        Some(p) => if prefers(x, score(cand), score(p)) {
            Some(cand)
        } else {
            Some(p)
        },
    }
}

/// The result of a finished game: 0 for a tie, `WIN_SCORE` for `X`,
/// `-WIN_SCORE` for `O`.
pub open spec fn terminal_result(m: BoardModel, d: nat) -> Res {
    if m.tied() {
        ((0, 0), 0, d as int)
    } else if m.winner() == Some(Player::X) {
        ((0, 0), WIN_SCORE as int, d as int)
    } else {
        ((0, 0), -WIN_SCORE as int, d as int)
    }
}

/// Exhaustive minimax to depth budget `d`, without pruning.
pub open spec fn search(m: BoardModel, d: nat) -> Res
    decreases d, 1nat, 0nat,
{
    if m.terminal() {
        terminal_result(m, d)
    } else {
        match best_from(m, d, 81) {
            Some(r) => r,
            None => ((0, 0), 0, d as int),
        }
    }
}

/// The evaluation and depth of the board reached by a move: the leaf
/// heuristic when the budget is spent, else the search one level down.
pub open spec fn child_value(c: BoardModel, d: nat) -> (int, int)
    decreases d, 0nat, 0nat,
{
    if d == 0 {
        (leaf_value(c), 0)
    } else {
        score(search(c, (d - 1) as nat))
    }
}

/// The best of the moves numbered below `n` (number `9 * g + l` for cell `l`
/// of local board `g`).
pub open spec fn best_from(m: BoardModel, d: nat, n: nat) -> Option<Res>
    decreases d, 0nat, n,
{
    if n == 0 {
        None
    } else {
        let prev = best_from(m, d, (n - 1) as nat);
        let g = (n - 1) / 9;
        let l = (n - 1) % 9;
        match m.play(g, l) {
            None => prev,
            Some(c) => {
                let v = child_value(c, d);
                pick(m.to_play == Player::X, prev, ((g, l), v.0, v.1))
            },
        }
    }
}

/// What alpha-beta promises of a result `r` found within the window
/// `(alpha, beta)`, against the exhaustive result `v`: below the window it
/// bounds `v` from above, beyond it from below, and inside it is exact.
pub open spec fn within(alpha: (int, int), beta: (int, int), r: Res, v: Res) -> bool {
    &&& !above(score(r), alpha) ==> !above(score(v), score(r))
    &&& !above(beta, score(r)) ==> !above(score(r), score(v))
    &&& above(score(r), alpha) && above(beta, score(r)) ==> r == v
}

/// The best-so-far `best` of a search stands to the exhaustive best-so-far
/// `exact` as `within` asks.
pub open spec fn tracks(alpha: (int, int), beta: (int, int), best: Option<Res>, exact: Option<Res>) -> bool {
    &&& best is None <==> exact is None
    &&& best is Some ==> within(alpha, beta, best.unwrap(), exact.unwrap())
}

pub open spec fn bounded(r: SearchResult, d: u64) -> bool {
    -WIN_SCORE <= r.1 <= WIN_SCORE && r.2 <= d
}

pub open spec fn as_pair(p: (i64, u64)) -> (int, int) {
    (p.0 as int, p.1 as int)
}

/// Taking one more candidate into a best-so-far keeps it tracking the
/// exhaustive one, given the window that the candidate was searched with: for
/// `X` the node's upper bound and a lower bound no higher than the best so far,
/// for `O` the mirror image.
pub proof fn lemma_pick_tracks(
    x: bool,
    alpha: (int, int),
    beta: (int, int),
    ca: (int, int),
    cb: (int, int),
    best: Option<Res>,
    exact: Option<Res>,
    cand: Res,
    t: Res,
)
    requires
        above(beta, alpha),
        tracks(alpha, beta, best, exact),
        within(ca, cb, cand, t),
        cand.0 == t.0,
        x ==> cb == beta && !above(alpha, ca),
        x && best is None ==> ca == alpha,
        x && best is Some ==> !above(ca, alpha) || !above(ca, score(best.unwrap())),
        !x ==> ca == alpha && !above(cb, beta),
        !x && best is None ==> cb == beta,
        !x && best is Some ==> !above(beta, cb) || !above(score(best.unwrap()), cb),
    ensures
        tracks(alpha, beta, pick(x, best, cand), pick(x, exact, t)),
{
}


/// The state of an alpha-beta node after some of its moves: the best result
/// so far, the window, and whether the node has stopped (pruned).
pub struct AbState {
    pub best: Option<Res>,
    pub alpha: (int, int),
    pub beta: (int, int),
    pub stopped: bool,
}

/// Alpha-beta search on one thread, as `minimax_single` runs it: the moves in
/// board order; before each legal move the node stops once `beta <= alpha`;
/// at depth 0 each move gets its leaf heuristic, else a search one level down
/// within the current window, which then raises `alpha` (`X` to move) or
/// lowers `beta` (`O` to move).
pub open spec fn ab_search(m: BoardModel, d: nat, alpha: (int, int), beta: (int, int)) -> Res
    decreases d, 1nat, 0nat,
{
    if m.terminal() {
        terminal_result(m, d)
    } else {
        match ab_fold(m, d, alpha, beta, 81).best {
            Some(r) => r,
            None => ((0, 0), 0, d as int),
        }
    }
}

/// The state of an alpha-beta node after the moves numbered below `n`.
pub open spec fn ab_fold(m: BoardModel, d: nat, alpha: (int, int), beta: (int, int), n: nat) -> AbState
    decreases d, 0nat, n,
{
    if n == 0 {
        AbState { best: None, alpha, beta, stopped: false }
    } else {
        let st = ab_fold(m, d, alpha, beta, (n - 1) as nat);
        let g = (n - 1) / 9;
        let l = (n - 1) % 9;
        let x = m.to_play == Player::X;
        if st.stopped {
            st
        } else {
            match m.play(g, l) {
                None => st,
                Some(c) => if !above(st.beta, st.alpha) {
                    AbState { best: st.best, alpha: st.alpha, beta: st.beta, stopped: true }
                } else if d == 0 {
                    AbState {
                        best: pick(x, st.best, ((g, l), leaf_value(c), 0)),
                        alpha: st.alpha,
                        beta: st.beta,
                        stopped: false,
                    }
                } else {
                    let v = score(ab_search(c, (d - 1) as nat, st.alpha, st.beta));
                    AbState {
                        best: pick(x, st.best, ((g, l), v.0, v.1)),
                        alpha: if x && above(v, st.alpha) {
                            v
                        } else {
                            st.alpha
                        },
                        beta: if !x && above(st.beta, v) {
                            v
                        } else {
                            st.beta
                        },
                        stopped: false,
                    }
                },
            }
        }
    }
}

/// A stopped node stays stopped, with its best result.
pub proof fn lemma_ab_fold_stays(
    m: BoardModel,
    d: nat,
    alpha: (int, int),
    beta: (int, int),
    n1: nat,
    n2: nat,
)
    requires
        n1 <= n2,
        ab_fold(m, d, alpha, beta, n1).stopped,
    ensures
        ab_fold(m, d, alpha, beta, n2) == ab_fold(m, d, alpha, beta, n1),
    decreases n2,
{
    if n1 < n2 {
        lemma_ab_fold_stays(m, d, alpha, beta, n1, (n2 - 1) as nat);
    }
}

/// A best-so-far only improves for its mover as more moves are seen.
pub proof fn lemma_best_from_grows(m: BoardModel, d: nat, n1: nat, n2: nat)
    requires
        n1 <= n2,
        best_from(m, d, n1) is Some,
    ensures
        best_from(m, d, n2) is Some,
        m.to_play == Player::X ==> !above(
            score(best_from(m, d, n1).unwrap()),
            score(best_from(m, d, n2).unwrap()),
        ),
        m.to_play == Player::O ==> !above(
            score(best_from(m, d, n2).unwrap()),
            score(best_from(m, d, n1).unwrap()),
        ),
    decreases n2,
{
    if n1 < n2 {
        lemma_best_from_grows(m, d, n1, (n2 - 1) as nat);
    }
}

/// `a` is greater than `b`, by evaluation, then by depth left.
pub fn beats(a: (i64, u64), b: (i64, u64)) -> (r: bool)
    ensures
        r == above(as_pair(a), as_pair(b)),
{
    a.0 > b.0 || (a.0 == b.0 && a.1 > b.1)
}

/// The result of a finished game, tagged with the depth budget left.
fn finished(board: &Board, depth: u64) -> (r: Option<SearchResult>)
    ensures
        match r {
            Some(x) => board@.terminal() && res_of(x) == terminal_result(board@, depth as nat)
                && bounded(x, depth),
            None => !board@.terminal(),
        },
{
    if board.is_tie() {
        Some(((0, 0), 0, depth))
    } else if let Some(p) = board.has_won() {
        Some(
            (
                (0, 0),
                match p {
                    Player::X => WIN_SCORE,
                    Player::O => -WIN_SCORE,
                },
                depth,
            ),
        )
    } else {
        None
    }
}

/// Alpha-beta search of `whole_board` to depth budget `depth`, on one thread.
/// Moves are tried in board order; before each, the search stops once
/// `beta <= alpha`, and each searched move raises `alpha` (`X` to move) or
/// lowers `beta` (`O` to move). At depth 0 each move is scored by the leaf
/// heuristic instead. The result is exact within the window `(alpha, beta)`.
pub fn minimax_single(
    whole_board: &Board,
    depth: u64,
    alpha: (i64, u64),
    beta: (i64, u64),
    tables: &EvalTables,
) -> (r: SearchResult)
    requires
        tables.wf(),
        above(as_pair(beta), as_pair(alpha)),
    ensures
        bounded(r, depth),
        within(as_pair(alpha), as_pair(beta), res_of(r), search(whole_board@, depth as nat)),
        whole_board@.terminal() ==> res_of(r) == terminal_result(whole_board@, depth as nat),
        whole_board@.wf() && !whole_board@.terminal() ==> whole_board@.play(
            r.0.0 as int,
            r.0.1 as int,
        ) is Some,
        depth == 0 ==> res_of(r) == search(whole_board@, 0),
        res_of(r) == ab_search(whole_board@, depth as nat, as_pair(alpha), as_pair(beta)),
    decreases depth,
{
    if let Some(r) = finished(whole_board, depth) {
        return r;
    }
    let ghost m = whole_board@;
    let ghost d = depth as nat;
    let x = match whole_board.to_play {
        Player::X => true,
        Player::O => false,
    };
    let mut a = alpha;
    let mut b = beta;
    let mut best: Option<SearchResult> = None;
    let mut idx: usize = 0;
    let mut pruned = false;
    while idx < 81
        invariant_except_break
            !pruned,
        invariant
            idx <= 81,
            tables.wf(),
            m == whole_board@,
            d == depth as nat,
            !m.terminal(),
            x == (m.to_play == Player::X),
            above(as_pair(beta), as_pair(alpha)),
            tracks(
                as_pair(alpha),
                as_pair(beta),
                match best {
                    Some(r) => Some(res_of(r)),
                    None => None,
                },
                best_from(m, d, idx as nat),
            ),
            best matches Some(r) ==> bounded(r, depth),
            depth == 0 ==> a == alpha && b == beta,
            x ==> b == beta,
            !x ==> a == alpha,
            depth > 0 && x ==> match best {
                None => a == alpha,
                Some(r) => as_pair(a) == if above(score(res_of(r)), as_pair(alpha)) {
                    score(res_of(r))
                } else {
                    as_pair(alpha)
                },
            },
            depth > 0 && !x ==> match best {
                None => b == beta,
                Some(r) => as_pair(b) == if above(as_pair(beta), score(res_of(r))) {
                    score(res_of(r))
                } else {
                    as_pair(beta)
                },
            },
            best matches Some(r) ==> m.play(r.0.0 as int, r.0.1 as int) is Some,
            best is None ==> forall|j: int|
                0 <= j < idx ==> (#[trigger] m.play(j / 9, j % 9)) is None,
            depth == 0 ==> match best {
                Some(r) => Some(res_of(r)),
                None => None,
            } == best_from(m, d, idx as nat),
            !pruned ==> ab_fold(m, d, as_pair(alpha), as_pair(beta), idx as nat) == (AbState {
                best: match best {
                    Some(r) => Some(res_of(r)),
                    None => None,
                },
                alpha: as_pair(a),
                beta: as_pair(b),
                stopped: false,
            }),
        ensures
            pruned || idx == 81,
            pruned ==> !above(as_pair(b), as_pair(a)),
            pruned ==> idx < 81 && ab_fold(m, d, as_pair(alpha), as_pair(beta), (idx + 1) as nat)
                == (AbState {
                best: match best {
                    Some(r) => Some(res_of(r)),
                    None => None,
                },
                alpha: as_pair(a),
                beta: as_pair(b),
                stopped: true,
            }),
            !pruned ==> ab_fold(m, d, as_pair(alpha), as_pair(beta), idx as nat) == (AbState {
                best: match best {
                    Some(r) => Some(res_of(r)),
                    None => None,
                },
                alpha: as_pair(a),
                beta: as_pair(b),
                stopped: false,
            }),
        decreases 81 - idx,
    {
        let g = idx / 9;
        let l = idx % 9;
        let ghost prev = match best {
            Some(r) => Some(res_of(r)),
            None => None,
        };
        if let Some(child) = whole_board.play(g, l) {
            if !beats(b, a) {
                proof {
                    let st = ab_fold(m, d, as_pair(alpha), as_pair(beta), idx as nat);
                    assert(((idx + 1) as nat - 1) / 9 == g && ((idx + 1) as nat - 1) % 9 == l);
                    assert(ab_fold(m, d, as_pair(alpha), as_pair(beta), (idx + 1) as nat) == (AbState {
                        best: st.best,
                        alpha: st.alpha,
                        beta: st.beta,
                        stopped: true,
                    }));
                }
                pruned = true;
                break;
            }
            let a0 = a;
            let b0 = b;
            let cand: SearchResult;
            if depth == 0 {
                let v = child.evalutate(tables);
                cand = ((g, l), v, 0);
                proof {
                    assert(WIN_SCORE > LEAF_MAX);
                }
            } else {
                let r = minimax_single(&child, depth - 1, a, b, tables);
                cand = ((g, l), r.1, r.2);
                if x {
                    if beats((r.1, r.2), a) {
                        a = (r.1, r.2);
                    }
                } else {
                    if beats(b, (r.1, r.2)) {
                        b = (r.1, r.2);
                    }
                }
            }
            let ghost v = child_value(child@, d);
            let ghost t: Res = ((g as int, l as int), v.0, v.1);
            proof {
                lemma_pick_tracks(
                    x,
                    as_pair(alpha),
                    as_pair(beta),
                    as_pair(a0),
                    as_pair(b0),
                    prev,
                    best_from(m, d, idx as nat),
                    res_of(cand),
                    t,
                );
            }
            best = match best {
                None => Some(cand),
                Some(p) => if (x && beats((cand.1, cand.2), (p.1, p.2))) || (!x && beats(
                    (p.1, p.2),
                    (cand.1, cand.2),
                )) {
                    Some(cand)
                } else {
                    Some(p)
                },
            };
        }
        idx += 1;
    }
    proof {
        if pruned {
            assert(best is Some);
            lemma_best_from_grows(m, d, idx as nat, 81);
            lemma_ab_fold_stays(m, d, as_pair(alpha), as_pair(beta), (idx + 1) as nat, 81);
        }
        if m.wf() && best is None {
            let j = lemma_has_move(m);
            assert(m.play(j / 9, j % 9) is Some);
        }
    }
    match best {
        Some(r) => r,
        None => ((0, 0), 0, depth),
    }
}


/// What the search of one slot of a node's frontier promises: nothing for an
/// empty slot; for a reached board, a result within `(alpha, beta)` of its
/// exhaustive value one level down, and at depth 0 its leaf heuristic itself.
pub open spec fn slot_done(
    slot: Option<Board>,
    r: Option<SearchResult>,
    depth: u64,
    alpha: (i64, u64),
    beta: (i64, u64),
) -> bool {
    match slot {
        None => r is None,
        Some(c) => match r {
            None => false,
            Some(x) => {
                let v = child_value(c@, depth as nat);
                &&& bounded(x, depth)
                &&& depth == 0 ==> x.1 == v.0 && x.2 == v.1
                &&& within(
                    as_pair(alpha),
                    as_pair(beta),
                    ((0, 0), x.1 as int, x.2 as int),
                    ((0, 0), v.0, v.1),
                )
            },
        },
    }
}

/// Searches the board in one slot of a node's frontier: by the leaf heuristic
/// at depth 0, on this thread once no parallel levels are left, else in
/// parallel again.
pub fn search_slot(
    slot: &Option<Board>,
    depth: u64,
    threaded_depth: u64,
    alpha: (i64, u64),
    beta: (i64, u64),
    tables: &EvalTables,
) -> (r: Option<SearchResult>)
    requires
        tables.wf(),
        above(as_pair(beta), as_pair(alpha)),
    ensures
        slot_done(*slot, r, depth, alpha, beta),
{
    match slot {
        None => None,
        Some(c) => {
            if depth == 0 {
                let v = c.evalutate(tables);
                assert(WIN_SCORE > LEAF_MAX);
                Some(((0, 0), v, 0))
            } else if threaded_depth == 0 {
                Some(minimax_single(c, depth - 1, alpha, beta, tables))
            } else {
                Some(minimax(c, depth - 1, threaded_depth - 1, alpha, beta, tables))
            }
        },
    }
}

/// Relies on rayon's `par_iter`, `map` and `collect_into_vec`: the closure runs
/// once on each slot, on the worker pool, and all runs end before the call
/// returns, with what each returned in the order of the slots.
#[verifier::external_body]
fn search_slots_parallel(
    slots: &Vec<Option<Board>>,
    depth: u64,
    threaded_depth: u64,
    alpha: (i64, u64),
    beta: (i64, u64),
    tables: &EvalTables,
) -> (r: Vec<Option<SearchResult>>)
    requires
        tables.wf(),
        above(as_pair(beta), as_pair(alpha)),
    ensures
        r@.len() == slots@.len(),
        forall|i: int|
            0 <= i < slots@.len() ==> slot_done(slots@[i], #[trigger] r@[i], depth, alpha, beta),
{
    let mut out = Vec::new();
    slots.par_iter().map(
        |slot| search_slot(slot, depth, threaded_depth, alpha, beta, tables),
    ).collect_into_vec(&mut out);
    out
}

/// Alpha-beta search of `whole_board` to depth budget `depth` whose frontier
/// is searched in parallel for `threaded_depth` more levels; below that the
/// search goes on with `minimax_single`. The moves of one parallel node are
/// searched side by side, each with the node's own window, so the result
/// does not depend on how the threads are scheduled. The result is exact
/// within the window `(alpha, beta)`.
pub fn minimax(
    whole_board: &Board,
    depth: u64,
    threaded_depth: u64,
    alpha: (i64, u64),
    beta: (i64, u64),
    tables: &EvalTables,
) -> (r: SearchResult)
    requires
        tables.wf(),
        above(as_pair(beta), as_pair(alpha)),
    ensures
        bounded(r, depth),
        within(as_pair(alpha), as_pair(beta), res_of(r), search(whole_board@, depth as nat)),
        whole_board@.terminal() ==> res_of(r) == terminal_result(whole_board@, depth as nat),
        whole_board@.wf() && !whole_board@.terminal() ==> whole_board@.play(
            r.0.0 as int,
            r.0.1 as int,
        ) is Some,
        depth == 0 ==> res_of(r) == search(whole_board@, 0),
{
    if let Some(r) = finished(whole_board, depth) {
        return r;
    }
    let ghost m = whole_board@;
    let ghost d = depth as nat;
    let x = match whole_board.to_play {
        Player::X => true,
        Player::O => false,
    };
    let mut slots: Vec<Option<Board>> = Vec::new();
    let mut idx: usize = 0;
    while idx < 81
        invariant
            idx <= 81,
            m == whole_board@,
            slots@.len() == idx,
            forall|j: int|
                0 <= j < idx ==> match #[trigger] slots@[j] {
                    Some(c) => m.play(j / 9, j % 9) == Some(c@),
                    None => m.play(j / 9, j % 9) is None,
                },
        decreases 81 - idx,
    {
        slots.push(whole_board.play(idx / 9, idx % 9));
        idx += 1;
    }
    let results = search_slots_parallel(&slots, depth, threaded_depth, alpha, beta, tables);
    let mut best: Option<SearchResult> = None;
    idx = 0;
    while idx < 81
        invariant
            idx <= 81,
            m == whole_board@,
            d == depth as nat,
            !m.terminal(),
            x == (m.to_play == Player::X),
            above(as_pair(beta), as_pair(alpha)),
            slots@.len() == 81,
            results@.len() == 81,
            forall|j: int|
                0 <= j < 81 ==> match #[trigger] slots@[j] {
                    Some(c) => m.play(j / 9, j % 9) == Some(c@),
                    None => m.play(j / 9, j % 9) is None,
                },
            forall|j: int|
                0 <= j < 81 ==> slot_done(slots@[j], #[trigger] results@[j], depth, alpha, beta),
            tracks(
                as_pair(alpha),
                as_pair(beta),
                match best {
                    Some(r) => Some(res_of(r)),
                    None => None,
                },
                best_from(m, d, idx as nat),
            ),
            best matches Some(r) ==> bounded(r, depth),
            best matches Some(r) ==> m.play(r.0.0 as int, r.0.1 as int) is Some,
            best is None ==> forall|j: int|
                0 <= j < idx ==> (#[trigger] m.play(j / 9, j % 9)) is None,
            depth == 0 ==> match best {
                Some(r) => Some(res_of(r)),
                None => None,
            } == best_from(m, d, idx as nat),
        decreases 81 - idx,
    {
        let ghost prev = match best {
            Some(r) => Some(res_of(r)),
            None => None,
        };
        let ghost slot = slots@[idx as int];
        if let Some(v) = results[idx] {
            let cand: SearchResult = ((idx / 9, idx % 9), v.1, v.2);
            proof {
                let c = slot.unwrap();
                let cv = child_value(c@, d);
                let t: Res = (((idx / 9) as int, (idx % 9) as int), cv.0, cv.1);
                lemma_pick_tracks(
                    x,
                    as_pair(alpha),
                    as_pair(beta),
                    as_pair(alpha),
                    as_pair(beta),
                    prev,
                    best_from(m, d, idx as nat),
                    res_of(cand),
                    t,
                );
            }
            best = match best {
                None => Some(cand),
                Some(p) => if (x && beats((cand.1, cand.2), (p.1, p.2))) || (!x && beats(
                    (p.1, p.2),
                    (cand.1, cand.2),
                )) {
                    Some(cand)
                } else {
                    Some(p)
                },
            };
        }
        idx += 1;
    }
    proof {
        if m.wf() && best is None {
            let j = lemma_has_move(m);
            assert(m.play(j / 9, j % 9) is Some);
        }
    }
    match best {
        Some(r) => r,
        None => ((0, 0), 0, depth),
    }
}

/// The engine's reply: the best move on `board` to depth budget `depth`, found
/// with `parallel_budget` levels of parallel search (none: one thread). It is
/// the exhaustive minimax result, pruning notwithstanding.
pub fn best_move(board: &Board, depth: u64, parallel_budget: u64, tables: &EvalTables) -> (r:
    SearchResult)
    requires
        tables.wf(),
    ensures
        res_of(r) == search(board@, depth as nat),
{
    let alpha: (i64, u64) = (i64::MIN, 0);
    let beta: (i64, u64) = (i64::MAX, u64::MAX);
    if parallel_budget == 0 {
        minimax_single(board, depth, alpha, beta, tables)
    } else {
        minimax(board, depth, parallel_budget - 1, alpha, beta, tables)
    }
}


/// A well-formed board that is not finished has a legal move, numbered below 81.
pub proof fn lemma_has_move(m: BoardModel) -> (j: int)
    requires
        m.wf(),
        !m.terminal(),
    ensures
        0 <= j < 81,
        m.play(j / 9, j % 9) is Some,
{
    let g: int = match m.forced {
        Some(f) => f,
        None => {
            assert(!meta_full(m.status));
            choose|g: int| 0 <= g < 9 && m.status[g] is None
        },
    };
    assert(m.status[g] is None);
    assert(local_state(m.cells[g]) is None);
    assert(!local_full(m.cells[g]));
    let l = choose|l: int| 0 <= l < 9 && m.cells[g][l] is None;
    let j = 9 * g + l;
    assert(j / 9 == g && j % 9 == l);
    j
}

impl Board {
    /// Exhaustive minimax of this board to depth budget `depth`, reusing and
    /// filling the transposition cache, on this thread (the cache is handed
    /// on by `&mut`, which no two threads can hold).
    ///
    /// A stored result of a search at depth budget `depth` or more comes back
    /// unchanged, with the cache left as it was. Otherwise a finished board
    /// gives its outcome and leaves the cache as it was, and an unfinished one
    /// is searched and stored under its key at `depth`. The cache only grows:
    /// an entry is replaced only by a deeper search, and every key added or
    /// replaced belongs to a board with at least as many taken cells as this
    /// one. On a well-formed board the result is the exhaustive result
    /// whenever the entries that this search can read (boards with this
    /// board's taken cells up to those plus `depth`) are exact results of
    /// searches that reach no further than this one, as in a new cache and
    /// across the moves of one game searched at one depth budget; the cache
    /// then stays so.
    pub fn minimax(&self, depth: u64, cache: &mut SearchCache, tables: &EvalTables) -> (r:
        SearchResult)
        requires
            tables.wf(),
        ensures
            grows_from(old(cache).contents(), final(cache).contents(), marks(self@)),
            forall|k: BoardKey|
                key_matches(k, self@) ==> match cached(old(cache).contents(), k, depth as int) {
                    Some(x) => r == x && final(cache).contents() == old(cache).contents(),
                    None => if self@.terminal() {
                        res_of(r) == terminal_result(self@, depth as nat) && final(cache).contents()
                            == old(cache).contents()
                    } else {
                        &&& final(cache).contents().contains_key(k)
                        &&& final(cache).contents()[k] == (depth, r)
                        &&& self@.wf() ==> self@.play(r.0.0 as int, r.0.1 as int) is Some
                    },
                },
            self@.wf() && sound_within(old(cache).contents(), marks(self@), marks(self@) + depth)
                ==> res_of(r) == search(self@, depth as nat) && sound_within(
                final(cache).contents(),
                marks(self@),
                marks(self@) + depth,
            ),
        decreases depth,
    {
        let ghost m = self@;
        let ghost d = depth as nat;
        let ghost lo = marks(m);
        let ghost h = marks(m) + depth;
        let ghost old0 = cache.contents();
        let ghost ok = m.wf() && sound_within(old0, lo, h);
        proof {
            lemma_view_shaped(*self);
        }
        let k = self.key();
        proof {
            assert forall|k2: BoardKey| key_matches(k2, m) implies k2 == k by {
                crate::codec::lemma_key_unique(k, k2, m);
            }
        }
        if let Some(hit) = cache.lookup(self, depth) {
            proof {
                assert(cached(cache.contents(), k, depth as int) == Some(hit));
                assert(cache.contents().contains_key(k) && key_matches(k, m));
            }
            return hit;
        }
        if let Some(r) = finished(self, depth) {
            return r;
        }
        let x = match self.to_play {
            Player::X => true,
            Player::O => false,
        };
        let mut best: Option<SearchResult> = None;
        let mut idx: usize = 0;
        while idx < 81
            invariant
                idx <= 81,
                tables.wf(),
                m == self@,
                m.shaped(),
                d == depth as nat,
                lo == marks(m),
                h == marks(m) + depth,
                !m.terminal(),
                x == (m.to_play == Player::X),
                key_matches(k, m),
                cached(old0, k, depth as int) is None,
                ok == (m.wf() && sound_within(old0, lo, h)),
                grows_from(old0, cache.contents(), lo + 1),
                ok ==> sound_within(cache.contents(), lo, h),
                ok ==> match best {
                    Some(r) => Some(res_of(r)),
                    None => None,
                } == best_from(m, d, idx as nat),
                best matches Some(r) ==> m.play(r.0.0 as int, r.0.1 as int) is Some,
                best is None ==> forall|j: int|
                    0 <= j < idx ==> (#[trigger] m.play(j / 9, j % 9)) is None,
            decreases 81 - idx,
        {
            let g = idx / 9;
            let l = idx % 9;
            if let Some(child) = self.play(g, l) {
                proof {
                    lemma_play_keeps_shape(m, g as int, l as int);
                    lemma_marks_play(m, g as int, l as int);
                    if ok {
                        lemma_play_keeps_wf(m, g as int, l as int);
                    }
                }
                let ghost before = cache.contents();
                let cand: SearchResult;
                if depth == 0 {
                    cand = ((g, l), child.evalutate(tables), 0);
                } else {
                    let r = child.minimax(depth - 1, cache, tables);
                    cand = ((g, l), r.1, r.2);
                    proof {
                        lemma_grows_trans(old0, before, cache.contents(), lo + 1, lo + 1);
                        if ok {
                            let now = cache.contents();
                            assert forall|k3: BoardKey, m3: BoardModel|
                                now.contains_key(k3) && m3.wf() && key_matches(k3, m3) && lo
                                    <= marks(m3) <= h implies res_of(now[k3].1) == search(
                                m3,
                                now[k3].0 as nat,
                            ) && marks(m3) + now[k3].0 <= h by {
                                if marks(m3) == lo {
                                    lemma_grows_keeps(before, now, lo, k3, m3);
                                } else {
                                    assert(sound_within(now, lo + 1, h));
                                }
                            }
                        }
                    }
                }
                let ghost v = child_value(child@, d);
                let ghost prev = match best {
                    Some(r) => Some(res_of(r)),
                    None => None,
                };
                proof {
                    if ok {
                        assert(res_of(cand) == ((g as int, l as int), v.0, v.1));
                        assert(best_from(m, d, (idx + 1) as nat) == pick(x, prev, res_of(cand)));
                    }
                }
                best = match best {
                    None => Some(cand),
                    Some(p) => if (x && beats((cand.1, cand.2), (p.1, p.2))) || (!x && beats(
                        (p.1, p.2),
                        (cand.1, cand.2),
                    )) {
                        Some(cand)
                    } else {
                        Some(p)
                    },
                };
            }
            idx += 1;
        }
        proof {
            if m.wf() && best is None {
                let j = lemma_has_move(m);
                assert(m.play(j / 9, j % 9) is Some);
            }
        }
        let res = match best {
            Some(r) => r,
            None => ((0, 0), 0, depth),
        };
        let ghost before = cache.contents();
        proof {
            lemma_grows_keeps(old0, before, lo, k, m);
        }
        cache.insert(self, depth, res);
        proof {
            let after = cache.contents();
            assert(after == before.insert(k, (depth, res)));
            assert forall|k3: BoardKey| #[trigger] after.contains_key(k3) && !kept(old0, after, k3)
                implies exists|m3: BoardModel| #[trigger] key_matches(k3, m3) && m3.shaped() && marks(m3)
                >= lo by {
                if k3 == k {
                    assert(key_matches(k3, m) && m.shaped() && marks(m) >= lo);
                } else {
                    assert(before.contains_key(k3) && !kept(old0, before, k3));
                }
            }
            if ok {
                assert forall|k3: BoardKey, m3: BoardModel|
                    after.contains_key(k3) && m3.wf() && key_matches(k3, m3) && lo <= marks(m3) <= h
                    implies res_of(after[k3].1) == search(m3, after[k3].0 as nat) && marks(m3)
                    + after[k3].0 <= h by {
                    if k3 == k {
                        lemma_key_injective(k, m, m3);
                    } else {
                        assert(before.contains_key(k3));
                    }
                }
            }
        }
        res
    }
}

} // verus!
