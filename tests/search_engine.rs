use ultimate_tic_tac_toe::{
    best_move, evaluate, minimax, minimax_single, Board, EvalTables, IndividualBoard, LocalBoardState,
    Player, SearchCache, WIN_SCORE,
};

const X: Option<Player> = Some(Player::X);
const O: Option<Player> = Some(Player::O);
const E: Option<Player> = None;

const FULL_LOW: (i64, u64) = (i64::MIN, 0);
const FULL_HIGH: (i64, u64) = (i64::MAX, u64::MAX);

/// X holds local boards 0 and 1 and is sent to board 2, where (2, 2) wins the
/// top row of the game.
fn x_wins_next() -> Board {
    let mut board = Board::default();
    board.locals[0] = IndividualBoard([X, X, X, O, E, E, E, O, E]);
    board.locals[1] = IndividualBoard([X, X, X, E, O, E, O, E, E]);
    board.locals[2] = IndividualBoard([X, X, E, O, O, E, E, E, E]);
    board.locals[5] = IndividualBoard([O, E, E, E, O, E, E, E, E]);
    board.global[0] = Some(LocalBoardState::Win(Player::X));
    board.global[1] = Some(LocalBoardState::Win(Player::X));
    board.global_idx = Some(2);
    board
}

#[test]
fn finished_game_returns_its_outcome() {
    let t = EvalTables::new();
    let mut board = Board::default();
    for g in [2, 4, 6] {
        board.locals[g] = IndividualBoard([O, O, O, E, E, E, E, E, E]);
        board.global[g] = Some(LocalBoardState::Win(Player::O));
    }
    assert_eq!(best_move(&board, 3, 0, &t), ((0, 0), -WIN_SCORE, 3));
    assert_eq!(best_move(&board, 3, 2, &t), ((0, 0), -WIN_SCORE, 3));
    let mut cache = SearchCache::new();
    assert_eq!(board.minimax(3, &mut cache, &t), ((0, 0), -WIN_SCORE, 3));
}

#[test]
fn takes_an_immediate_win() {
    let t = EvalTables::new();
    let board = x_wins_next();
    assert_eq!(best_move(&board, 1, 0, &t), ((2, 2), WIN_SCORE, 0));
    assert_eq!(best_move(&board, 2, 0, &t), ((2, 2), WIN_SCORE, 1));
    assert_eq!(best_move(&board, 2, 1, &t), ((2, 2), WIN_SCORE, 1));
    let mut cache = SearchCache::new();
    assert_eq!(board.minimax(2, &mut cache, &t), ((2, 2), WIN_SCORE, 1));
}

#[test]
fn o_takes_an_immediate_win_too() {
    let t = EvalTables::new();
    let mut board = Board::default();
    board.locals[3] = IndividualBoard([O, E, E, O, X, E, O, X, E]);
    board.locals[4] = IndividualBoard([E, X, O, E, O, X, O, E, E]);
    board.locals[5] = IndividualBoard([O, O, E, X, X, E, E, E, E]);
    board.locals[0] = IndividualBoard([X, E, E, E, X, E, E, E, E]);
    board.global[3] = Some(LocalBoardState::Win(Player::O));
    board.global[4] = Some(LocalBoardState::Win(Player::O));
    board.to_play = Player::O;
    board.global_idx = Some(5);
    assert_eq!(best_move(&board, 1, 0, &t), ((5, 2), -WIN_SCORE, 0));
    assert_eq!(best_move(&board, 1, 1, &t), ((5, 2), -WIN_SCORE, 0));
}

#[test]
fn pruned_parallel_and_cached_searches_agree() {
    let t = EvalTables::new();
    let mut boards = vec![Board::default()];
    let mut b = Board::default();
    for (g, l) in [(4, 4), (4, 0), (0, 4), (4, 8), (8, 4)] {
        b = b.play(g, l).unwrap();
        boards.push(b);
    }
    for board in boards {
        for depth in 0..3 {
            let single = minimax_single(&board, depth, FULL_LOW, FULL_HIGH, &t);
            let parallel = minimax(&board, depth, 1, FULL_LOW, FULL_HIGH, &t);
            let mut cache = SearchCache::new();
            let cached = board.minimax(depth, &mut cache, &t);
            assert_eq!(single, parallel);
            assert_eq!(single, cached);
            assert_eq!(best_move(&board, depth, 0, &t), single);
            assert_eq!(best_move(&board, depth, 2, &t), single);
        }
    }
}

#[test]
fn depth_zero_picks_the_best_leaf() {
    let t = EvalTables::new();
    let board = Board::default().play(4, 4).unwrap();
    let (mv, value, depth) = best_move(&board, 0, 0, &t);
    assert_eq!(depth, 0);
    let child = board.play(mv.0, mv.1).unwrap();
    assert_eq!(child.evalutate(&t), value);
    // O minimises: no move of O in board 4 leaves a lower heuristic
    for l in 0..9 {
        if let Some(c) = board.play(4, l) {
            assert!(c.evalutate(&t) >= value);
        }
    }
}

#[test]
fn narrow_window_bounds_the_result() {
    let t = EvalTables::new();
    let board = Board::default().play(4, 4).unwrap();
    let exact = best_move(&board, 2, 0, &t);
    // a window wholly above the true value: the result is an upper bound
    let low = (exact.1 + 1, 0);
    let high = (exact.1 + 1000, 0);
    let r = minimax_single(&board, 2, low, high, &t);
    assert!(r.1 <= low.0);
    assert!((exact.1, exact.2) <= (r.1, r.2));
}

#[test]
fn cached_search_reuses_across_moves() {
    let t = EvalTables::new();
    let mut cache = SearchCache::new();
    let mut board = Board::default();
    for _ in 0..4 {
        let fresh = best_move(&board, 1, 0, &t);
        let (mv, value, depth) = board.minimax(1, &mut cache, &t);
        assert_eq!((mv, value, depth), fresh);
        board = board.play(mv.0, mv.1).unwrap();
    }
}

/// Plain minimax without pruning: the first best move in board order, `X`
/// taking the greatest (evaluation, depth left), `O` the least.
fn exhaustive(board: &Board, depth: u64, t: &EvalTables) -> ((usize, usize), i64, u64) {
    if board.is_tie() {
        return ((0, 0), 0, depth);
    }
    if let Some(p) = board.has_won() {
        let v = if p == Player::X { WIN_SCORE } else { -WIN_SCORE };
        return ((0, 0), v, depth);
    }
    let mut best: Option<((usize, usize), i64, u64)> = None;
    for idx in 0..81 {
        let (g, l) = (idx / 9, idx % 9);
        if let Some(child) = board.play(g, l) {
            let (v, d) = if depth == 0 {
                (evaluate(&child, t), 0)
            } else {
                let r = exhaustive(&child, depth - 1, t);
                (r.1, r.2)
            };
            let better = match best {
                None => true,
                Some((_, bv, bd)) => {
                    if board.to_play == Player::X {
                        (v, d) > (bv, bd)
                    } else {
                        (v, d) < (bv, bd)
                    }
                }
            };
            if better {
                best = Some(((g, l), v, d));
            }
        }
    }
    best.unwrap_or(((0, 0), 0, depth))
}

#[test]
fn pruned_search_matches_plain_minimax() {
    let t = EvalTables::new();
    let mut boards = vec![Board::default(), x_wins_next()];
    let mut b = Board::default();
    for (g, l) in [(4, 4), (4, 0), (0, 0), (0, 8), (8, 8), (8, 0), (0, 4), (4, 8)] {
        b = b.play(g, l).unwrap();
        boards.push(b);
    }
    for board in &boards {
        for depth in 0..3 {
            assert_eq!(best_move(board, depth, 0, &t), exhaustive(board, depth, &t));
        }
    }
    let deep = boards[boards.len() - 1];
    assert_eq!(best_move(&deep, 3, 0, &t), exhaustive(&deep, 3, &t));
    assert_eq!(best_move(&deep, 3, 1, &t), exhaustive(&deep, 3, &t));
}

#[test]
fn cached_search_returns_a_deeper_stored_result_unchanged() {
    let t = EvalTables::new();
    let board = Board::default().play(4, 4).unwrap();
    let mut cache = SearchCache::new();
    let stored = ((4, 7), 12345, 5);
    cache.insert(&board, 5, stored);
    assert_eq!(board.minimax(3, &mut cache, &t), stored);
    assert_eq!(cache.lookup(&board, 5), Some(stored));
}

#[test]
fn cached_search_stores_its_result_on_a_miss() {
    let t = EvalTables::new();
    let board = Board::default().play(4, 4).unwrap();
    let mut cache = SearchCache::new();
    let shallow = ((0, 0), 1, 0);
    cache.insert(&board, 1, shallow);
    let r = board.minimax(2, &mut cache, &t);
    assert_eq!(r, best_move(&board, 2, 0, &t));
    assert_eq!(cache.lookup(&board, 2), Some(r));
    assert_eq!(cache.lookup(&board, 3), None);
    let (g, l) = r.0;
    assert!(board.play(g, l).is_some());
}

#[test]
fn cached_search_of_a_finished_game_stores_nothing() {
    let t = EvalTables::new();
    let mut board = Board::default();
    for g in [0, 1, 2] {
        board.locals[g] = IndividualBoard([X, X, X, E, E, E, E, E, E]);
        board.global[g] = Some(LocalBoardState::Win(Player::X));
    }
    let mut cache = SearchCache::new();
    assert_eq!(board.minimax(2, &mut cache, &t), ((0, 0), WIN_SCORE, 2));
    assert_eq!(cache.lookup(&board, 0), None);
}

#[test]
fn entries_of_earlier_positions_do_not_change_the_result() {
    let t = EvalTables::new();
    let board = Board::default().play(4, 4).unwrap().play(4, 0).unwrap();
    let mut cache = SearchCache::new();
    cache.insert(&Board::default(), 9, ((8, 8), -7, 9));
    cache.insert(&Board::default().play(4, 4).unwrap(), 9, ((1, 1), 99, 9));
    assert_eq!(board.minimax(2, &mut cache, &t), best_move(&board, 2, 0, &t));
}

#[test]
fn narrow_window_results_are_legal_and_repeatable() {
    let t = EvalTables::new();
    let board = Board::default().play(4, 4).unwrap();
    let low = (0, 0);
    let high = (1, 0);
    let a = minimax_single(&board, 2, low, high, &t);
    let b = minimax_single(&board, 2, low, high, &t);
    assert_eq!(a, b);
    assert!(board.play(a.0 .0, a.0 .1).is_some());
    let p = minimax(&board, 2, 1, low, high, &t);
    assert!(board.play(p.0 .0, p.0 .1).is_some());
}
