use ultimate_tic_tac_toe::{Board, IndividualBoard, LocalBoardState, Player, SearchCache};

const X: Option<Player> = Some(Player::X);
const O: Option<Player> = Some(Player::O);
const E: Option<Player> = None;

fn played() -> Board {
    let mut b = Board::default();
    for (g, l) in [(4, 4), (4, 0), (0, 4), (4, 8), (8, 4), (4, 2)] {
        b = b.play(g, l).unwrap();
    }
    b
}

#[test]
fn key_round_trip() {
    for board in [Board::default(), Board::default().play(3, 7).unwrap(), played()] {
        let key = board.key();
        assert_eq!(Board::from_key(&key), Some(board));
    }
}

#[test]
fn key_of_empty_board() {
    let key = Board::default().key();
    assert_eq!(key, ([0; 9], 18));
    let next = Board::default().play(0, 2).unwrap();
    // cell 2 of board 0 taken by X: digit 1 times 3^2; O to move, forced 2
    assert_eq!(next.key(), ([9, 0, 0, 0, 0, 0, 0, 0, 0], 1 + 2 * 2));
}

#[test]
fn key_round_trip_with_decided_boards() {
    let mut b = Board::default();
    b.locals[1] = IndividualBoard([O, O, O, X, X, E, X, E, E]);
    b.global[1] = Some(LocalBoardState::Win(Player::O));
    b.locals[7] = IndividualBoard([X, O, X, X, O, O, O, X, X]);
    b.global[7] = Some(LocalBoardState::Tie);
    b.global_idx = None;
    assert_eq!(Board::from_key(&b.key()), Some(b));
}

#[test]
fn same_cells_same_key() {
    let a = Board::default().play(0, 1).unwrap().play(1, 0).unwrap();
    let mut b = Board::default();
    b.locals[0] = IndividualBoard([E, X, E, E, E, E, E, E, E]);
    b.locals[1] = IndividualBoard([O, E, E, E, E, E, E, E, E]);
    b.global_idx = Some(0);
    assert_eq!(a, b);
    assert_eq!(a.key(), b.key());
    let c = Board::default().play(1, 1).unwrap().play(1, 0).unwrap();
    assert_ne!(a.key(), c.key());
}

#[test]
fn malformed_keys_are_refused() {
    assert_eq!(Board::from_key(&([19683, 0, 0, 0, 0, 0, 0, 0, 0], 18)), None);
    assert_eq!(Board::from_key(&([0; 9], 20)), None);
    // forced to board 0, which holds X X X
    assert_eq!(Board::from_key(&([13, 0, 0, 0, 0, 0, 0, 0, 0], 1)), None);
    assert!(Board::from_key(&([13, 0, 0, 0, 0, 0, 0, 0, 0], 3)).is_some());
}

#[test]
fn cache_answers_shallower_requests_only() {
    let board = played();
    let other = Board::default();
    let mut cache = SearchCache::new();
    assert_eq!(cache.lookup(&board, 0), None);
    let result = ((4, 6), 123, 1);
    cache.insert(&board, 3, result);
    assert_eq!(cache.lookup(&board, 3), Some(result));
    assert_eq!(cache.lookup(&board, 2), Some(result));
    assert_eq!(cache.lookup(&board, 0), Some(result));
    assert_eq!(cache.lookup(&board, 4), None);
    assert_eq!(cache.lookup(&other, 0), None);
    let newer = ((4, 7), -5, 0);
    cache.insert(&board, 1, newer);
    assert_eq!(cache.lookup(&board, 1), Some(newer));
    assert_eq!(cache.lookup(&board, 3), None);
}
