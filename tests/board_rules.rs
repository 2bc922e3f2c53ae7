use ultimate_tic_tac_toe::{Board, BoardStatus, IndividualBoard, LocalBoardState, Player};

const X: Option<Player> = Some(Player::X);
const O: Option<Player> = Some(Player::O);
const E: Option<Player> = None;

#[test]
fn first_move_sets_cell_forced_board_and_mover() {
    let board = Board::default();
    let next = board.play(0, 0).expect("legal first move");
    assert_eq!(next.locals[0].0[0], X);
    assert_eq!(next.global_idx, Some(0));
    assert_eq!(next.to_play, Player::O);
    assert_eq!(next.to_play(), 'O');
    // the board that was played on is left as it was
    assert_eq!(board, Board::default());
}

#[test]
fn top_row_wins_local_board() {
    let local = IndividualBoard([X, X, X, E, O, E, O, E, E]);
    assert_eq!(local.has_won(), Some(Player::X));
    assert_eq!(local.get_state(), Some(LocalBoardState::Win(Player::X)));
    assert!(!local.is_tie());
}

#[test]
fn full_local_board_without_line_is_tied() {
    let local = IndividualBoard([X, O, X, X, O, O, O, X, X]);
    assert!(local.is_tie());
    assert_eq!(local.has_won(), None);
    assert_eq!(local.get_state(), Some(LocalBoardState::Tie));
}

#[test]
fn open_local_board_has_no_state() {
    let local = IndividualBoard([X, O, E, E, E, E, E, E, E]);
    assert_eq!(local.get_state(), None);
    assert!(!local.is_tie());
}

#[test]
fn every_line_wins() {
    let lines = [
        [0, 1, 2],
        [3, 4, 5],
        [6, 7, 8],
        [0, 3, 6],
        [1, 4, 7],
        [2, 5, 8],
        [0, 4, 8],
        [2, 4, 6],
    ];
    for line in lines {
        let mut cells = [E; 9];
        for i in line {
            cells[i] = O;
        }
        assert_eq!(IndividualBoard(cells).has_won(), Some(Player::O));
    }
}

fn won_by(p: Player) -> IndividualBoard {
    let c = Some(p);
    IndividualBoard([c, c, c, E, E, E, E, E, E])
}

fn tied_local() -> IndividualBoard {
    IndividualBoard([X, O, X, X, O, O, O, X, X])
}

#[test]
fn move_into_decided_forced_board_frees_the_next_move() {
    let mut board = Board::default();
    board.locals[4] = won_by(Player::X);
    board.global[4] = Some(LocalBoardState::Win(Player::X));
    board.to_play = Player::O;
    board.global_idx = Some(0);
    let next = board.play(0, 4).expect("legal move");
    assert_eq!(next.global_idx, None);
    assert_eq!(next.to_play, Player::X);
    for g in 0..9 {
        if g != 4 {
            assert!(next.play(g, 8).is_some(), "board {} should be open", g);
        }
    }
    assert!(next.play(4, 8).is_none());
}

#[test]
fn move_outside_forced_board_is_refused() {
    let board = Board::default().play(0, 1).unwrap();
    assert_eq!(board.global_idx, Some(1));
    assert!(board.play(0, 0).is_none());
    assert!(board.play(2, 0).is_none());
    assert!(board.play(1, 0).is_some());
}

#[test]
fn move_on_taken_cell_is_refused() {
    let board = Board::default().play(0, 0).unwrap();
    assert!(board.play(0, 0).is_none());
}

#[test]
fn move_into_decided_board_is_refused() {
    let mut board = Board::default();
    board.locals[2] = won_by(Player::O);
    board.global[2] = Some(LocalBoardState::Win(Player::O));
    assert!(board.play(2, 5).is_none());
    assert!(board.play(3, 5).is_some());
}

#[test]
fn winning_move_records_local_outcome() {
    let mut board = Board::default();
    board.locals[0] = IndividualBoard([X, X, E, O, O, E, E, E, E]);
    board.global_idx = Some(0);
    let next = board.play(0, 2).unwrap();
    assert_eq!(next.global[0], Some(LocalBoardState::Win(Player::X)));
    assert_eq!(next.global_idx, Some(2));
}

#[test]
fn global_line_wins_the_game() {
    let mut board = Board::default();
    for g in [0, 4, 8] {
        board.locals[g] = won_by(Player::O);
        board.global[g] = Some(LocalBoardState::Win(Player::O));
    }
    assert_eq!(board.has_won(), Some(Player::O));
    assert!(!board.is_tie());
}

#[test]
fn ties_do_not_make_a_global_line() {
    let mut board = Board::default();
    for g in [0, 1, 2] {
        board.locals[g] = tied_local();
        board.global[g] = Some(LocalBoardState::Tie);
    }
    assert_eq!(board.has_won(), None);
    assert!(!board.is_tie());
}

#[test]
fn all_decided_without_line_is_global_tie() {
    let w = |p: Player| Some(LocalBoardState::Win(p));
    let mut board = Board::default();
    board.global = [
        w(Player::X),
        w(Player::O),
        w(Player::X),
        w(Player::X),
        w(Player::O),
        w(Player::O),
        w(Player::O),
        w(Player::X),
        Some(LocalBoardState::Tie),
    ];
    assert_eq!(board.has_won(), None);
    assert!(board.is_tie());
}

#[test]
fn won_board_is_not_tied() {
    let w = |p: Player| Some(LocalBoardState::Win(p));
    let mut board = Board::default();
    board.global = [
        w(Player::X),
        w(Player::X),
        w(Player::X),
        w(Player::O),
        w(Player::O),
        w(Player::X),
        w(Player::X),
        w(Player::O),
        w(Player::O),
    ];
    assert_eq!(board.has_won(), Some(Player::X));
    assert!(!board.is_tie());
}

#[test]
fn player_helpers() {
    assert_eq!(Player::X.invert(), Player::O);
    assert_eq!(Player::O.invert(), Player::X);
    assert_eq!(Player::to_char(X), 'X');
    assert_eq!(Player::to_char(O), 'O');
    assert_eq!(Player::to_char(E), ' ');
    assert_eq!(Board::default().to_play(), 'X');
}

#[test]
fn iter_lists_cells_in_order() {
    let local = IndividualBoard([X, E, O, E, E, E, E, E, X]);
    let cells = local.iter();
    assert_eq!(cells.len(), 9);
    assert_eq!(cells[0], (0, X));
    assert_eq!(cells[2], (2, O));
    assert_eq!(cells[8], (8, X));
    assert_eq!(cells[5], (5, E));
}

#[test]
fn status_reports_progress_win_and_tie() {
    let board = Board::default();
    assert_eq!(board.status(), BoardStatus::InProgress(None));
    let next = board.play(2, 6).unwrap();
    assert_eq!(next.status(), BoardStatus::InProgress(Some(6)));

    let mut won = Board::default();
    for g in [0, 3, 6] {
        won.locals[g] = won_by(Player::X);
        won.global[g] = Some(LocalBoardState::Win(Player::X));
    }
    assert_eq!(won.status(), BoardStatus::Won(Player::X));

    let mut tied = Board::default();
    for g in 0..9 {
        tied.locals[g] = tied_local();
        tied.global[g] = Some(LocalBoardState::Tie);
    }
    assert_eq!(tied.status(), BoardStatus::Tied);
    assert!(tied.is_tie());
    assert_eq!(tied.has_won(), None);
}
