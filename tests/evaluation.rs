use ultimate_tic_tac_toe::{
    evaluate, evaluate_whole, evalute, Board, EvalTables, IndividualBoard, LocalBoardState, Player,
};

const X: Option<Player> = Some(Player::X);
const O: Option<Player> = Some(Player::O);
const E: Option<Player> = None;

/// 9!: a score of 1 in the units of the tables.
const ONE: i64 = 362880;

#[test]
fn one_free_cell_scores_by_its_outcome() {
    let t = EvalTables::new();
    let local = IndividualBoard([X, X, E, O, O, X, X, O, O]);
    // X takes the last cell and wins: the mean of one win.
    assert_eq!(evalute(&local, Player::X, &t), ONE);
    // O takes it and the board is tied.
    assert_eq!(evalute(&local, Player::O, &t), 0);
}

#[test]
fn decided_local_boards_score_their_outcome() {
    let t = EvalTables::new();
    let won = IndividualBoard([O, O, O, X, X, E, E, E, E]);
    assert_eq!(evalute(&won, Player::X, &t), -ONE);
    assert_eq!(evalute(&won, Player::O, &t), -ONE);
    let tied = IndividualBoard([X, O, X, X, O, O, O, X, X]);
    assert_eq!(evalute(&tied, Player::X, &t), 0);
}

#[test]
fn empty_local_board_is_even_over_both_movers() {
    let t = EvalTables::new();
    let empty = IndividualBoard([E; 9]);
    let for_x = evalute(&empty, Player::X, &t);
    let for_o = evalute(&empty, Player::O, &t);
    assert_eq!(for_x, -for_o);
    assert!(for_x > 0);
    assert_eq!(Board::default().evalutate(&t), 0);
}

#[test]
fn won_game_scores_the_global_outcome() {
    let t = EvalTables::new();
    let mut board = Board::default();
    for g in 0..3 {
        board.global[g] = Some(LocalBoardState::Win(Player::X));
    }
    assert_eq!(evaluate_whole(&board, Player::X, &t), ONE);
    assert_eq!(evaluate_whole(&board, Player::O, &t), ONE);
}

#[test]
fn global_grid_with_one_open_board() {
    let t = EvalTables::new();
    let w = |p: Player| Some(LocalBoardState::Win(p));
    let mut board = Board::default();
    // X O X / X O O / O X _ : whoever takes the last board, no line is made.
    board.global = [
        w(Player::X),
        w(Player::O),
        w(Player::X),
        w(Player::X),
        w(Player::O),
        w(Player::O),
        w(Player::O),
        w(Player::X),
        None,
    ];
    assert_eq!(evaluate_whole(&board, Player::X, &t), 0);
    assert_eq!(evaluate_whole(&board, Player::O, &t), 0);
    board.global[1] = w(Player::X);
    // X X X on top is already a win
    assert_eq!(evaluate_whole(&board, Player::O, &t), ONE);
}

#[test]
fn leaf_heuristic_combines_locals_and_global() {
    let t = EvalTables::new();
    let mut board = Board::default();
    board.locals[0] = IndividualBoard([X, X, X, E, E, E, E, E, E]);
    board.global[0] = Some(LocalBoardState::Win(Player::X));
    let empty = IndividualBoard([E; 9]);
    let empty_sum = evalute(&empty, Player::X, &t) + evalute(&empty, Player::O, &t);
    let locals = 2 * ONE + 8 * empty_sum;
    let global =
        evaluate_whole(&board, Player::X, &t) + evaluate_whole(&board, Player::O, &t);
    assert_eq!(board.evalutate(&t), locals + 9 * global);
    assert!(board.evalutate(&t) > 0);
}

#[test]
fn evaluate_is_the_leaf_heuristic() {
    let t = EvalTables::new();
    let board = Board::default().play(4, 4).unwrap().play(4, 0).unwrap();
    assert_eq!(evaluate(&board, &t), board.evalutate(&t));
    let mut sum = 0;
    for g in 0..9 {
        sum += evalute(&board.locals[g], Player::X, &t) + evalute(&board.locals[g], Player::O, &t);
    }
    let global = evaluate_whole(&board, Player::X, &t) + evaluate_whole(&board, Player::O, &t);
    assert_eq!(evaluate(&board, &t), sum + 9 * global);
}

#[test]
fn two_free_cells_score_their_mean() {
    let t = EvalTables::new();
    // X X _ / O O _ / X O X : X to move wins in cell 2 and, in cell 5, leaves
    // O the last cell 2, which ties; the mean is one half.
    let local = IndividualBoard([X, X, E, O, O, E, X, O, X]);
    assert_eq!(evalute(&local, Player::X, &t), ONE / 2);
    // O to move wins in cell 5 and, in cell 2, leaves X cell 5, which ties.
    assert_eq!(evalute(&local, Player::O, &t), -ONE / 2);
}

#[test]
fn one_open_global_board_that_completes_a_line() {
    let t = EvalTables::new();
    let w = |p: Player| Some(LocalBoardState::Win(p));
    let mut board = Board::default();
    // X X _ / O O X / X O O over the local outcomes: X taking board 2 wins.
    board.global = [
        w(Player::X),
        w(Player::X),
        None,
        w(Player::O),
        w(Player::O),
        w(Player::X),
        w(Player::X),
        w(Player::O),
        w(Player::O),
    ];
    assert_eq!(evaluate_whole(&board, Player::X, &t), ONE);
}
