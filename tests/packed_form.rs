use ultimate_tic_tac_toe::{Board, IndividualBoard, LocalBoardState, PackedBoard, Player};

const X: Option<Player> = Some(Player::X);
const O: Option<Player> = Some(Player::O);
const E: Option<Player> = None;

fn played() -> Board {
    let mut b = Board::default();
    for (g, l) in [(4, 4), (4, 0), (0, 4), (4, 8), (8, 4), (4, 2)] {
        b = b.play(g, l).unwrap();
    }
    b
}

#[test]
fn local_masks_mark_each_player() {
    let local = IndividualBoard([X, X, X, E, O, E, O, E, E]);
    assert_eq!(local.masks(), (0b111, 0b1010000));
    assert_eq!(IndividualBoard([E; 9]).masks(), (0, 0));
}

#[test]
fn equal_cells_equal_masks() {
    let a = Board::default().play(3, 5).unwrap().play(5, 3).unwrap();
    let b = Board::default().play(3, 5).unwrap().play(5, 3).unwrap();
    assert_eq!(a.locals[3].masks(), b.locals[3].masks());
    assert_eq!(a.locals[5].masks(), b.locals[5].masks());
    assert_ne!(a.locals[3].masks(), a.locals[5].masks());
}

#[test]
fn packing_sets_one_bit_per_cell() {
    let b = Board::default().play(0, 2).unwrap().play(2, 0).unwrap();
    let p = b.pack();
    assert_eq!(p.locals_x, 1 << 2);
    assert_eq!(p.locals_o, 1 << 18);
    assert_eq!((p.global_x, p.global_o, p.global_full), (0, 0, 0));
    assert_eq!(p.to_play, Player::X);
    assert_eq!(p.global_idx, Some(0));
}

#[test]
fn packed_outcome_masks() {
    let mut b = Board::default();
    b.locals[2] = IndividualBoard([X, X, X, E, O, O, E, E, E]);
    b.global[2] = Some(LocalBoardState::Win(Player::X));
    b.locals[6] = IndividualBoard([X, O, X, X, O, O, O, X, X]);
    b.global[6] = Some(LocalBoardState::Tie);
    let p = b.pack();
    assert_eq!(p.global_x, 1 << 2);
    assert_eq!(p.global_o, 0);
    assert_eq!(p.global_full, 1 << 6);
    assert_eq!(p.unpack(), Some(b));
}

#[test]
fn unpack_after_pack_gives_the_board() {
    for b in [Board::default(), played(), Board::default().play(8, 8).unwrap()] {
        assert_eq!(b.pack().unpack(), Some(b));
    }
}

#[test]
fn inconsistent_packed_boards_are_refused() {
    let b = played();
    let mut both = b.pack();
    both.locals_o |= both.locals_x & (!both.locals_x + 1);
    assert_eq!(both.unpack(), None);

    let mut high = b.pack();
    high.locals_x |= 1 << 100;
    assert_eq!(high.unpack(), None);

    let mut wrong_outcome = b.pack();
    wrong_outcome.global_full |= 1;
    assert_eq!(wrong_outcome.unpack(), None);

    let mut decided_forced = Board::default();
    decided_forced.locals[1] = IndividualBoard([O, O, O, E, E, E, E, E, E]);
    decided_forced.global[1] = Some(LocalBoardState::Win(Player::O));
    let mut p = decided_forced.pack();
    p.global_idx = Some(1);
    assert_eq!(p.unpack(), None);
    p.global_idx = Some(9);
    assert_eq!(p.unpack(), None);
    p.global_idx = Some(0);
    assert!(p.unpack().is_some());
}

#[test]
fn packed_board_fields_are_plain() {
    let p = PackedBoard {
        locals_x: 0,
        locals_o: 0,
        global_x: 0,
        global_o: 0,
        global_full: 0,
        to_play: Player::O,
        global_idx: None,
    };
    let b = p.unpack().unwrap();
    assert_eq!(b.to_play, Player::O);
    assert_eq!(b.global_idx, None);
    assert_eq!(b.locals[0], IndividualBoard([E; 9]));
}
