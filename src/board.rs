//! The board model: nine 3x3 local boards, the status of each, the player to
//! move and the local board that the next move is sent to.
use vstd::prelude::*;

verus! {

/// One of the two players; `X` moves first.
#[derive(Clone, Copy, PartialEq, Eq, Debug, Hash, Structural)]
pub enum Player {
    X,
    O,
}

impl Player {
    pub open spec fn other(self) -> Player {
        match self {
            Player::X => Player::O,
            Player::O => Player::X,
        }
    }

    /// The digit that marks a cell of this player: 1 for `X`, 2 for `O`.
    pub open spec fn digit(self) -> u8 {
        match self {
            Player::X => 1,
            Player::O => 2,
        }
    }

    /// The opponent.
    pub fn invert(self) -> (r: Self)
        ensures
            r == self.other(),
    {
        match self {
            Player::X => Player::O,
            Player::O => Player::X,
        }
    }

    /// The character that shows a cell: its owner, or a blank.
    pub fn to_char(this: Option<Self>) -> (c: char)
        ensures
            c == cell_char(this),
    {
        match this {
            Some(Player::X) => 'X',
            Some(Player::O) => 'O',
            None => ' ',
        }
    }
}

pub open spec fn cell_char(c: Option<Player>) -> char {
    match c {
        Some(Player::X) => 'X',
        Some(Player::O) => 'O',
        None => ' ',
    }
}

/// The outcome of a decided local board.
#[derive(Clone, Copy, PartialEq, Eq, Debug, Hash, Structural)]
pub enum LocalBoardState {
    Win(Player),
    Tie,
}

/// The three cells of each of the eight winning lines, rows first, then
/// columns, then the two diagonals.
pub open spec fn line(k: int) -> (int, int, int) {
    if k == 0 {
        (0, 1, 2)
    } else if k == 1 {
        (3, 4, 5)
    } else if k == 2 {
        (6, 7, 8)
    } else if k == 3 {
        (0, 3, 6)
    } else if k == 4 {
        (1, 4, 7)
    } else if k == 5 {
        (2, 5, 8)
    } else if k == 6 {
        (0, 4, 8)
    } else {
        (2, 4, 6)
    }
}

/// Line `k` of a grid of digits holds one player's digit (1 or 2) three times.
pub open spec fn claims_line(s: Seq<u8>, k: int) -> bool {
    let (a, b, c) = line(k);
    &&& s[a] == 1 || s[a] == 2
    &&& s[a] == s[b]
    &&& s[a] == s[c]
}

/// The digit of the first line from `k` on that one player holds, or 0.
pub open spec fn winner_from(s: Seq<u8>, k: nat) -> u8
    decreases 8 - k,
{
    if k >= 8 {
        0
    } else if claims_line(s, k as int) {
        s[line(k as int).0]
    } else {
        winner_from(s, k + 1)
    }
}

/// The winning digit of a 3x3 grid of digits (0 empty, 1 for `X`, 2 for `O`,
/// anything else a mark that wins nothing), or 0 when no line is held.
pub open spec fn line_winner(s: Seq<u8>) -> u8 {
    winner_from(s, 0)
}

pub open spec fn player_of_digit(d: u8) -> Option<Player> {
    if d == 1 {
        Some(Player::X)
    } else if d == 2 {
        Some(Player::O)
    } else {
        None
    }
}

pub open spec fn cell_digit(c: Option<Player>) -> u8 {
    match c {
        None => 0,
        Some(p) => p.digit(),
    }
}

pub open spec fn state_digit(s: Option<LocalBoardState>) -> u8 {
    match s {
        None => 0,
        Some(LocalBoardState::Win(p)) => p.digit(),
        Some(LocalBoardState::Tie) => 3,
    }
}

pub open spec fn local_digits(c: Seq<Option<Player>>) -> Seq<u8> {
    c.map_values(|x: Option<Player>| cell_digit(x))
}

pub open spec fn status_digits(s: Seq<Option<LocalBoardState>>) -> Seq<u8> {
    s.map_values(|x: Option<LocalBoardState>| state_digit(x))
}

/// The player holding a line of a local board.
pub open spec fn local_winner(c: Seq<Option<Player>>) -> Option<Player> {
    player_of_digit(line_winner(local_digits(c)))
}

pub open spec fn local_full(c: Seq<Option<Player>>) -> bool {
    forall|i: int| 0 <= i < c.len() ==> (#[trigger] c[i]) is Some
}

pub open spec fn local_tied(c: Seq<Option<Player>>) -> bool {
    local_full(c) && local_winner(c) is None
}

pub open spec fn local_state(c: Seq<Option<Player>>) -> Option<LocalBoardState> {
    match local_winner(c) {
        Some(p) => Some(LocalBoardState::Win(p)),
        None => if local_full(c) {
            Some(LocalBoardState::Tie)
        } else {
            None
        },
    }
}

fn line_at(k: usize) -> (r: (usize, usize, usize))
    requires
        k < 8,
    ensures
        r.0 == line(k as int).0,
        r.1 == line(k as int).1,
        r.2 == line(k as int).2,
        r.0 < 9 && r.1 < 9 && r.2 < 9,
{
    if k == 0 {
        (0, 1, 2)
    } else if k == 1 {
        (3, 4, 5)
    } else if k == 2 {
        (6, 7, 8)
    } else if k == 3 {
        (0, 3, 6)
    } else if k == 4 {
        (1, 4, 7)
    } else if k == 5 {
        (2, 5, 8)
    } else if k == 6 {
        (0, 4, 8)
    } else {
        (2, 4, 6)
    }
}

/// The winning digit of a grid of digits, checking the eight lines in order.
pub fn winning_digit(s: &[u8; 9]) -> (r: u8)
    ensures
        r == line_winner(s@),
{
    let mut k: usize = 0;
    while k < 8
        invariant
            k <= 8,
            line_winner(s@) == winner_from(s@, k as nat),
        decreases 8 - k,
    {
        let (a, b, c) = line_at(k);
        if (s[a] == 1 || s[a] == 2) && s[a] == s[b] && s[a] == s[c] {
            return s[a];
        }
        k += 1;
    }
    0
}

fn player_from_digit(d: u8) -> (r: Option<Player>)
    ensures
        r == player_of_digit(d),
{
    if d == 1 {
        Some(Player::X)
    } else if d == 2 {
        Some(Player::O)
    } else {
        None
    }
}

fn digit_of_cell(c: Option<Player>) -> (d: u8)
    ensures
        d == cell_digit(c),
{
    match c {
        None => 0,
        Some(Player::X) => 1,
        Some(Player::O) => 2,
    }
}

fn digit_of_state(s: Option<LocalBoardState>) -> (d: u8)
    ensures
        d == state_digit(s),
{
    match s {
        None => 0,
        Some(LocalBoardState::Win(Player::X)) => 1,
        Some(LocalBoardState::Win(Player::O)) => 2,
        Some(LocalBoardState::Tie) => 3,
    }
}


/// One 3x3 local board: the owner of each of its nine cells, row by row.
#[derive(Clone, Copy, PartialEq, Eq, Debug, Hash)]
pub struct IndividualBoard(pub [Option<Player>; 9]);

impl Default for IndividualBoard {
    fn default() -> (r: Self)
        ensures
            forall|i: int| 0 <= i < 9 ==> r.0@[i] is None,
    {
        IndividualBoard([None; 9])
    }
}

impl IndividualBoard {
    pub open spec fn digits(&self) -> Seq<u8> {
        local_digits(self.0@)
    }

    /// The cells with their indices, in order.
    pub fn iter(&self) -> (r: Vec<(usize, Option<Player>)>)
        ensures
            r@.len() == 9,
            forall|i: int| 0 <= i < 9 ==> #[trigger] r@[i] == (i as usize, self.0@[i]),
    {
        let mut r: Vec<(usize, Option<Player>)> = Vec::new();
        let mut i: usize = 0;
        while i < 9
            invariant
                i <= 9,
                r@.len() == i,
                forall|j: int| 0 <= j < i ==> #[trigger] r@[j] == (j as usize, self.0@[j]),
            decreases 9 - i,
        {
            r.push((i, self.0[i]));
            i += 1;
        }
        r
    }

    pub(crate) fn digit_grid(&self) -> (d: [u8; 9])
        ensures
            d@ == self.digits(),
    {
        let mut d: [u8; 9] = [0u8; 9];
        let mut i: usize = 0;
        while i < 9
            invariant
                i <= 9,
                forall|j: int| 0 <= j < i ==> d@[j] == cell_digit(self.0@[j]),
            decreases 9 - i,
        {
            d[i] = digit_of_cell(self.0[i]);
            i += 1;
        }
        assert(d@ =~= self.digits());
        d
    }

    fn is_full(&self) -> (r: bool)
        ensures
            r == local_full(self.0@),
    {
        let mut i: usize = 0;
        while i < 9
            invariant
                i <= 9,
                forall|j: int| 0 <= j < i ==> (#[trigger] self.0@[j]) is Some,
            decreases 9 - i,
        {
            if self.0[i].is_none() {
                return false;
            }
            i += 1;
        }
        true
    }

    /// Every cell is taken and no line is held.
    pub fn is_tie(&self) -> (r: bool)
        ensures
            r == local_tied(self.0@),
    {
        self.is_full() && self.has_won().is_none()
    }

    /// The player holding one of the eight lines (the first in line order).
    pub fn has_won(&self) -> (r: Option<Player>)
        ensures
            r == local_winner(self.0@),
    {
        let d = self.digit_grid();
        player_from_digit(winning_digit(&d))
    }

    /// Won, tied, or still open.
    pub fn get_state(&self) -> (r: Option<LocalBoardState>)
        ensures
            r == local_state(self.0@),
    {
        if let Some(winner) = self.has_won() {
            Some(LocalBoardState::Win(winner))
        } else if self.is_tie() {
            Some(LocalBoardState::Tie)
        } else {
            None
        }
    }
}


/// The whole game: the nine local boards, the outcome of each decided one, the
/// player to move, and the local board that the next move must target (none
/// when the mover may choose freely).
#[derive(Clone, Copy, PartialEq, Eq, Debug, Hash)]
pub struct Board {
    pub global: [Option<LocalBoardState>; 9],
    pub locals: [IndividualBoard; 9],
    pub to_play: Player,
    pub global_idx: Option<usize>,
}

/// The mathematical value of a board.
pub struct BoardModel {
    /// The cells of each local board.
    pub cells: Seq<Seq<Option<Player>>>,
    /// The recorded outcome of each local board.
    pub status: Seq<Option<LocalBoardState>>,
    pub to_play: Player,
    pub forced: Option<int>,
}

impl View for Board {
    type V = BoardModel;

    open spec fn view(&self) -> BoardModel {
        BoardModel {
            cells: Seq::new(9, |g: int| self.locals@[g].0@),
            status: self.global@,
            to_play: self.to_play,
            forced: match self.global_idx {
                Some(g) => Some(g as int),
                None => None,
            },
        }
    }
}

/// The player holding a line of decided local boards.
pub open spec fn meta_winner(s: Seq<Option<LocalBoardState>>) -> Option<Player> {
    player_of_digit(line_winner(status_digits(s)))
}

pub open spec fn meta_full(s: Seq<Option<LocalBoardState>>) -> bool {
    forall|i: int| 0 <= i < s.len() ==> (#[trigger] s[i]) is Some
}

impl BoardModel {
    pub open spec fn winner(self) -> Option<Player> {
        meta_winner(self.status)
    }

    /// Every local board is decided and no line of them is won.
    pub open spec fn tied(self) -> bool {
        meta_full(self.status) && self.winner() is None
    }

    pub open spec fn terminal(self) -> bool {
        self.tied() || self.winner() is Some
    }

    /// The shape of a board, each recorded status agrees with its cells, and
    /// the forced local board is still open.
    pub open spec fn wf(self) -> bool {
        &&& self.cells.len() == 9
        &&& self.status.len() == 9
        &&& forall|g: int| 0 <= g < 9 ==> (#[trigger] self.cells[g]).len() == 9
        &&& forall|g: int| 0 <= g < 9 ==> #[trigger] self.status[g] == local_state(self.cells[g])
        &&& match self.forced {
            Some(g) => 0 <= g < 9 && self.status[g] is None,
            None => true,
        }
    }

    /// The board after the player to move takes cell `l` of local board `g`,
    /// or `None` where the move is refused: another local board is forced,
    /// local board `g` is decided, or the cell is taken.
    pub open spec fn play(self, g: int, l: int) -> Option<BoardModel> {
        if !(0 <= g < 9 && 0 <= l < 9) {
            None
        } else if self.forced is Some && self.forced != Some(g) {
            None
        } else if self.status[g] is Some {
            None
        } else if self.cells[g][l] is Some {
            None
        } else {
            let local = self.cells[g].update(l, Some(self.to_play));
            let status = self.status.update(g, local_state(local));
            Some(
                BoardModel {
                    cells: self.cells.update(g, local),
                    status,
                    to_play: self.to_play.other(),
                    forced: if status[l] is Some {
                        None
                    } else {
                        Some(l)
                    },
                },
            )
        }
    }
}

impl Default for Board {
    /// The empty board, with `X` to move anywhere.
    fn default() -> (r: Self)
        ensures
            r@.wf(),
            forall|g: int, l: int| 0 <= g < 9 && 0 <= l < 9 ==> (#[trigger] r@.cells[g][l]) is None,
            forall|g: int| 0 <= g < 9 ==> (#[trigger] r@.status[g]) is None,
            r.to_play == Player::X,
            r.global_idx is None,
    {
        let r = Board {
            global: [None; 9],
            locals: [IndividualBoard([None; 9]); 9],
            to_play: Player::X,
            global_idx: None,
        };
        assert forall|g: int| 0 <= g < 9 implies #[trigger] r@.status[g] == local_state(
            r@.cells[g],
        ) by {
            assert(r@.cells[g][4] is None);
            assert(!local_full(r@.cells[g]));
            assert(local_digits(r@.cells[g]) =~= seq![0u8, 0, 0, 0, 0, 0, 0, 0, 0]);
            reveal_with_fuel(winner_from, 9);
        }
        r
    }
}

impl Board {
    /// The character of the player to move.
    pub fn to_play(&self) -> (c: char)
        ensures
            c == cell_char(Some(self.to_play)),
    {
        match self.to_play {
            Player::X => 'X',
            Player::O => 'O',
        }
    }

    pub(crate) fn status_grid(&self) -> (d: [u8; 9])
        ensures
            d@ == status_digits(self.global@),
    {
        let mut d: [u8; 9] = [0u8; 9];
        let mut i: usize = 0;
        while i < 9
            invariant
                i <= 9,
                forall|j: int| 0 <= j < i ==> d@[j] == state_digit(self.global@[j]),
            decreases 9 - i,
        {
            d[i] = digit_of_state(self.global[i]);
            i += 1;
        }
        assert(d@ =~= status_digits(self.global@));
        d
    }

    /// Every local board is decided and no line of them is won.
    pub fn is_tie(&self) -> (r: bool)
        ensures
            r == self@.tied(),
    {
        let mut i: usize = 0;
        while i < 9
            invariant
                i <= 9,
                forall|j: int| 0 <= j < i ==> (#[trigger] self.global@[j]) is Some,
            decreases 9 - i,
        {
            if self.global[i].is_none() {
                return false;
            }
            i += 1;
        }
        self.has_won().is_none()
    }

    /// The player holding a line of won local boards (the first in line order).
    pub fn has_won(&self) -> (r: Option<Player>)
        ensures
            r == self@.winner(),
    {
        let d = self.status_grid();
        player_from_digit(winning_digit(&d))
    }

    /// The board after the player to move takes cell `local` of local board
    /// `global`; `None` where the move is refused. The board itself is left
    /// as it is.
    pub fn play(&self, global: usize, local: usize) -> (r: Option<Self>)
        requires
            global < 9,
            local < 9,
        ensures
            match r {
                Some(b) => self@.play(global as int, local as int) == Some(b@),
                None => self@.play(global as int, local as int) is None,
            },
    {
        if let Some(allowed) = self.global_idx {
            if allowed != global {
                return None;
            }
        }
        if self.global[global].is_some() {
            return None;
        }
        if self.locals[global].0[local].is_some() {
            return None;
        }
        let mut next = *self;
        let mut board = next.locals[global];
        board.0[local] = Some(self.to_play);
        next.locals[global] = board;
        next.global[global] = board.get_state();
        next.to_play = self.to_play.invert();
        next.global_idx = if next.global[local].is_some() {
            None
        } else {
            Some(local)
        };
        proof {
            let m = self@.play(global as int, local as int).unwrap();
            assert(next@.cells =~= m.cells);
            assert(next@.status =~= m.status);
        }
        Some(next)
    }
}

/// Where a game stands.
#[derive(Clone, Copy, PartialEq, Eq, Debug, Hash)]
pub enum BoardStatus {
    /// Still being played; the local board that the next move must target, if any.
    InProgress(Option<usize>),
    Won(Player),
    Tied,
}

impl Board {
    /// Won, tied, or in progress with the forced local board.
    pub fn status(&self) -> (r: BoardStatus)
        ensures
            r == match self@.winner() {
                Some(p) => BoardStatus::Won(p),
                None => if self@.tied() {
                    BoardStatus::Tied
                } else {
                    BoardStatus::InProgress(self.global_idx)
                },
            },
    {
        if let Some(p) = self.has_won() {
            BoardStatus::Won(p)
        } else if self.is_tie() {
            BoardStatus::Tied
        } else {
            BoardStatus::InProgress(self.global_idx)
        }
    }
}

impl BoardModel {
    /// Nine local boards of nine cells each.
    pub open spec fn shaped(self) -> bool {
        &&& self.cells.len() == 9
        &&& forall|g: int| 0 <= g < 9 ==> (#[trigger] self.cells[g]).len() == 9
    }
}

/// Every board value has the shape of a board.
pub proof fn lemma_view_shaped(b: Board)
    ensures
        b@.shaped(),
{
}

/// A legal move keeps the shape of a board.
pub proof fn lemma_play_keeps_shape(m: BoardModel, g: int, l: int)
    requires
        m.shaped(),
        m.play(g, l) is Some,
    ensures
        m.play(g, l).unwrap().shaped(),
{
    let c = m.play(g, l).unwrap();
    assert forall|i: int| 0 <= i < 9 implies (#[trigger] c.cells[i]).len() == 9 by {
        if i != g {
            assert(c.cells[i] == m.cells[i]);
        }
    }
}

/// A legal move keeps a well-formed board well-formed.
pub proof fn lemma_play_keeps_wf(m: BoardModel, g: int, l: int)
    requires
        m.wf(),
        m.play(g, l) is Some,
    ensures
        m.play(g, l).unwrap().wf(),
{
    let c = m.play(g, l).unwrap();
    assert forall|i: int| 0 <= i < 9 implies #[trigger] c.status[i] == local_state(c.cells[i]) by {
        if i != g {
            assert(c.cells[i] == m.cells[i]);
        }
    }
}

/// A board is never both won and tied.
pub proof fn lemma_won_and_tied_exclusive(b: BoardModel)
    ensures
        !(b.winner() is Some && b.tied()),
{
}

} // verus!
