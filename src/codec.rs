//! A compact key for a board: the base-3 number of each local board (0 for a
//! free cell, 1 for `X`, 2 for `O`, least significant first), and one byte
//! holding the player to move and the forced local board. On well-formed
//! boards the key is one-to-one, and `Board::from_key` reads it back.
use vstd::prelude::*;

use crate::board::{
    local_digits, local_state, Board, BoardModel, IndividualBoard, LocalBoardState, Player,
};
use crate::eval::{
    code, decode, digits_below, grid_code, lemma_code_decode, lemma_decode_code, lemma_pow_small,
};

verus! {

/// The numbers of the nine local boards, and the byte `mover + 2 * forced`
/// (mover 0 for `X`, 1 for `O`; forced 9 when the mover may choose freely).
pub type BoardKey = ([u16; 9], u8);

pub open spec fn turn_code(m: BoardModel) -> int {
    (if m.to_play == Player::X {
        0int
    } else {
        1int
    }) + 2 * match m.forced {
        Some(g) => if 0 <= g < 9 {
            g
        } else {
            9
        },
        None => 9,
    }
}

/// `k` is the key of board `m`.
pub open spec fn key_matches(k: BoardKey, m: BoardModel) -> bool {
    &&& forall|g: int| 0 <= g < 9 ==> #[trigger] k.0@[g] == code(local_digits(m.cells[g]), 3)
    &&& k.1 == turn_code(m)
}

/// The cells of a local board from its digits.
pub open spec fn cells_of(s: Seq<u8>) -> Seq<Option<Player>> {
    s.map_values(
        |d: u8|
            if d == 1 {
                Some(Player::X)
            } else if d == 2 {
                Some(Player::O)
            } else {
                None
            },
    )
}

/// The board that key `k` stands for, or `None` where no well-formed board has
/// it: a local number of 3^9 or more, a byte past 19, or a forced local
/// board that is decided.
pub open spec fn board_of_key(k: BoardKey) -> Option<BoardModel> {
    let cells = Seq::new(9, |g: int| cells_of(decode(k.0@[g] as int, 3, 9)));
    let status = Seq::new(9, |g: int| local_state(cells[g]));
    let f = k.1 / 2;
    if exists|g: int| 0 <= g < 9 && #[trigger] k.0@[g] >= 19683 {
        None
    } else if k.1 > 19 {
        None
    } else if f < 9 && status[f as int] is Some {
        None
    } else {
        Some(
            BoardModel {
                cells,
                status,
                to_play: if k.1 % 2 == 0 {
                    Player::X
                } else {
                    Player::O
                },
                forced: if f < 9 {
                    Some(f as int)
                } else {
                    None
                },
            },
        )
    }
}

pub(crate) proof fn lemma_cells_of_digits(c: Seq<Option<Player>>)
    ensures
        cells_of(local_digits(c)) == c,
        digits_below(local_digits(c), 3),
{
    assert(cells_of(local_digits(c)) =~= c);
}

/// Reading back the key of a well-formed board gives that board.
pub proof fn lemma_key_round_trip(k: BoardKey, m: BoardModel)
    requires
        m.wf(),
        key_matches(k, m),
    ensures
        board_of_key(k) == Some(m),
{
    assert forall|g: int| 0 <= g < 9 implies #[trigger] cells_of(decode(k.0@[g] as int, 3, 9))
        == m.cells[g] && k.0@[g] < 19683 by {
        lemma_cells_of_digits(m.cells[g]);
        lemma_decode_code(local_digits(m.cells[g]), 3);
        lemma_code_bound_3(local_digits(m.cells[g]));
    }
    let cells = Seq::new(9, |g: int| cells_of(decode(k.0@[g] as int, 3, 9)));
    assert(cells =~= m.cells);
    let status = Seq::new(9, |g: int| local_state(cells[g]));
    assert(status =~= m.status);
    let fm: int = match m.forced {
        Some(g) => g,
        None => 9,
    };
    assert(k.1 / 2 == fm && k.1 % 2 == (if m.to_play == Player::X { 0int } else { 1int }));
    assert(!exists|g: int| 0 <= g < 9 && #[trigger] k.0@[g] >= 19683);
    let b = board_of_key(k).unwrap();
    assert(b.cells =~= m.cells);
    assert(b.status =~= m.status);
}

proof fn lemma_code_bound_3(s: Seq<u8>)
    requires
        s.len() == 9,
        digits_below(s, 3),
    ensures
        code(s, 3) < 19683,
{
    crate::eval::lemma_code_bound(s, 3);
    lemma_pow_small(3, 9);
}

/// Two well-formed boards with one key are the same board.
pub proof fn lemma_key_injective(k: BoardKey, m1: BoardModel, m2: BoardModel)
    requires
        m1.wf(),
        m2.wf(),
        key_matches(k, m1),
        key_matches(k, m2),
    ensures
        m1 == m2,
{
    lemma_key_round_trip(k, m1);
    lemma_key_round_trip(k, m2);
}

/// A board has one key.
pub proof fn lemma_key_unique(k1: BoardKey, k2: BoardKey, m: BoardModel)
    requires
        key_matches(k1, m),
        key_matches(k2, m),
    ensures
        k1 == k2,
{
    assert(k1.0 =~= k2.0);
}

/// Two local boards have the same number exactly when every cell has the
/// same owner.
pub proof fn lemma_local_code_exact(a: IndividualBoard, b: IndividualBoard)
    ensures
        (code(a.digits(), 3) == code(b.digits(), 3)) <==> (a.0@ == b.0@),
{
    if code(a.digits(), 3) == code(b.digits(), 3) {
        lemma_cells_of_digits(a.0@);
        lemma_cells_of_digits(b.0@);
        lemma_decode_code(a.digits(), 3);
        lemma_decode_code(b.digits(), 3);
    }
}

fn cell_of_digit(d: u8) -> (c: Option<Player>)
    ensures
        c == (if d == 1 {
            Some(Player::X)
        } else if d == 2 {
            Some(Player::O)
        } else {
            None
        }),
{
    if d == 1 {
        Some(Player::X)
    } else if d == 2 {
        Some(Player::O)
    } else {
        None
    }
}

impl Board {
    /// The key of this board.
    pub fn key(&self) -> (k: BoardKey)
        ensures
            key_matches(k, self@),
    {
        let mut codes: [u16; 9] = [0u16; 9];
        let mut g: usize = 0;
        while g < 9
            invariant
                g <= 9,
                forall|j: int| 0 <= j < g ==> #[trigger] codes@[j] == code(local_digits(self@.cells[j]), 3),
            decreases 9 - g,
        {
            let d = self.locals[g].digit_grid();
            proof {
                lemma_cells_of_digits(self.locals@[g as int].0@);
                lemma_pow_small(3, 9);
            }
            let c = grid_code(&d, 3);
            codes[g] = c as u16;
            g += 1;
        }
        let f: u8 = match self.global_idx {
            Some(i) => if i < 9 {
                i as u8
            } else {
                9
            },
            None => 9,
        };
        let mover: u8 = match self.to_play {
            Player::X => 0,
            Player::O => 1,
        };
        (codes, mover + 2 * f)
    }

    /// The board that key `k` stands for; `None` where no well-formed board
    /// has that key.
    pub fn from_key(k: &BoardKey) -> (r: Option<Board>)
        ensures
            match r {
                Some(b) => board_of_key(*k) == Some(b@) && b@.wf() && key_matches(*k, b@),
                None => board_of_key(*k) is None,
            },
    {
        let ghost cells = Seq::new(9, |g: int| cells_of(decode(k.0@[g] as int, 3, 9)));
        let mut locals: [IndividualBoard; 9] = [IndividualBoard([None; 9]); 9];
        let mut global: [Option<LocalBoardState>; 9] = [None; 9];
        let mut g: usize = 0;
        while g < 9
            invariant
                g <= 9,
                cells == Seq::new(9, |g: int| cells_of(decode(k.0@[g] as int, 3, 9))),
                forall|j: int| 0 <= j < g ==> (#[trigger] k.0@[j]) < 19683,
                forall|j: int| 0 <= j < g ==> #[trigger] locals@[j].0@ == cells[j],
                forall|j: int| 0 <= j < g ==> #[trigger] global@[j] == local_state(cells[j]),
            decreases 9 - g,
        {
            if k.0[g] >= 19683 {
                return None;
            }
            proof {
                lemma_pow_small(3, 9);
            }
            let d = crate::eval::digits_of(k.0[g] as usize, 3);
            let mut b = IndividualBoard([None; 9]);
            let mut i: usize = 0;
            while i < 9
                invariant
                    i <= 9,
                    d@ == decode(k.0@[g as int] as int, 3, 9),
                    forall|j: int| 0 <= j < i ==> #[trigger] b.0@[j] == cells_of(d@)[j],
                decreases 9 - i,
            {
                b.0[i] = cell_of_digit(d[i]);
                i += 1;
            }
            assert(b.0@ =~= cells[g as int]);
            locals[g] = b;
            global[g] = b.get_state();
            g += 1;
        }
        if k.1 > 19 {
            return None;
        }
        let f = k.1 / 2;
        if f < 9 && global[f as usize].is_some() {
            return None;
        }
        let b = Board {
            global,
            locals,
            to_play: if k.1 % 2 == 0 {
                Player::X
            } else {
                Player::O
            },
            global_idx: if f < 9 {
                Some(f as usize)
            } else {
                None
            },
        };
        assert(b@.cells =~= cells);
        assert(b@.status =~= Seq::new(9, |g: int| local_state(cells[g])));
        proof {
            assert forall|g: int| 0 <= g < 9 implies #[trigger] k.0@[g] == code(
                local_digits(b@.cells[g]),
                3,
            ) by {
                lemma_pow_small(3, 9);
                lemma_code_decode(k.0@[g] as int, 3, 9);
                let s = decode(k.0@[g] as int, 3, 9);
                assert(local_digits(cells_of(s)) =~= s);
            }
        }
        Some(b)
    }
}

} // verus!
