//! The bit-packed form of the board: for each player a mask with bit `i` set
//! where that player holds cell `i` (9 bits for a local board, bit `9g + l`
//! for cell `l` of local board `g` on the whole board), and three 9-bit masks
//! of the local boards won by `X`, won by `O`, and tied.
use vstd::prelude::*;

use crate::board::{local_state, Board, BoardModel, IndividualBoard, LocalBoardState, Player};

verus! {

/// Bit `i` of a 16-bit mask is set.
pub open spec fn bit16(x: u16, i: int) -> bool {
    (x >> (i as u16)) & 1u16 == 1u16
}

/// The mask of the first `n` cells of `c` that player `p` holds.
pub open spec fn mask_of(c: Seq<Option<Player>>, p: Player, n: nat) -> u16
    decreases n,
{
    if n == 0 {
        0
    } else if c[n - 1] == Some(p) {
        mask_of(c, p, (n - 1) as nat) | (1u16 << ((n - 1) as u16))
    } else {
        mask_of(c, p, (n - 1) as nat)
    }
}

proof fn lemma_bit16_set(x: u16, k: u16, i: u16)
    requires
        k < 16,
        i < 16,
    ensures
        bit16(x | (1u16 << k), i as int) == (bit16(x, i as int) || i == k),
{
    assert(((x | (1u16 << k)) >> i) & 1u16 == 1u16 <==> ((x >> i) & 1u16 == 1u16 || i == k))
        by (bit_vector)
        requires
            k < 16,
            i < 16,
    ;
}

proof fn lemma_bit16_zero(i: u16)
    requires
        i < 16,
    ensures
        !bit16(0, i as int),
{
    assert((0u16 >> i) & 1u16 != 1u16) by (bit_vector);
}

/// Bit `i` of the mask of the first `n` cells is set exactly when `i < n` and
/// player `p` holds cell `i`.
pub proof fn lemma_mask_bits(c: Seq<Option<Player>>, p: Player, n: nat, i: int)
    requires
        n <= 16,
        0 <= i < 16,
    ensures
        bit16(mask_of(c, p, n), i) == (i < n && c[i] == Some(p)),
    decreases n,
{
    if n == 0 {
        lemma_bit16_zero(i as u16);
    } else {
        lemma_mask_bits(c, p, (n - 1) as nat, i);
        if c[n - 1] == Some(p) {
            lemma_bit16_set(mask_of(c, p, (n - 1) as nat), (n - 1) as u16, i as u16);
        }
    }
}

/// Two local boards have the same masks exactly when every cell has the same
/// owner.
pub proof fn lemma_masks_exact(a: IndividualBoard, b: IndividualBoard)
    ensures
        (mask_of(a.0@, Player::X, 9) == mask_of(b.0@, Player::X, 9) && mask_of(a.0@, Player::O, 9)
            == mask_of(b.0@, Player::O, 9)) <==> a.0@ == b.0@,
{
    if mask_of(a.0@, Player::X, 9) == mask_of(b.0@, Player::X, 9) && mask_of(a.0@, Player::O, 9)
        == mask_of(b.0@, Player::O, 9) {
        assert forall|i: int| 0 <= i < 9 implies a.0@[i] == b.0@[i] by {
            lemma_mask_bits(a.0@, Player::X, 9, i);
            lemma_mask_bits(b.0@, Player::X, 9, i);
            lemma_mask_bits(a.0@, Player::O, 9, i);
            lemma_mask_bits(b.0@, Player::O, 9, i);
            assert((a.0@[i] == Some(Player::X)) == (b.0@[i] == Some(Player::X)));
            assert((a.0@[i] == Some(Player::O)) == (b.0@[i] == Some(Player::O)));
            match a.0@[i] {
                Some(Player::X) => {},
                Some(Player::O) => {},
                None => match b.0@[i] {
                    Some(Player::X) => {},
                    Some(Player::O) => {},
                    None => {},
                },
            }
        }
        assert(a.0@ =~= b.0@);
    }
}

impl IndividualBoard {
    /// The cells held by `X` and by `O`, as two 9-bit masks.
    pub fn masks(&self) -> (r: (u16, u16))
        ensures
            r.0 == mask_of(self.0@, Player::X, 9),
            r.1 == mask_of(self.0@, Player::O, 9),
    {
        let mut x: u16 = 0;
        let mut o: u16 = 0;
        let mut i: u16 = 0;
        while i < 9
            invariant
                i <= 9,
                x == mask_of(self.0@, Player::X, i as nat),
                o == mask_of(self.0@, Player::O, i as nat),
            decreases 9 - i,
        {
            match self.0[i as usize] {
                Some(Player::X) => {
                    x = x | (1u16 << i);
                },
                Some(Player::O) => {
                    o = o | (1u16 << i);
                },
                None => {},
            }
            i += 1;
        }
        (x, o)
    }
}


/// Bit `i` of a 128-bit mask is set.
pub open spec fn bit128(x: u128, i: int) -> bool {
    (x >> (i as u128)) & 1u128 == 1u128
}

/// Cell `i % 9` of local board `i / 9`.
pub open spec fn cell_at(m: BoardModel, i: int) -> Option<Player> {
    m.cells[i / 9][i % 9]
}

/// The mask of the first `n` cells of the whole board that player `p` holds.
pub open spec fn board_mask(m: BoardModel, p: Player, n: nat) -> u128
    decreases n,
{
    if n == 0 {
        0
    } else if cell_at(m, n - 1) == Some(p) {
        board_mask(m, p, (n - 1) as nat) | (1u128 << ((n - 1) as u128))
    } else {
        board_mask(m, p, (n - 1) as nat)
    }
}

/// The mask of the first `n` local boards whose outcome is `v`.
pub open spec fn status_mask(s: Seq<Option<LocalBoardState>>, v: LocalBoardState, n: nat) -> u16
    decreases n,
{
    if n == 0 {
        0
    } else if s[n - 1] == Some(v) {
        status_mask(s, v, (n - 1) as nat) | (1u16 << ((n - 1) as u16))
    } else {
        status_mask(s, v, (n - 1) as nat)
    }
}

/// The whole board with its cells and outcomes as bit masks.
#[derive(Clone, Copy, PartialEq, Eq, Debug, Hash)]
pub struct PackedBoard {
    pub locals_x: u128,
    pub locals_o: u128,
    pub global_x: u16,
    pub global_o: u16,
    pub global_full: u16,
    pub to_play: Player,
    pub global_idx: Option<usize>,
}

pub open spec fn forced_of(i: Option<usize>) -> Option<int> {
    match i {
        Some(g) => Some(g as int),
        None => None,
    }
}

/// `p` is the packed form of board `m`.
pub open spec fn packs(p: PackedBoard, m: BoardModel) -> bool {
    &&& p.locals_x == board_mask(m, Player::X, 81)
    &&& p.locals_o == board_mask(m, Player::O, 81)
    &&& p.global_x == status_mask(m.status, LocalBoardState::Win(Player::X), 9)
    &&& p.global_o == status_mask(m.status, LocalBoardState::Win(Player::O), 9)
    &&& p.global_full == status_mask(m.status, LocalBoardState::Tie, 9)
    &&& p.to_play == m.to_play
    &&& forced_of(p.global_idx) == m.forced
}

/// The owner of cell `i` as the masks of `p` give it.
pub open spec fn packed_cell(p: PackedBoard, i: int) -> Option<Player> {
    if bit128(p.locals_x, i) {
        Some(Player::X)
    } else if bit128(p.locals_o, i) {
        Some(Player::O)
    } else {
        None
    }
}

/// The board that the cell masks of `p` describe, with outcomes taken from
/// its cells.
pub open spec fn decoded(p: PackedBoard) -> BoardModel {
    let cells = Seq::new(9, |g: int| Seq::new(9, |l: int| packed_cell(p, 9 * g + l)));
    BoardModel {
        cells,
        status: Seq::new(9, |g: int| local_state(cells[g])),
        to_play: p.to_play,
        forced: forced_of(p.global_idx),
    }
}

/// The well-formed board that `p` is the packed form of, if any.
pub open spec fn unpacked(p: PackedBoard) -> Option<BoardModel> {
    if decoded(p).wf() && packs(p, decoded(p)) {
        Some(decoded(p))
    } else {
        None
    }
}

proof fn lemma_bit128_set(x: u128, k: u128, i: u128)
    requires
        k < 128,
        i < 128,
    ensures
        bit128(x | (1u128 << k), i as int) == (bit128(x, i as int) || i == k),
{
    assert(((x | (1u128 << k)) >> i) & 1u128 == 1u128 <==> ((x >> i) & 1u128 == 1u128 || i == k))
        by (bit_vector)
        requires
            k < 128,
            i < 128,
    ;
}

proof fn lemma_bit128_zero(i: u128)
    requires
        i < 128,
    ensures
        !bit128(0, i as int),
{
    assert((0u128 >> i) & 1u128 != 1u128) by (bit_vector);
}

/// Bit `i` of the whole-board mask of the first `n` cells is set exactly when
/// `i < n` and player `p` holds cell `i`.
pub proof fn lemma_board_mask_bits(m: BoardModel, p: Player, n: nat, i: int)
    requires
        n <= 128,
        0 <= i < 128,
    ensures
        bit128(board_mask(m, p, n), i) == (i < n && cell_at(m, i) == Some(p)),
    decreases n,
{
    if n == 0 {
        lemma_bit128_zero(i as u128);
    } else {
        lemma_board_mask_bits(m, p, (n - 1) as nat, i);
        if cell_at(m, n - 1) == Some(p) {
            lemma_bit128_set(board_mask(m, p, (n - 1) as nat), (n - 1) as u128, i as u128);
        }
    }
}

/// Reading a well-formed board back from its packed form gives that board.
pub proof fn lemma_packed_round_trip(p: PackedBoard, m: BoardModel)
    requires
        m.wf(),
        packs(p, m),
    ensures
        unpacked(p) == Some(m),
{
    let d = decoded(p);
    assert forall|g: int| 0 <= g < 9 implies #[trigger] d.cells[g] == m.cells[g] by {
        assert forall|l: int| 0 <= l < 9 implies d.cells[g][l] == m.cells[g][l] by {
            let i = 9 * g + l;
            assert(i / 9 == g && i % 9 == l);
            lemma_board_mask_bits(m, Player::X, 81, i);
            lemma_board_mask_bits(m, Player::O, 81, i);
            match m.cells[g][l] {
                Some(Player::X) => {},
                Some(Player::O) => {},
                None => {},
            }
        }
        assert(d.cells[g] =~= m.cells[g]);
    }
    assert(d.cells =~= m.cells);
    assert(d.status =~= m.status);
}

impl Board {
    /// The packed form of this board.
    pub fn pack(&self) -> (p: PackedBoard)
        ensures
            packs(p, self@),
    {
        let mut x: u128 = 0;
        let mut o: u128 = 0;
        let mut i: u128 = 0;
        while i < 81
            invariant
                i <= 81,
                x == board_mask(self@, Player::X, i as nat),
                o == board_mask(self@, Player::O, i as nat),
            decreases 81 - i,
        {
            let g = (i / 9) as usize;
            let l = (i % 9) as usize;
            match self.locals[g].0[l] {
                Some(Player::X) => {
                    x = x | (1u128 << i);
                },
                Some(Player::O) => {
                    o = o | (1u128 << i);
                },
                None => {},
            }
            i += 1;
        }
        let mut gx: u16 = 0;
        let mut go: u16 = 0;
        let mut gt: u16 = 0;
        let mut g: u16 = 0;
        while g < 9
            invariant
                g <= 9,
                gx == status_mask(self@.status, LocalBoardState::Win(Player::X), g as nat),
                go == status_mask(self@.status, LocalBoardState::Win(Player::O), g as nat),
                gt == status_mask(self@.status, LocalBoardState::Tie, g as nat),
            decreases 9 - g,
        {
            match self.global[g as usize] {
                Some(LocalBoardState::Win(Player::X)) => {
                    gx = gx | (1u16 << g);
                },
                Some(LocalBoardState::Win(Player::O)) => {
                    go = go | (1u16 << g);
                },
                Some(LocalBoardState::Tie) => {
                    gt = gt | (1u16 << g);
                },
                None => {},
            }
            g += 1;
        }
        PackedBoard {
            locals_x: x,
            locals_o: o,
            global_x: gx,
            global_o: go,
            global_full: gt,
            to_play: self.to_play,
            global_idx: self.global_idx,
        }
    }
}


impl PackedBoard {
    /// The board that this is the packed form of; `None` where it is the
    /// packed form of no well-formed board.
    pub fn unpack(&self) -> (r: Option<Board>)
        ensures
            match r {
                Some(b) => unpacked(*self) == Some(b@),
                None => unpacked(*self) is None,
            },
    {
        let ghost d = decoded(*self);
        let mut locals: [IndividualBoard; 9] = [IndividualBoard([None; 9]); 9];
        let mut global: [Option<LocalBoardState>; 9] = [None; 9];
        let mut g: usize = 0;
        while g < 9
            invariant
                g <= 9,
                d == decoded(*self),
                forall|j: int| 0 <= j < g ==> #[trigger] locals@[j].0@ == d.cells[j],
                forall|j: int| 0 <= j < g ==> #[trigger] global@[j] == d.status[j],
            decreases 9 - g,
        {
            let mut b = IndividualBoard([None; 9]);
            let mut l: usize = 0;
            while l < 9
                invariant
                    g < 9,
                    l <= 9,
                    d == decoded(*self),
                    forall|j: int| 0 <= j < l ==> #[trigger] b.0@[j] == d.cells[g as int][j],
                decreases 9 - l,
            {
                let i: u128 = (9 * g + l) as u128;
                b.0[l] = if (self.locals_x >> i) & 1 == 1 {
                    Some(Player::X)
                } else if (self.locals_o >> i) & 1 == 1 {
                    Some(Player::O)
                } else {
                    None
                };
                l += 1;
            }
            assert(b.0@ =~= d.cells[g as int]);
            locals[g] = b;
            global[g] = b.get_state();
            g += 1;
        }
        if let Some(f) = self.global_idx {
            if f >= 9 || global[f].is_some() {
                return None;
            }
        }
        let board = Board { global, locals, to_play: self.to_play, global_idx: self.global_idx };
        assert(board@.cells =~= d.cells);
        assert(board@.status =~= d.status);
        let q = board.pack();
        if q.locals_x == self.locals_x && q.locals_o == self.locals_o && q.global_x == self.global_x
            && q.global_o == self.global_o && q.global_full == self.global_full {
            Some(board)
        } else {
            None
        }
    }
}

} // verus!
