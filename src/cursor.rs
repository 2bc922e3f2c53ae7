//! The cursor of a board view: a cell `(global, local)` placed on the 9x9 grid
//! of all cells, and moved by one grid step at a time.
use vstd::prelude::*;

verus! {

/// The grid column of a cell.
pub open spec fn column(pos: (usize, usize)) -> int {
    3 * (pos.0 % 3) + pos.1 % 3
}

/// The grid row of a cell.
pub open spec fn row(pos: (usize, usize)) -> int {
    3 * (pos.0 / 3) + pos.1 / 3
}

pub open spec fn on_board(pos: (usize, usize)) -> bool {
    pos.0 < 9 && pos.1 < 9
}

/// Where a cell is drawn: local boards 8 columns and 8 rows apart, cells 2
/// apart within them.
pub fn to_xy(pos: (usize, usize)) -> (r: (u16, u16))
    requires
        on_board(pos),
    ensures
        r.0 == 8 * (pos.0 % 3) + 2 * (pos.1 % 3),
        r.1 == 8 * (pos.0 / 3) + 2 * (pos.1 / 3),
{
    let start_x = pos.0 % 3 * 8;
    let start_y = pos.0 / 3 * 8;
    let x = start_x + pos.1 % 3 * 2;
    let y = start_y + pos.1 / 3 * 2;
    (x as u16, y as u16)
}

/// One column left, unless at the left edge.
pub fn move_left(pos: &mut (usize, usize))
    requires
        on_board(*old(pos)),
    ensures
        on_board(*final(pos)),
        row(*final(pos)) == row(*old(pos)),
        column(*final(pos)) == if column(*old(pos)) == 0 {
            0
        } else {
            column(*old(pos)) - 1
        },
{
    if pos.1 % 3 == 0 && pos.0 % 3 == 0 {
        return;
    } else if pos.1 % 3 == 0 {
        pos.0 = pos.0 - 1;
        pos.1 = pos.1 + 2;
    } else {
        pos.1 = pos.1 - 1;
    }
}

/// One column right, unless at the right edge.
pub fn move_right(pos: &mut (usize, usize))
    requires
        on_board(*old(pos)),
    ensures
        on_board(*final(pos)),
        row(*final(pos)) == row(*old(pos)),
        column(*final(pos)) == if column(*old(pos)) == 8 {
            8
        } else {
            column(*old(pos)) + 1
        },
{
    if pos.1 % 3 == 2 && pos.0 % 3 == 2 {
        return;
    } else if pos.1 % 3 == 2 {
        pos.0 = pos.0 + 1;
        pos.1 = pos.1 - 2;
    } else {
        pos.1 = pos.1 + 1;
    }
}

/// One row up, unless at the top edge.
pub fn move_up(pos: &mut (usize, usize))
    requires
        on_board(*old(pos)),
    ensures
        on_board(*final(pos)),
        column(*final(pos)) == column(*old(pos)),
        row(*final(pos)) == if row(*old(pos)) == 0 {
            0
        } else {
            row(*old(pos)) - 1
        },
{
    if pos.1 / 3 == 0 && pos.0 / 3 == 0 {
        return;
    } else if pos.1 / 3 == 0 {
        pos.0 = pos.0 - 3;
        pos.1 = pos.1 + 6;
    } else {
        pos.1 = pos.1 - 3;
    }
}

/// One row down, unless at the bottom edge.
pub fn move_down(pos: &mut (usize, usize))
    requires
        on_board(*old(pos)),
    ensures
        on_board(*final(pos)),
        column(*final(pos)) == column(*old(pos)),
        row(*final(pos)) == if row(*old(pos)) == 8 {
            8
        } else {
            row(*old(pos)) + 1
        },
{
    if pos.1 / 3 == 2 && pos.0 / 3 == 2 {
        return;
    } else if pos.1 / 3 == 2 {
        pos.0 = pos.0 + 3;
        pos.1 = pos.1 - 6;
    } else {
        pos.1 = pos.1 + 3;
    }
}

} // verus!
