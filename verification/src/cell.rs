//! One grid location: mine or safe, its flag and open status, and its
//! precomputed count of adjacent mines.

use crate::neighborhood::{get_bombs_around, grid_square, grid_view, mines_in_rect};
use crate::position::CellPosition;
use vstd::prelude::*;

verus! {

/// The state of a cell. A safe cell that is both flagged and open is an
/// invariant violation and never occurs on a well-formed board.
#[derive(Clone, Copy, Debug, PartialEq, Eq, Structural)]
pub enum CellState {
    Mine { flagged: bool },
    Safe { flagged: bool, open: bool },
}

/// One grid location. `bombs_around` is computed once at construction and
/// never changes; only `state` mutates afterwards.
#[derive(Clone, Copy, Debug)]
pub struct Cell {
    pub bombs_around: u8,
    pub state: CellState,
    pub position: CellPosition,
}

impl Cell {
    /// Builds the cell at (row_index, col_index) from the boolean mine grid:
    /// its neighbor count is taken from the grid, its state from `is_bomb`,
    /// with the flag cleared and a safe cell closed.
    pub fn new(row_index: usize, col_index: usize, bombs: &Vec<Vec<bool>>, is_bomb: bool) -> (cell:
        Cell)
        requires
            bombs@.len() >= 1,
            grid_square(grid_view(bombs), bombs@.len() as int),
            (row_index as int) < bombs@.len(),
            (col_index as int) < bombs@.len(),
        ensures
            cell.position == (CellPosition { row_index, col_index }),
            cell.bombs_around as nat == mines_in_rect(
                grid_view(bombs),
                cell.position,
                bombs@.len() as int,
            ),
            cell.state == if is_bomb {
                (CellState::Mine { flagged: false })
            } else {
                (CellState::Safe { flagged: false, open: false })
            },
    {
        let position = CellPosition { row_index, col_index };
        Cell {
            bombs_around: get_bombs_around(bombs, position),
            state: if is_bomb {
                CellState::Mine { flagged: false }
            } else {
                CellState::Safe { flagged: false, open: false }
            },
            position,
        }
    }
}

/// The digit character for a neighbor count.
pub open spec fn digit_char(d: nat) -> char {
    if d == 0 {
        '0'
    } else if d == 1 {
        '1'
    } else if d == 2 {
        '2'
    } else if d == 3 {
        '3'
    } else if d == 4 {
        '4'
    } else if d == 5 {
        '5'
    } else if d == 6 {
        '6'
    } else if d == 7 {
        '7'
    } else if d == 8 {
        '8'
    } else {
        '9'
    }
}

/// The single character a cell shows: a flagged mine `^`, an unflagged mine
/// `@` (end-of-game display only), a flagged closed safe cell `?`, a covered
/// safe cell `#`, and an open safe cell its digit of adjacent mines.
pub open spec fn spec_glyph(cell: Cell) -> char {
    match cell.state {
        CellState::Mine { flagged: true } => '^',
        CellState::Mine { flagged: false } => '@',
        CellState::Safe { flagged: _, open: true } => digit_char(cell.bombs_around as nat),
        CellState::Safe { flagged: true, open: false } => '?',
        CellState::Safe { flagged: false, open: false } => '#',
    }
}

impl Cell {
    /// The cell's display glyph. A cell both flagged and open never occurs
    /// on a well-formed board and is excluded here.
    pub fn glyph(&self) -> (out: &'static str)
        requires
            self.bombs_around <= 9,
            !(self.state matches CellState::Safe { flagged: true, open: true }),
        ensures
            out@ =~= seq![spec_glyph(*self)],
    {
        proof {
            reveal_strlit("^");
            reveal_strlit("@");
            reveal_strlit("?");
            reveal_strlit("#");
            reveal_strlit("0");
            reveal_strlit("1");
            reveal_strlit("2");
            reveal_strlit("3");
            reveal_strlit("4");
            reveal_strlit("5");
            reveal_strlit("6");
            reveal_strlit("7");
            reveal_strlit("8");
            reveal_strlit("9");
        }
        match self.state {
            CellState::Mine { flagged: true } => "^",
            CellState::Mine { flagged: false } => "@",
            CellState::Safe { flagged: true, open: false } => "?",
            CellState::Safe { flagged: false, open: false } => "#",
            CellState::Safe { flagged: _, open: true } => match self.bombs_around {
                0 => "0",
                1 => "1",
                2 => "2",
                3 => "3",
                4 => "4",
                5 => "5",
                6 => "6",
                7 => "7",
                8 => "8",
                _ => "9",
            },
        }
    }
}

} // verus!
