//! The drawn size of a board: a grid of fixed-size cells plus one closing
//! border line in each direction.

use vstd::prelude::*;

use crate::board::state::Board;
use crate::board::{BoardBounds, Boardable, Position};

verus! {

/// Width of one drawn cell in terminal columns.
pub const CELL_WIDTH: u16 = 11;

/// Height of one drawn cell in terminal rows.
pub const CELL_HEIGHT: u16 = 6;

/// The drawing measurements of a board.
pub struct BoardUI {
    pub bounds: BoardBounds,
}

impl BoardUI {
    /// The playing area is the standard six-by-seven rectangle.
    pub open spec fn wf(&self) -> bool {
        self.bounds == BoardBounds(Position(0i32, 0i32), Position(5i32, 6i32))
    }

    pub fn new(board: &Board) -> (r: BoardUI)
        requires
            board.wf(),
        ensures
            r.wf(),
            r.bounds == board.bounds,
    {
        BoardUI { bounds: board.bounds() }
    }

    /// Total height of the drawn board in rows.
    pub fn height(&self) -> (r: u16)
        requires
            self.wf(),
        ensures
            r == 7 * CELL_HEIGHT + 1,
    {
        let rows = self.bounds.height();
        (rows as u16) * CELL_HEIGHT + 1
    }

    /// Total width of the drawn board in columns.
    pub fn width(&self) -> (r: u16)
        requires
            self.wf(),
        ensures
            r == 6 * CELL_WIDTH + 1,
    {
        let cols = self.bounds.width();
        (cols as u16) * CELL_WIDTH + 1
    }
}

} // verus!
