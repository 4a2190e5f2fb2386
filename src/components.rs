use vstd::prelude::*;

verus! {

/// A cell of the board, by zero-based row and column.
#[derive(Debug, Clone, Copy, PartialEq, Eq, Hash, Structural)]
pub struct CellPosition {
    pub row: usize,
    pub col: usize,
}

/// Whether a cell is alive or dead.
#[derive(Debug, Clone, Copy, PartialEq, Eq, Hash, Structural)]
pub enum CellState {
    Alive,
    Dead,
}

impl CellState {
    /// The state that a boolean stands for: `true` is alive.
    pub open spec fn spec_from_bool(b: bool) -> CellState {
        if b { CellState::Alive } else { CellState::Dead }
    }

    /// The state that `b` stands for.
    pub fn from_bool(b: bool) -> (r: CellState)
        ensures
            r == Self::spec_from_bool(b),
    {
        if b { CellState::Alive } else { CellState::Dead }
    }
}

} // verus!
