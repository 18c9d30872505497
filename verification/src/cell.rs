//! Per-lattice-point state: a life-cycle tag plus a live-neighbour counter.

use vstd::prelude::*;

verus! {

/// Life-cycle tag of one cell. `Dying(level)` counts the remaining decay
/// steps before the cell returns to `Empty`; a stored level is always >= 1.
#[derive(Debug, Clone, Copy, PartialEq, Eq, Structural)]
pub enum CellState {
    Empty,
    Alive,
    Dying(u8),
}

/// One lattice point: its life-cycle tag and the number of `Alive` cells
/// among its topology neighbours (always in `[0, 26]` while the grid
/// invariant holds).
#[derive(Debug, Clone, Copy, PartialEq, Eq, Structural)]
pub struct Cell {
    pub state: CellState,
    pub neighbours: u8,
}

impl Cell {
    pub fn increase_neighbours(&mut self)
        requires
            old(self).neighbours < 255,
        ensures
            final(self).state == old(self).state,
            final(self).neighbours == old(self).neighbours + 1,
    {
        self.neighbours = self.neighbours + 1;
    }

    /// Decrement the counter, flooring at zero: an underflow attempt is a
    /// bug signal under the grid invariant, never a wraparound.
    pub fn decrease_neighbours(&mut self)
        ensures
            final(self).state == old(self).state,
            final(self).neighbours == if old(self).neighbours > 0 {
                (old(self).neighbours - 1) as u8
            } else {
                0u8
            },
    {
        if self.neighbours > 0 {
            self.neighbours = self.neighbours - 1;
        }
    }

    /// The visual level of this cell: 0 for `Empty`, `total_states - 1` for
    /// `Alive`, and the decay level itself while `Dying`.
    pub fn get_value(&self, total_states: u8) -> (v: u8)
        requires
            total_states >= 1,
        ensures
            v == match self.state {
                CellState::Empty => 0u8,
                CellState::Alive => (total_states - 1) as u8,
                CellState::Dying(level) => level,
            },
    {
        match self.state {
            CellState::Empty => 0,
            CellState::Alive => total_states - 1,
            CellState::Dying(level) => level,
        }
    }
}

impl Default for Cell {
    /// An `Empty` cell with no live neighbours.
    fn default() -> (c: Cell)
        ensures
            c.state == CellState::Empty,
            c.neighbours == 0u8,
    {
        Cell { state: CellState::Empty, neighbours: 0 }
    }
}

} // verus!
