//! The two-valued state of one cell, with its bit semantics.

use vstd::prelude::*;

verus! {

/// One cell of the automaton: alive or dead.
#[derive(Debug, Clone, Copy, PartialEq, Eq, Structural)]
pub enum CellState {
    Alive,
    Dead,
}

/// The bit a cell contributes to packed encodings and to neighbor sums:
/// an alive cell counts 1, a dead cell counts 0.
pub open spec fn cell_bit(c: CellState) -> nat {
    if c is Alive {
        1
    } else {
        0
    }
}

impl CellState {
    /// True exactly of an alive cell.
    pub fn is_alive(&self) -> (r: bool)
        ensures
            r == (*self is Alive),
    {
        matches!(*self, CellState::Alive)
    }

    /// True exactly of a dead cell.
    pub fn is_dead(&self) -> (r: bool)
        ensures
            r == (*self is Dead),
    {
        matches!(*self, CellState::Dead)
    }

    /// The cell's bit value as a machine integer.
    pub fn bit(&self) -> (r: u64)
        ensures
            r == cell_bit(*self),
    {
        match *self {
            CellState::Alive => 1,
            CellState::Dead => 0,
        }
    }
}

/// Numeric conversion follows the lenient reading of the bit semantics:
/// zero is dead and any nonzero value is alive.
impl From<u64> for CellState {
    fn from(value: u64) -> Self {
        if value == 0 {
            CellState::Dead
        } else {
            CellState::Alive
        }
    }
}

impl vstd::std_specs::convert::FromSpecImpl<u64> for CellState {
    open spec fn obeys_from_spec() -> bool {
        true
    }

    open spec fn from_spec(value: u64) -> CellState {
        if value == 0 {
            CellState::Dead
        } else {
            CellState::Alive
        }
    }
}

/// A boolean converts by truth value: `true` is alive, `false` is dead.
impl From<bool> for CellState {
    fn from(value: bool) -> Self {
        if value {
            CellState::Alive
        } else {
            CellState::Dead
        }
    }
}

impl vstd::std_specs::convert::FromSpecImpl<bool> for CellState {
    open spec fn obeys_from_spec() -> bool {
        true
    }

    open spec fn from_spec(value: bool) -> CellState {
        if value {
            CellState::Alive
        } else {
            CellState::Dead
        }
    }
}

} // verus!
