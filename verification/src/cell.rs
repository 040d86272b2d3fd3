//! One cell of the dynamic-programming table.

use vstd::prelude::*;

verus! {

/// The least total size that realises some total gain, if any selection does.
#[derive(Clone, Copy, Debug, PartialEq, Eq, Structural)]
pub enum Cell {
    /// No selection reaches the gain.
    Infeasible,
    /// Some selection reaches the gain, and the cheapest one has this size.
    Feasible(u32),
}

/// Adding a size to a cell keeps an infeasible cell infeasible.
pub open spec fn cell_add(c: Option<nat>, a: nat) -> Option<nat> {
    match c {
        None => None,
        Some(b) => Some(a + b),
    }
}

/// The smaller of two cells, where an infeasible cell counts as infinite.
pub open spec fn cell_min(a: Option<nat>, b: Option<nat>) -> Option<nat> {
    match (a, b) {
        (None, _) => b,
        (_, None) => a,
        (Some(x), Some(y)) => Some(if x <= y { x } else { y }),
    }
}

impl View for Cell {
    type V = Option<nat>;

    open spec fn view(&self) -> Option<nat> {
        match *self {
            Cell::Infeasible => None,
            Cell::Feasible(w) => Some(w as nat),
        }
    }
}

impl Cell {
    /// Adds `a` to the size held by a feasible cell.
    pub fn add(self, a: u32) -> (r: Cell)
        requires
            self matches Cell::Feasible(b) ==> a + b <= u32::MAX,
        ensures
            r@ == cell_add(self@, a as nat),
    {
        match self {
            Cell::Infeasible => Cell::Infeasible,
            Cell::Feasible(b) => Cell::Feasible(a + b),
        }
    }

    /// Keeps the cheaper of two cells.
    pub fn min(self, other: Cell) -> (r: Cell)
        ensures
            r@ == cell_min(self@, other@),
    {
        match (self, other) {
            (Cell::Infeasible, _) => other,
            (_, Cell::Infeasible) => self,
            (Cell::Feasible(a), Cell::Feasible(b)) => Cell::Feasible(if a <= b { a } else { b }),
        }
    }
}

} // verus!
