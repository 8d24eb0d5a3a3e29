//! Grid coordinates and the 8-connected neighborhood.

use vstd::prelude::*;

verus! {

/// Flat cost in feet charged for any single grid step, orthogonal or diagonal.
pub const STEP_FT: i32 = 5;

/// Largest coordinate magnitude a token may occupy.  Keeps every coordinate
/// that a planned move can produce well inside the `i32` range.
pub const MAX_COORD: i32 = 1_200_000_000;

/// Largest movement budget (in feet) the planner accepts.  A budget of this
/// size allows at most `MAX_BUDGET_FT / STEP_FT` steps, so planning from a
/// coordinate within `MAX_COORD` can never overflow an `i32`.
pub const MAX_BUDGET_FT: i32 = 1_000_000_000;

/// An integer 2D grid coordinate.
#[derive(Clone, Copy, PartialEq, Eq, Structural, Debug)]
pub struct GridPos {
    pub x: i32,
    pub y: i32,
}

impl View for GridPos {
    type V = (int, int);

    open spec fn view(&self) -> (int, int) {
        (self.x as int, self.y as int)
    }
}

impl GridPos {
    pub fn new(x: i32, y: i32) -> (p: GridPos)
        ensures
            p@ == (x as int, y as int),
    {
        GridPos { x, y }
    }
}

/// Two coordinates are adjacent when they differ and each axis differs by at
/// most one: the 8-connected neighborhood (4 orthogonal + 4 diagonal).
pub open spec fn adjacent(a: (int, int), b: (int, int)) -> bool {
    &&& a != b
    &&& -1 <= b.0 - a.0 <= 1
    &&& -1 <= b.1 - a.1 <= 1
}

} // verus!
