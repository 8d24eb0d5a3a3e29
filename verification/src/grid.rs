//! The grid: a fixed-size square array of cells with per-cell blocked and
//! walkable flags and an optional occupant.
//!
//! Storage is an `array2d::Array2D`, held behind trusted wrappers.  Access is
//! bounds-checked; an out-of-range coordinate yields "absent", never a panic.

use vstd::prelude::*;

use crate::pos::GridPos;
use crate::token::EntityId;

verus! {

/// One cell of the grid.  `blocked` and `walkable` are authored
/// independently by world generation; the planner treats `blocked == true`
/// as impassable regardless of `walkable`.
#[derive(Clone, Copy, Debug)]
pub struct GridCell {
    pub blocked: bool,
    pub walkable: bool,
    pub entity: Option<EntityId>,
}

impl Default for GridCell {
    fn default() -> (c: GridCell)
        ensures
            !c.blocked,
            !c.walkable,
            c.entity is None,
    {
        GridCell { blocked: false, walkable: false, entity: None }
    }
}

#[verifier::external_type_specification]
#[verifier::external_body]
#[verifier::reject_recursive_types(T)]
pub struct ExArray2D<T>(array2d::Array2D<T>);

/// What the array holds: the in-bounds (row, column) pairs mapped to their
/// elements.
pub uninterp spec fn array2d_cells(a: array2d::Array2D<GridCell>) -> Map<
    (int, int),
    GridCell,
>;

/// Relies on array2d::Array2D::filled_with: builds a rows x cols array that
/// holds a clone of `element` at every in-bounds position.
#[verifier::external_body]
fn cells_filled(element: GridCell, rows: usize, cols: usize) -> (a: array2d::Array2D<
    GridCell,
>)
    requires
        rows * cols <= usize::MAX,
    ensures
        forall|p: (int, int)|
            #[trigger] array2d_cells(a).dom().contains(p) <==> (0 <= p.0 < rows
                && 0 <= p.1 < cols),
        forall|p: (int, int)|
            array2d_cells(a).dom().contains(p) ==> #[trigger] array2d_cells(a)[p]
                == element,
{
    array2d::Array2D::filled_with(element, rows, cols)
}

/// Relies on array2d::Array2D::get: Some of the element at (row, col) when
/// both indices are in bounds, None otherwise.
#[verifier::external_body]
fn cells_get(a: &array2d::Array2D<GridCell>, row: usize, col: usize) -> (r: Option<
    GridCell,
>)
    ensures
        r == if array2d_cells(*a).dom().contains((row as int, col as int)) {
            Some(array2d_cells(*a)[(row as int, col as int)])
        } else {
            None::<GridCell>
        },
{
    a.get(row, col).copied()
}

/// Relies on array2d::Array2D::set: overwrites the element at (row, col) and
/// returns Ok when in bounds, returns Err and leaves the array unchanged
/// otherwise.
#[verifier::external_body]
fn cells_set(
    a: &mut array2d::Array2D<GridCell>,
    row: usize,
    col: usize,
    element: GridCell,
) -> (ok: bool)
    ensures
        ok == array2d_cells(*old(a)).dom().contains((row as int, col as int)),
        array2d_cells(*final(a)) == if ok {
            array2d_cells(*old(a)).insert((row as int, col as int), element)
        } else {
            array2d_cells(*old(a))
        },
{
    a.set(row, col, element).is_ok()
}

/// Does this map (a grid view) report the coordinate blocked?  Absent cells
/// are not blocked.
pub open spec fn blocked_at(g: Map<(int, int), GridCell>, p: (int, int)) -> bool {
    g.dom().contains(p) && g[p].blocked
}

/// Does this map report the coordinate walkable?  Absent cells are not.
pub open spec fn walkable_at(g: Map<(int, int), GridCell>, p: (int, int)) -> bool {
    g.dom().contains(p) && g[p].walkable
}

/// A `size` x `size` grid of cells.
pub struct Grid {
    size: usize,
    cells: array2d::Array2D<GridCell>,
}

impl View for Grid {
    type V = Map<(int, int), GridCell>;

    closed spec fn view(&self) -> Map<(int, int), GridCell> {
        array2d_cells(self.cells)
    }
}

impl Grid {
    pub closed spec fn spec_size(self) -> int {
        self.size as int
    }

    /// The view holds exactly the in-bounds coordinates.
    pub open spec fn wf(self) -> bool {
        forall|p: (int, int)|
            #[trigger] self@.dom().contains(p) <==> (0 <= p.0 < self.spec_size()
                && 0 <= p.1 < self.spec_size())
    }

    pub fn new(size: usize) -> (g: Grid)
        requires
            size * size <= usize::MAX,
        ensures
            g.wf(),
            g.spec_size() == size,
            forall|p: (int, int)|
                g@.dom().contains(p) ==> (#[trigger] g@[p]) == (GridCell {
                    blocked: false,
                    walkable: false,
                    entity: None,
                }),
    {
        let empty = GridCell { blocked: false, walkable: false, entity: None };
        Grid { size, cells: cells_filled(empty, size, size) }
    }

    pub fn size(&self) -> (s: usize)
        ensures
            s == self.spec_size(),
    {
        self.size
    }

    /// Bounds-checked access; absent on out-of-range (including negative)
    /// coordinates.
    pub fn get(&self, i: GridPos) -> (r: Option<GridCell>)
        requires
            self.wf(),
        ensures
            r == if self@.dom().contains(i@) {
                Some(self@[i@])
            } else {
                None::<GridCell>
            },
    {
        if i.x >= 0 && i.y >= 0 {
            cells_get(&self.cells, i.x as usize, i.y as usize)
        } else {
            None
        }
    }

    /// Overwrite the cell at `i`; reports whether `i` was in bounds.
    pub fn set(&mut self, i: GridPos, cell: GridCell) -> (ok: bool)
        requires
            old(self).wf(),
        ensures
            final(self).wf(),
            final(self).spec_size() == old(self).spec_size(),
            ok == old(self)@.dom().contains(i@),
            final(self)@ == if ok {
                old(self)@.insert(i@, cell)
            } else {
                old(self)@
            },
    {
        if i.x >= 0 && i.y >= 0 {
            let ok = cells_set(&mut self.cells, i.x as usize, i.y as usize, cell);
            proof {
                if ok {
                    assert(self@.dom() =~= old(self)@.dom());
                    assert(self@ =~= old(self)@.insert(i@, cell));
                } else {
                    assert(self@ == old(self)@);
                }
                assert(self.wf());
            }
            ok
        } else {
            false
        }
    }

    /// False if the coordinate is absent or the cell is not blocked.
    pub fn is_blocked(&self, i: GridPos) -> (r: bool)
        requires
            self.wf(),
        ensures
            r == blocked_at(self@, i@),
    {
        match self.get(i) {
            Some(cell) => cell.blocked,
            None => false,
        }
    }

    /// False if the coordinate is absent or the cell is not walkable.
    pub fn is_walkable(&self, i: GridPos) -> (r: bool)
        requires
            self.wf(),
        ensures
            r == walkable_at(self@, i@),
    {
        match self.get(i) {
            Some(cell) => cell.walkable,
            None => false,
        }
    }
}

} // verus!
