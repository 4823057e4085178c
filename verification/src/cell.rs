//! Grid coordinates: a cell is a pair `(x, y)` of tile counts from the
//! bottom-left corner of the canvas.

use vstd::prelude::*;

verus! {

/// A grid point as a mathematical cell.
pub open spec fn cell_at(p: (i32, i32)) -> (int, int) {
    (p.0 as int, p.1 as int)
}

/// A sequence of grid points as mathematical cells.
pub open spec fn as_cells(points: Seq<(i32, i32)>) -> Seq<(int, int)> {
    Seq::new(points.len(), |i: int| cell_at(points[i]))
}

/// Whether both coordinates of a cell fit `i32`.
pub open spec fn fits_cell(c: (int, int)) -> bool {
    i32::MIN <= c.0 <= i32::MAX && i32::MIN <= c.1 <= i32::MAX
}

/// Distance between two integers.
pub open spec fn dist(a: int, b: int) -> int {
    if a < b {
        b - a
    } else {
        a - b
    }
}

/// Chebyshev distance between two cells.
pub open spec fn chebyshev(a: (int, int), b: (int, int)) -> int {
    if dist(a.0, b.0) < dist(a.1, b.1) {
        dist(a.1, b.1)
    } else {
        dist(a.0, b.0)
    }
}

/// Whether two cells share an edge.
pub open spec fn adjacent(a: (int, int), b: (int, int)) -> bool {
    dist(a.0, b.0) + dist(a.1, b.1) == 1
}

} // verus!
