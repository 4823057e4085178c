//! Scenery: the solid cells that are laid out before the snow falls.

use vstd::prelude::*;
use crate::canvas::among;
use crate::cell::{as_cells, cell_at};
use crate::geometry::{circle_coords, circle_spec, line_points, line_spec};
use crate::occupancy::OccupancyGrid;

verus! {

/// The cells of the circles round `(cx, cy)` with the radii from `in_rad`
/// to `out_rad`, both included.
pub open spec fn annulus(cx: int, cy: int, in_rad: int, out_rad: int) -> Set<(int, int)> {
    Set::new(
        |c: (int, int)| exists|r: int| in_rad <= r <= out_rad && #[trigger] circle_spec(cx, cy, r).contains(c),
    )
}

/// The cells of the line between `a` and `b`, and with them, where `sloped`
/// is set, those of the same line one row higher.
pub open spec fn thick_line(a: (int, int), b: (int, int), sloped: bool) -> Set<(int, int)> {
    if sloped {
        line_spec(a, b).to_set().union(line_spec((a.0, a.1 + 1), (b.0, b.1 + 1)).to_set())
    } else {
        line_spec(a, b).to_set()
    }
}

/// Makes solid every point of `points`.
fn insert_points(occupied: &mut OccupancyGrid, points: &Vec<(i32, i32)>)
    ensures
        final(occupied)@ == old(occupied)@.union(as_cells(points@).to_set()),
{
    let ghost cells = as_cells(points@);
    let mut i: usize = 0;
    while i < points.len()
        invariant
            i <= points@.len(),
            cells == as_cells(points@),
            forall|c: (int, int)| #[trigger]
                occupied@.contains(c) <==> old(occupied)@.contains(c) || among(cells, i as int, c),
        decreases points@.len() - i,
    {
        let ghost before = occupied@;
        occupied.insert(points[i]);
        proof {
            assert forall|c: (int, int)| #[trigger]
                occupied@.contains(c) <==> old(occupied)@.contains(c) || among(cells, i as int + 1, c) by {
                if among(cells, i as int, c) {
                    let j = choose|j: int| 0 <= j < i && cells[j] == c;
                    assert(0 <= j < i + 1 && cells[j] == c);
                }
                if c == cells[i as int] {
                    assert(0 <= i < i + 1 && cells[i as int] == c);
                }
                if among(cells, i as int + 1, c) {
                    let j = choose|j: int| 0 <= j < i + 1 && cells[j] == c;
                    if j < i {
                        assert(among(cells, i as int, c));
                    }
                }
            }
        }
        i += 1;
    }
    proof {
        assert forall|c: (int, int)|
            occupied@.contains(c) <==> old(occupied)@.union(cells.to_set()).contains(c) by {
            if among(cells, points@.len() as int, c) {
                let j = choose|j: int| 0 <= j < points@.len() && cells[j] == c;
                assert(cells.contains(c));
            }
            if cells.contains(c) {
                let j = choose|j: int| 0 <= j < cells.len() && cells[j] == c;
                assert(among(cells, points@.len() as int, c));
            }
        }
        assert(occupied@ =~= old(occupied)@.union(cells.to_set()));
    }
}

/// Makes solid the cells of every circle round `(center_x, center_y)` with
/// a radius from `in_rad` to `out_rad`. The largest circle has to lie
/// within the range of `i32`.
pub fn add_anulus_points(occupied: &mut OccupancyGrid, center_x: i32, center_y: i32, in_rad: i32, out_rad: i32)
    requires
        in_rad <= out_rad && 0 <= out_rad ==> i32::MIN <= center_x - out_rad && center_x + out_rad <= i32::MAX
            && i32::MIN <= center_y - out_rad && center_y + out_rad <= i32::MAX,
    ensures
        final(occupied)@ == old(occupied)@.union(
            annulus(center_x as int, center_y as int, in_rad as int, out_rad as int),
        ),
{
    let ghost cx = center_x as int;
    let ghost cy = center_y as int;
    let mut r: i64 = in_rad as i64;
    assert(occupied@ =~= old(occupied)@.union(annulus(cx, cy, in_rad as int, r - 1)));
    while r <= out_rad as i64
        invariant
            in_rad <= r,
            r <= out_rad + 1 || r == in_rad,
            cx == center_x,
            cy == center_y,
            in_rad <= out_rad && 0 <= out_rad ==> i32::MIN <= center_x - out_rad && center_x + out_rad <= i32::MAX
                && i32::MIN <= center_y - out_rad && center_y + out_rad <= i32::MAX,
            occupied@ == old(occupied)@.union(annulus(cx, cy, in_rad as int, r - 1)),
        decreases out_rad - r + 1,
    {
        let points = circle_coords(center_x, center_y, r as i32);
        insert_points(occupied, &points);
        proof {
            let ring = circle_spec(cx, cy, r as int);
            assert forall|c: (int, int)|
                annulus(cx, cy, in_rad as int, r as int).contains(c) <==> annulus(
                    cx,
                    cy,
                    in_rad as int,
                    r - 1,
                ).contains(c) || ring.contains(c) by {
                if annulus(cx, cy, in_rad as int, r as int).contains(c) {
                    let q = choose|q: int| in_rad <= q <= r && #[trigger] circle_spec(cx, cy, q).contains(c);
                    if q < r {
                        assert(in_rad <= q <= r - 1 && circle_spec(cx, cy, q).contains(c));
                    }
                }
                if annulus(cx, cy, in_rad as int, r - 1).contains(c) {
                    let q = choose|q: int| in_rad <= q <= r - 1 && #[trigger] circle_spec(cx, cy, q).contains(c);
                    assert(in_rad <= q <= r && circle_spec(cx, cy, q).contains(c));
                }
                if ring.contains(c) {
                    assert(in_rad <= r <= r && circle_spec(cx, cy, r as int).contains(c));
                }
            }
            assert(occupied@ =~= old(occupied)@.union(annulus(cx, cy, in_rad as int, r as int)));
        }
        r = r + 1;
    }
}

/// Makes solid the cells of the line between `start` and `end`, and with
/// them, where `sloped` is set, those of the same line one row higher, so
/// that a particle cannot slip through a slope. A sloped line has to lie
/// below the last row that `i32` can count.
pub fn add_line_points(occupied: &mut OccupancyGrid, start: (i32, i32), end: (i32, i32), sloped: bool)
    requires
        sloped ==> start.1 < i32::MAX && end.1 < i32::MAX,
    ensures
        final(occupied)@ == old(occupied)@.union(thick_line(cell_at(start), cell_at(end), sloped)),
{
    let points = line_points(start, end);
    insert_points(occupied, &points);
    if sloped {
        let points = line_points((start.0, start.1 + 1), (end.0, end.1 + 1));
        insert_points(occupied, &points);
    }
    assert(occupied@ =~= old(occupied)@.union(thick_line(cell_at(start), cell_at(end), sloped)));
}

} // verus!
