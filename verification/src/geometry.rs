//! Coordinate generators: the cells of a line between two grid points and
//! of a circle round a grid point, in the order in which they are emitted.

use vstd::prelude::*;
use crate::canvas::lemma_div_window;
use crate::cell::{as_cells, cell_at, chebyshev, dist};

verus! {

/// How far a line has moved along its minor axis after `k` steps along its
/// major axis, when it covers `minor` across `major` steps: the integer
/// nearest to `k * minor / major`, a half rounded down.
pub open spec fn minor_offset(k: int, minor: int, major: int) -> int {
    if major <= 0 {
        0
    } else {
        (2 * k * minor + major - 1) / (2 * major)
    }
}

/// Point `k` of the line that starts at major coordinate `major0` and minor
/// coordinate `minor0` and ends at `major1`, `minor1`. A steep line has `y`
/// as its major axis, a shallow one `x`.
pub open spec fn trace_point(major0: int, minor0: int, major1: int, minor1: int, steep: bool, k: int) -> (
    int,
    int,
) {
    let off = minor_offset(k, dist(minor0, minor1), major1 - major0);
    let minor = if minor1 < minor0 {
        minor0 - off
    } else {
        minor0 + off
    };
    if steep {
        (minor, major0 + k)
    } else {
        (major0 + k, minor)
    }
}

/// The points of a line along its major axis, one for each major coordinate
/// from `major0` to `major1`.
pub open spec fn trace_spec(major0: int, minor0: int, major1: int, minor1: int, steep: bool) -> Seq<(int, int)> {
    Seq::new(
        (major1 - major0 + 1) as nat,
        |k: int| trace_point(major0, minor0, major1, minor1, steep, k),
    )
}

/// The cells of the line between `a` and `b`, both included. A line that is
/// wider than high walks along `x` from its left end, any other along `y`
/// from its lower end.
pub open spec fn line_spec(a: (int, int), b: (int, int)) -> Seq<(int, int)> {
    if dist(a.1, b.1) < dist(a.0, b.0) {
        if a.0 > b.0 {
            trace_spec(b.0, b.1, a.0, a.1, false)
        } else {
            trace_spec(a.0, a.1, b.0, b.1, false)
        }
    } else {
        if a.1 > b.1 {
            trace_spec(b.1, b.0, a.1, a.0, true)
        } else {
            trace_spec(a.1, a.0, b.1, b.0, true)
        }
    }
}

/// How far the point `(x, y)` is from the circle of radius `r` round the
/// origin, measured in squares.
pub open spec fn radius_error_spec(x: int, y: int, r: int) -> int {
    let e = x * x + y * y - r * r;
    if e < 0 {
        -e
    } else {
        e
    }
}

/// The `x` at which the circle of radius `r` is drawn at height `y` in the
/// first octant: it starts at `r` and, from one height to the next, moves
/// one to the left where that brings it nearer the circle.
pub open spec fn rim(r: int, y: int) -> int
    decreases y,
{
    if y <= 0 {
        r
    } else {
        let prev = rim(r, y - 1);
        if radius_error_spec(prev - 1, y, r) < radius_error_spec(prev, y, r) {
            prev - 1
        } else {
            prev
        }
    }
}

/// The number of heights from `y` on at which the rim is still at or right
/// of the diagonal.
pub open spec fn arc_steps(r: int, y: int) -> nat
    decreases r - y + 1,
{
    if y > r || rim(r, y) < y {
        0
    } else {
        1 + arc_steps(r, y + 1)
    }
}

/// The `j`-th of the eight reflections of the offset `(a, b)`.
pub open spec fn reflect(j: int, a: int, b: int) -> (int, int) {
    if j == 0 {
        (a, b)
    } else if j == 1 {
        (b, a)
    } else if j == 2 {
        (-b, a)
    } else if j == 3 {
        (-a, b)
    } else if j == 4 {
        (-a, -b)
    } else if j == 5 {
        (-b, -a)
    } else if j == 6 {
        (b, -a)
    } else {
        (a, -b)
    }
}

/// Point `i` of the circle of radius `r` round `(cx, cy)`: eight points for
/// each height, the rim point and its reflections.
pub open spec fn circle_point(cx: int, cy: int, r: int, i: int) -> (int, int) {
    let step = i / 8;
    let offset = reflect(i % 8, rim(r, step), step);
    (cx + offset.0, cy + offset.1)
}

/// The cells of the circle of radius `r` round `(cx, cy)`, in the order in
/// which they are emitted. A negative radius gives no cell.
pub open spec fn circle_spec(cx: int, cy: int, r: int) -> Seq<(int, int)> {
    Seq::new(8 * arc_steps(r, 0), |i: int| circle_point(cx, cy, r, i))
}

/// Walks a line along its major axis and collects its points. The error
/// term tells after each step whether the line has come nearer to the next
/// minor coordinate than to the present one.
fn trace(major0: i32, minor0: i32, major1: i32, minor1: i32, steep: bool) -> (points: Vec<(i32, i32)>)
    requires
        major0 <= major1,
        dist(minor0 as int, minor1 as int) <= major1 - major0,
    ensures
        as_cells(points@) == trace_spec(major0 as int, minor0 as int, major1 as int, minor1 as int, steep),
{
    let mut points: Vec<(i32, i32)> = Vec::new();
    let major: i64 = major1 as i64 - major0 as i64;
    let falling: bool = minor1 < minor0;
    let minor: i64 = if falling {
        minor0 as i64 - minor1 as i64
    } else {
        minor1 as i64 - minor0 as i64
    };
    let mut delta: i64 = 2 * minor - major;
    let mut at: i64 = minor0 as i64;
    let mut k: i64 = 0;
    let ghost mut steps: int = 0;
    let ghost mut k_minor: int = 0;
    let ghost mut steps_major: int = 0;
    while k <= major
        invariant
            0 <= k <= major + 1,
            major == major1 - major0,
            0 <= minor <= major,
            minor == dist(minor0 as int, minor1 as int),
            falling == (minor1 < minor0),
            points@.len() == k,
            forall|i: int|
                0 <= i < k ==> cell_at(#[trigger] points@[i]) == trace_point(
                    major0 as int,
                    minor0 as int,
                    major1 as int,
                    minor1 as int,
                    steep,
                    i,
                ),
            0 <= steps,
            at == if falling {
                minor0 - steps
            } else {
                minor0 + steps
            },
            k_minor == k * minor,
            steps_major == steps * major,
            delta == 2 * k_minor + 2 * minor - major - 2 * steps_major,
            major > 0 ==> -2 * major < delta - 2 * minor <= 0,
            major == 0 ==> delta == 0 && steps == 0,
        decreases major + 1 - k,
    {
        proof {
            if major > 0 {
                assert(steps * (2 * major) == 2 * steps_major) by (nonlinear_arith)
                    requires
                        steps_major == steps * major,
                ;
                assert(2 * k * minor == 2 * k_minor) by (nonlinear_arith)
                    requires
                        k_minor == k * minor,
                ;
                lemma_div_window(2 * k * minor + major - 1, 2 * major, steps);
                assert(steps <= minor) by (nonlinear_arith)
                    requires
                        2 * steps_major < 2 * k_minor + major,
                        k_minor == k * minor,
                        steps_major == steps * major,
                        0 <= k <= major,
                        0 <= minor,
                        0 < major,
                ;
            }
            assert(steps == minor_offset(k as int, minor as int, major as int));
        }
        let along: i64 = major0 as i64 + k;
        let point: (i32, i32) = if steep {
            (at as i32, along as i32)
        } else {
            (along as i32, at as i32)
        };
        points.push(point);
        if delta > 0 {
            if falling {
                at = at - 1;
            } else {
                at = at + 1;
            }
            delta = delta + 2 * (minor - major);
            proof {
                assert((steps + 1) * major == steps_major + major) by (nonlinear_arith)
                    requires
                        steps_major == steps * major,
                ;
                steps = steps + 1;
                steps_major = steps_major + major;
            }
        } else {
            delta = delta + 2 * minor;
        }
        proof {
            assert((k + 1) * minor == k_minor + minor) by (nonlinear_arith)
                requires
                    k_minor == k * minor,
            ;
            k_minor = k_minor + minor;
        }
        k = k + 1;
    }
    proof {
        assert(as_cells(points@) =~= trace_spec(
            major0 as int,
            minor0 as int,
            major1 as int,
            minor1 as int,
            steep,
        ));
    }
    points
}

/// The points of a line that is wider than high, from its left end.
pub(crate) fn points_line_low(start: (i32, i32), end: (i32, i32)) -> (points: Vec<(i32, i32)>)
    requires
        start.0 <= end.0,
        dist(start.1 as int, end.1 as int) <= end.0 - start.0,
    ensures
        as_cells(points@) == trace_spec(start.0 as int, start.1 as int, end.0 as int, end.1 as int, false),
{
    trace(start.0, start.1, end.0, end.1, false)
}

/// The points of a line that is at least as high as wide, from its lower
/// end.
pub(crate) fn points_line_high(start: (i32, i32), end: (i32, i32)) -> (points: Vec<(i32, i32)>)
    requires
        start.1 <= end.1,
        dist(start.0 as int, end.0 as int) <= end.1 - start.1,
    ensures
        as_cells(points@) == trace_spec(start.1 as int, start.0 as int, end.1 as int, end.0 as int, true),
{
    trace(start.1, start.0, end.1, end.0, true)
}

/// The cells of the line between two grid points, both included, one for
/// each step along the axis on which the line is longer.
pub fn line_points(start: (i32, i32), end: (i32, i32)) -> (points: Vec<(i32, i32)>)
    ensures
        as_cells(points@) == line_spec((start.0 as int, start.1 as int), (end.0 as int, end.1 as int)),
{
    let dx: i64 = end.0 as i64 - start.0 as i64;
    let dy: i64 = end.1 as i64 - start.1 as i64;
    let wide: i64 = if dx < 0 {
        -dx
    } else {
        dx
    };
    let high: i64 = if dy < 0 {
        -dy
    } else {
        dy
    };
    if high < wide {
        if start.0 > end.0 {
            points_line_low(end, start)
        } else {
            points_line_low(start, end)
        }
    } else {
        if start.1 > end.1 {
            points_line_high(end, start)
        } else {
            points_line_high(start, end)
        }
    }
}

/// How far `(x, y)` is from the circle of radius `r` round the origin,
/// measured in squares.
fn radius_error(x: i64, y: i64, r: i64) -> (e: i128)
    requires
        -0x8000_0000 <= x <= 0x8000_0000,
        -0x8000_0000 <= y <= 0x8000_0000,
        -0x8000_0000 <= r <= 0x8000_0000,
    ensures
        e == radius_error_spec(x as int, y as int, r as int),
{
    proof {
        lemma_square_bound(x as int);
        lemma_square_bound(y as int);
        lemma_square_bound(r as int);
    }
    let e: i128 = (x as i128) * (x as i128) + (y as i128) * (y as i128) - (r as i128) * (r as i128);
    if e < 0 {
        -e
    } else {
        e
    }
}

/// The offset `(x, y)` moved to the centre `(cx, cy)`.
fn trans_point(x: i64, y: i64, cx: i32, cy: i32) -> (p: (i32, i32))
    requires
        i32::MIN <= x + cx <= i32::MAX,
        i32::MIN <= y + cy <= i32::MAX,
    ensures
        p.0 == x + cx,
        p.1 == y + cy,
{
    ((x + cx as i64) as i32, (y + cy as i64) as i32)
}

/// The cells of the circle of radius `r` round `(cx, cy)`, eight for each
/// height of the first octant. The circle has to lie within the range of
/// `i32`.
pub fn circle_coords(cx: i32, cy: i32, r: i32) -> (points: Vec<(i32, i32)>)
    requires
        r >= 0 ==> i32::MIN <= cx - r && cx + r <= i32::MAX && i32::MIN <= cy - r && cy + r <= i32::MAX,
    ensures
        as_cells(points@) == circle_spec(cx as int, cy as int, r as int),
{
    let mut xi: i64 = r as i64;
    let mut yi: i64 = 0;
    let mut points: Vec<(i32, i32)> = Vec::new();
    while xi >= yi
        invariant
            0 <= yi,
            xi <= r,
            r >= 0 ==> -1 <= xi && yi <= r + 1,
            xi == rim(r as int, yi as int),
            arc_steps(r as int, 0) == yi + arc_steps(r as int, yi as int),
            r >= 0 ==> i32::MIN <= cx - r && cx + r <= i32::MAX && i32::MIN <= cy - r && cy + r <= i32::MAX,
            points@.len() == 8 * yi,
            forall|i: int|
                0 <= i < points@.len() ==> cell_at(#[trigger] points@[i]) == circle_point(
                    cx as int,
                    cy as int,
                    r as int,
                    i,
                ),
        decreases r - yi + 1,
    {
        let ghost before = points@;
        points.push(trans_point(xi, yi, cx, cy));
        points.push(trans_point(yi, xi, cx, cy));
        points.push(trans_point(-yi, xi, cx, cy));
        points.push(trans_point(-xi, yi, cx, cy));
        points.push(trans_point(-xi, -yi, cx, cy));
        points.push(trans_point(-yi, -xi, cx, cy));
        points.push(trans_point(yi, -xi, cx, cy));
        points.push(trans_point(xi, -yi, cx, cy));
        proof {
            assert forall|i: int| 0 <= i < points@.len() implies cell_at(#[trigger] points@[i])
                == circle_point(cx as int, cy as int, r as int, i) by {
                if i < 8 * yi {
                    assert(points@[i] == before[i]);
                } else {
                    assert(i / 8 == yi as int && i % 8 == i - 8 * yi);
                }
            }
        }
        if radius_error(xi - 1, yi + 1, r as i64) < radius_error(xi, yi + 1, r as i64) {
            xi = xi - 1;
        }
        yi = yi + 1;
    }
    proof {
        assert(as_cells(points@) =~= circle_spec(cx as int, cy as int, r as int));
    }
    points
}

/// A line does not depend on the order in which its two ends are given.
pub proof fn lemma_line_symmetric(a: (int, int), b: (int, int))
    ensures
        line_spec(a, b) == line_spec(b, a),
        line_spec(a, b).to_set() == line_spec(b, a).to_set(),
{
}

/// A line has one cell for each step along its longer side, starts at one
/// of its ends and stops at the other.
pub proof fn lemma_line_ends(a: (int, int), b: (int, int))
    ensures
        line_spec(a, b).len() == 1 + if dist(a.1, b.1) < dist(a.0, b.0) {
            dist(a.0, b.0)
        } else {
            dist(a.1, b.1)
        },
        line_spec(a, b).first() == a && line_spec(a, b).last() == b || line_spec(a, b).first() == b
            && line_spec(a, b).last() == a,
{
    let wide = dist(a.0, b.0);
    let high = dist(a.1, b.1);
    if high < wide {
        lemma_offset_ends(high, wide);
    } else {
        lemma_offset_ends(wide, high);
    }
}

/// A line starts on the minor coordinate of its first end and stops on
/// that of its last.
proof fn lemma_offset_ends(minor: int, major: int)
    requires
        0 <= minor <= major,
    ensures
        minor_offset(0, minor, major) == 0,
        minor_offset(major, minor, major) == minor,
{
    if major > 0 {
        assert(2 * 0 * minor == 0 && 0 * (2 * major) == 0) by (nonlinear_arith);
        assert(minor * (2 * major) == 2 * major * minor) by (nonlinear_arith);
        lemma_div_window(2 * 0 * minor + major - 1, 2 * major, 0);
        lemma_div_window(2 * major * minor + major - 1, 2 * major, minor);
    }
}

/// A line never moves further along its minor axis than its ends are apart.
proof fn lemma_offset_range(k: int, minor: int, major: int)
    requires
        0 <= k <= major,
        0 <= minor <= major,
    ensures
        0 <= minor_offset(k, minor, major) <= minor,
{
    if major > 0 {
        let n = 2 * k * minor + major - 1;
        let q = n / (2 * major);
        lemma_div_window(n, 2 * major, q);
        assert(0 <= n < 2 * (major * minor) + 2 * major) by (nonlinear_arith)
            requires
                n == 2 * k * minor + major - 1,
                0 <= k <= major,
                0 <= minor,
                0 < major,
        ;
        assert(0 <= q <= minor) by (nonlinear_arith)
            requires
                q * (2 * major) <= n < q * (2 * major) + 2 * major,
                0 <= n < 2 * (major * minor) + 2 * major,
                0 < major,
        ;
    }
}

/// Whether `v` lies between `a` and `b`, whichever of them is the larger.
pub open spec fn between(a: int, v: int, b: int) -> bool {
    a <= v <= b || b <= v <= a
}

/// Every cell of a line lies in the rectangle that its two ends span.
pub proof fn lemma_line_in_box(a: (int, int), b: (int, int), i: int)
    requires
        0 <= i < line_spec(a, b).len(),
    ensures
        between(a.0, line_spec(a, b)[i].0, b.0),
        between(a.1, line_spec(a, b)[i].1, b.1),
{
    let wide = dist(a.0, b.0);
    let high = dist(a.1, b.1);
    if high < wide {
        lemma_offset_range(i, high, wide);
    } else {
        lemma_offset_range(i, wide, high);
    }
}

/// Every cell of a circle lies in the square of side twice the radius
/// round its centre.
pub proof fn lemma_circle_in_box(cx: int, cy: int, r: int, i: int)
    requires
        0 <= i < circle_spec(cx, cy, r).len(),
    ensures
        cx - r <= circle_spec(cx, cy, r)[i].0 <= cx + r,
        cy - r <= circle_spec(cx, cy, r)[i].1 <= cy + r,
{
    let step = i / 8;
    lemma_arc_steps(r, 0, step);
    lemma_rim_bound(r, step);
}

/// A circle starts with the four cells that lie one radius from its centre
/// along the axes, among the first eight it emits.
pub proof fn lemma_circle_extremes(cx: int, cy: int, r: int)
    requires
        0 <= r,
    ensures
        circle_spec(cx, cy, r).len() >= 8,
        circle_spec(cx, cy, r)[0] == (cx + r, cy),
        circle_spec(cx, cy, r)[1] == (cx, cy + r),
        circle_spec(cx, cy, r)[3] == (cx - r, cy),
        circle_spec(cx, cy, r)[5] == (cx, cy - r),
{
    assert(arc_steps(r, 0) >= 1);
}

/// The rim never lies right of the radius.
pub proof fn lemma_rim_bound(r: int, y: int)
    ensures
        rim(r, y) <= r,
    decreases y,
{
    if y > 0 {
        lemma_rim_bound(r, y - 1);
    }
}

/// From one height to the next the rim stays or moves one cell to the left.
pub proof fn lemma_rim_step(r: int, y: int)
    requires
        0 <= y,
    ensures
        rim(r, y) - 1 <= rim(r, y + 1) <= rim(r, y),
{
}

/// Every height below the number of steps is drawn, and the height after
/// the last one is not.
proof fn lemma_arc_steps(r: int, y: int, k: int)
    requires
        0 <= y,
        0 <= k < arc_steps(r, y),
    ensures
        y + k <= r,
        y + k <= rim(r, y + k),
        arc_steps(r, y + k) == arc_steps(r, y) - k,
    decreases k,
{
    if k > 0 {
        lemma_arc_steps(r, y, k - 1);
        assert(arc_steps(r, y + k - 1) == 1 + arc_steps(r, y + k - 1 + 1));
    }
    assert(arc_steps(r, y + k) > 0);
    if y + k > r || rim(r, y + k) < y + k {
        assert(arc_steps(r, y + k) == 0);
    }
}

/// By how much the square of the distance of `(x, y)` from the origin is
/// larger than that of the radius.
pub open spec fn excess(x: int, y: int, r: int) -> int {
    x * x + y * y - r * r
}

/// Whether the rim at height `y` is balanced: the circle passes no nearer
/// to the cell on its right, and none nearer to the cell on its left.
spec fn rim_balanced(r: int, y: int) -> bool {
    let a = rim(r, y);
    &&& excess(a, y, r) + excess(a + 1, y, r) >= 0
    &&& a >= 1 ==> excess(a - 1, y, r) + excess(a, y, r) <= 0
}

/// Squares grow with the distance from zero.
proof fn lemma_squares_grow(a: int, b: int)
    requires
        0 <= a <= b,
    ensures
        a * a <= b * b,
{
    assert(a * a <= b * b) by (nonlinear_arith)
        requires
            0 <= a <= b,
    ;
}

/// The rim is balanced at every height that is drawn.
proof fn lemma_rim_balanced(r: int, y: int)
    requires
        0 <= y < arc_steps(r, 0),
    ensures
        rim_balanced(r, y),
        y <= rim(r, y) <= r,
    decreases y,
{
    lemma_arc_steps(r, 0, y);
    lemma_rim_bound(r, y);
    if y == 0 {
        assert(excess(r, 0, r) + excess(r + 1, 0, r) >= 0) by (nonlinear_arith)
            requires
                0 <= r,
        ;
        assert(r >= 1 ==> excess(r - 1, 0, r) + excess(r, 0, r) <= 0) by (nonlinear_arith);
    } else {
        lemma_rim_balanced(r, y - 1);
        let a = rim(r, y - 1);
        let b = rim(r, y);
        assert(excess(a, y, r) == excess(a, y - 1, r) + 2 * y - 1) by (nonlinear_arith);
        assert(excess(a + 1, y, r) == excess(a + 1, y - 1, r) + 2 * y - 1) by (nonlinear_arith);
        assert(excess(a - 1, y, r) == excess(a - 1, y - 1, r) + 2 * y - 1) by (nonlinear_arith);
        assert(excess(a, y, r) - excess(a - 1, y, r) == 2 * a - 1) by (nonlinear_arith);
        assert(excess(a - 1, y, r) - excess(a - 2, y, r) == 2 * a - 3) by (nonlinear_arith);
        if b == a {
            assert(rim_balanced(r, y));
        } else {
            assert(b == a - 1);
            assert(a >= y + 1);
            assert(rim_balanced(r, y));
        }
    }
}

/// At every height that is drawn the rim is the cell of its row that lies
/// nearest to the circle: no cell of the row has a smaller error.
pub proof fn lemma_rim_nearest(r: int, y: int, x: int)
    requires
        0 <= y < arc_steps(r, 0),
    ensures
        radius_error_spec(rim(r, y), y, r) <= radius_error_spec(x, y, r),
{
    lemma_rim_balanced(r, y);
    let a = rim(r, y);
    let far = if x < 0 {
        -x
    } else {
        x
    };
    assert(far * far == x * x) by (nonlinear_arith)
        requires
            far == x || far == -x,
    ;
    assert(excess(far, y, r) == excess(x, y, r));
    assert(excess(a + 1, y, r) - excess(a, y, r) == 2 * a + 1) by (nonlinear_arith);
    assert(excess(a, y, r) - excess(a - 1, y, r) == 2 * a - 1) by (nonlinear_arith);
    if far > a {
        lemma_squares_grow(a + 1, far);
    } else if far < a {
        lemma_squares_grow(far, a - 1);
    }
}

/// Along each octant a circle has no gap: the same reflection of two
/// neighbouring heights gives cells no more than one apart.
pub proof fn lemma_circle_arcs_connected(cx: int, cy: int, r: int, i: int)
    requires
        0 <= i,
        i + 8 < circle_spec(cx, cy, r).len(),
    ensures
        chebyshev(circle_spec(cx, cy, r)[i], circle_spec(cx, cy, r)[i + 8]) <= 1,
{
    let step = i / 8;
    assert((i + 8) / 8 == step + 1 && (i + 8) % 8 == i % 8);
    lemma_rim_step(r, step);
}

/// Neighbouring octants of a circle meet: at the first height the
/// reflections across an axis fall on one cell, and at the last height the
/// reflections across a diagonal are no more than one apart.
pub proof fn lemma_circle_octants_meet(cx: int, cy: int, r: int)
    requires
        0 <= r,
    ensures
        circle_spec(cx, cy, r).len() >= 8,
        ({
            let c = circle_spec(cx, cy, r);
            let last = c.len() - 8;
            &&& c[7] == c[0] && c[1] == c[2] && c[3] == c[4] && c[5] == c[6]
            &&& chebyshev(c[last], c[last + 1]) <= 1
            &&& chebyshev(c[last + 2], c[last + 3]) <= 1
            &&& chebyshev(c[last + 4], c[last + 5]) <= 1
            &&& chebyshev(c[last + 6], c[last + 7]) <= 1
        }),
{
    let n = arc_steps(r, 0) as int;
    assert(n >= 1);
    let l = n - 1;
    lemma_arc_steps(r, 0, l);
    lemma_rim_bound(r, l);
    lemma_rim_step(r, l);
    assert(arc_steps(r, l) == 1);
    assert(arc_steps(r, l + 1) == 0);
    assert(rim(r, l) - l <= 1);
    let c = circle_spec(cx, cy, r);
    let last = c.len() - 8;
    assert(last == 8 * l);
    assert(last / 8 == l && (last + 7) / 8 == l);
    assert(c[last] == circle_point(cx, cy, r, last));
    assert(c[last + 1] == circle_point(cx, cy, r, last + 1));
    assert(c[last + 2] == circle_point(cx, cy, r, last + 2));
    assert(c[last + 3] == circle_point(cx, cy, r, last + 3));
    assert(c[last + 4] == circle_point(cx, cy, r, last + 4));
    assert(c[last + 5] == circle_point(cx, cy, r, last + 5));
    assert(c[last + 6] == circle_point(cx, cy, r, last + 6));
    assert(c[last + 7] == circle_point(cx, cy, r, last + 7));
}

/// A circle of radius at most one is emitted without a jump: each cell is
/// no more than one apart from the cell emitted before it.
pub proof fn lemma_small_circle_connected(cx: int, cy: int, r: int, i: int)
    requires
        r <= 1,
        0 <= i,
        i + 1 < circle_spec(cx, cy, r).len(),
    ensures
        chebyshev(circle_spec(cx, cy, r)[i], circle_spec(cx, cy, r)[i + 1]) <= 1,
{
    reveal_with_fuel(arc_steps, 3);
    reveal_with_fuel(rim, 2);
    assert(r == 0 || r == 1);
    assert(arc_steps(r, 0) == 1);
    assert(i / 8 == 0 && (i + 1) / 8 == 0 && i % 8 == i && (i + 1) % 8 == i + 1);
}

/// The square of a number of 32 bits fits 63 bits.
proof fn lemma_square_bound(v: int)
    requires
        -0x8000_0000 <= v <= 0x8000_0000,
    ensures
        0 <= v * v <= 0x4000_0000_0000_0000,
{
    assert(0 <= v * v <= 0x4000_0000_0000_0000) by (nonlinear_arith)
        requires
            -0x8000_0000 <= v <= 0x8000_0000,
    ;
}

} // verus!
