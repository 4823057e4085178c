//! Flood fill: painting the region of free cells that can be walked from a
//! seed cell without crossing a solid cell or leaving the canvas.

use vstd::prelude::*;
use vstd::arithmetic::div_mod::lemma_fundamental_div_mod;
use vstd::arithmetic::div_mod::lemma_fundamental_div_mod_converse;
use vstd::relations::injective_on;
use vstd::set_lib::{lemma_int_range, lemma_len_subset, lemma_map_size, set_int_range};
use crate::canvas::{Canvas, CanvasError};
use crate::cell::{adjacent, cell_at};
use crate::occupancy::OccupancyGrid;

verus! {

/// The cells of a grid of `cols` columns and `rows` rows.
pub open spec fn grid_cells(cols: int, rows: int) -> Set<(int, int)> {
    Set::new(|c: (int, int)| 0 <= c.0 < cols && 0 <= c.1 < rows)
}

/// Whether `c` is one of the cells that wait on the work stack.
pub open spec fn pending(stack: Seq<(i32, i32)>, c: (int, int)) -> bool {
    exists|k: int| 0 <= k < stack.len() && cell_at(#[trigger] stack[k]) == c
}

impl Canvas {
    /// Whether a fill may enter `c`: its tile lies on the canvas and the
    /// cell is not solid.
    pub open spec fn open_cell(self, solid: Set<(int, int)>, c: (int, int)) -> bool {
        self.in_grid(c.0, c.1) && !solid.contains(c)
    }

    /// Whether `walk` is a walk through open cells: it has a first cell,
    /// every cell of it is open, and each shares an edge with the next.
    pub open spec fn is_walk(self, solid: Set<(int, int)>, walk: Seq<(int, int)>) -> bool {
        &&& walk.len() > 0
        &&& forall|i: int| 0 <= i < walk.len() ==> self.open_cell(solid, #[trigger] walk[i])
        &&& forall|i: int| 0 <= i < walk.len() - 1 ==> adjacent(#[trigger] walk[i], walk[i + 1])
    }

    /// Whether a walk through open cells leads from `seed` to `c`.
    pub open spec fn reaches(self, solid: Set<(int, int)>, seed: (int, int), c: (int, int)) -> bool {
        exists|walk: Seq<(int, int)>| #[trigger] self.is_walk(solid, walk) && walk[0] == seed && walk.last() == c
    }

    /// The cells that a fill from `seed` paints: those to which a walk
    /// through open cells leads from `seed`.
    pub open spec fn region(self, solid: Set<(int, int)>, seed: (int, int)) -> Set<(int, int)> {
        Set::new(|c: (int, int)| self.reaches(solid, seed, c))
    }

    /// Paints the region of open cells round `(sx, sy)` in `color` and
    /// returns its cells. `occupied` bounds the region and stays as it is.
    /// Nothing is written unless `frame` has the canvas's size.
    pub fn fill(&self, frame: &mut [u8], sx: i32, sy: i32, occupied: &OccupancyGrid, color: [u8; 4]) -> (res: Result<
        OccupancyGrid,
        CanvasError,
    >)
        ensures
            res is Ok <==> old(frame)@.len() == self.frame_len(),
            res is Ok ==> res->Ok_0@ == self.region(occupied@, (sx as int, sy as int)) && final(frame)@
                == self.painted(old(frame)@, self.region(occupied@, (sx as int, sy as int)), color@),
            res is Err ==> res == Err::<OccupancyGrid, CanvasError>(CanvasError::OutOfBounds) && final(frame)@
                == old(frame)@,
    {
        if !self.fits(frame) {
            return Err(CanvasError::OutOfBounds);
        }
        let cols = self.max_grid_x();
        let rows = self.max_grid_y();
        let ghost seed = (sx as int, sy as int);
        let ghost solid = occupied@;
        let ghost area = (cols as int) * (rows as int);
        let mut stack: Vec<(i32, i32)> = Vec::new();
        let mut visited = OccupancyGrid::new();
        stack.push((sx, sy));
        proof {
            lemma_grid_size(cols as int, rows as int);
            assert(cell_at(stack@[0]) == seed);
            if self.open_cell(solid, seed) {
                self.lemma_reaches_self(solid, seed);
            }
            assert(frame@ =~= self.painted(old(frame)@, visited@, color@));
        }
        while stack.len() > 0
            invariant
                self.wf(),
                cols == self.spec_max_grid_x(),
                rows == self.spec_max_grid_y(),
                0 < cols <= i32::MAX,
                0 < rows <= i32::MAX,
                area == cols * rows,
                grid_cells(cols as int, rows as int).finite(),
                grid_cells(cols as int, rows as int).len() == area,
                solid == occupied@,
                seed == (sx as int, sy as int),
                frame@.len() == self.frame_len(),
                frame@ == self.painted(old(frame)@, visited@, color@),
                visited@.finite(),
                forall|c: (int, int)| #[trigger] visited@.contains(c) ==> self.reaches(solid, seed, c),
                forall|k: int|
                    0 <= k < stack@.len() && self.open_cell(solid, cell_at(#[trigger] stack@[k])) ==> self.reaches(
                        solid,
                        seed,
                        cell_at(stack@[k]),
                    ),
                self.open_cell(solid, seed) ==> visited@.contains(seed) || pending(stack@, seed),
                forall|v: (int, int), n: (int, int)|
                    visited@.contains(v) && #[trigger] adjacent(v, n) && self.open_cell(solid, n) ==> visited@.contains(n)
                        || pending(stack@, n),
            decreases 5 * (area - visited@.len()) + stack@.len(),
        {
            proof {
                self.lemma_region_on_canvas(solid, seed);
                assert(visited@.subset_of(grid_cells(cols as int, rows as int)));
                lemma_len_subset(visited@, grid_cells(cols as int, rows as int));
            }
            let ghost before = stack@;
            let ghost painted = visited@;
            let cell = stack.pop().unwrap();
            let x = cell.0;
            let y = cell.1;
            let ghost c = cell_at(cell);
            let ghost base = stack@;
            assert(before[before.len() - 1] == cell);
            assert forall|n: (int, int)| pending(before, n) implies pending(base, n) || n == c by {
                let k = choose|k: int| 0 <= k < before.len() && cell_at(#[trigger] before[k]) == n;
                if k < base.len() {
                    assert(cell_at(base[k]) == n);
                }
            }
            if self.in_bounds(cell) && !occupied.contains(&cell) && !visited.contains(&cell) {
                let ghost prev = frame@;
                let drawn = self.draw_tile(frame, x as usize, y as usize, color);
                visited.insert(cell);
                proof {
                    assert(drawn is Ok);
                    assert(frame@ =~= self.painted(old(frame)@, visited@, color@));
                    assert(self.open_cell(solid, c));
                    assert(self.reaches(solid, seed, c));
                    assert(visited@.insert(c) == visited@);
                    assert(visited@.subset_of(grid_cells(cols as int, rows as int))) by {
                        assert forall|d: (int, int)| visited@.contains(d) implies grid_cells(
                            cols as int,
                            rows as int,
                        ).contains(d) by {
                            if d != c {
                                assert(painted.contains(d));
                            }
                        }
                    }
                    lemma_len_subset(visited@, grid_cells(cols as int, rows as int));
                }
                if x > 0 {
                    stack.push((x - 1, y));
                }
                let ghost west = stack@;
                if x + 1 < cols as i32 {
                    stack.push((x + 1, y));
                }
                let ghost east = stack@;
                if y > 0 {
                    stack.push((x, y - 1));
                }
                let ghost south = stack@;
                if y + 1 < rows as i32 {
                    stack.push((x, y + 1));
                }
                proof {
                    let last = stack@;
                    assert forall|k: int| 0 <= k < base.len() implies last[k] == base[k] by {}
                    assert forall|n: (int, int)| pending(base, n) implies pending(last, n) by {
                        let k = choose|k: int| 0 <= k < base.len() && cell_at(#[trigger] base[k]) == n;
                        assert(cell_at(last[k]) == n);
                    }
                    assert forall|n: (int, int)| adjacent(c, n) && self.open_cell(solid, n) implies pending(
                        last,
                        n,
                    ) by {
                        if n == (x - 1, y as int) {
                            assert(west[base.len() as int] == (((x - 1) as i32, y)));
                            assert(cell_at(last[base.len() as int]) == n);
                        } else if n == (x + 1, y as int) {
                            assert(east[east.len() - 1] == (((x + 1) as i32, y)));
                            assert(cell_at(last[east.len() - 1]) == n);
                        } else if n == (x as int, y - 1) {
                            assert(south[south.len() - 1] == ((x, (y - 1) as i32)));
                            assert(cell_at(last[south.len() - 1]) == n);
                        } else {
                            assert(n == (x as int, y + 1));
                            assert(cell_at(last[last.len() - 1]) == n);
                        }
                    }
                    assert forall|k: int|
                        0 <= k < last.len() && self.open_cell(solid, cell_at(#[trigger] last[k])) implies self.reaches(
                        solid,
                        seed,
                        cell_at(last[k]),
                    ) by {
                        if k >= base.len() {
                            assert(adjacent(c, cell_at(last[k])));
                            self.lemma_reaches_next(solid, seed, c, cell_at(last[k]));
                        }
                    }
                    assert forall|v: (int, int), n: (int, int)|
                        visited@.contains(v) && #[trigger] adjacent(v, n) && self.open_cell(solid, n) implies visited@.contains(
                        n,
                    ) || pending(last, n) by {
                        if v != c {
                            assert(painted.contains(v));
                            assert(painted.contains(n) || pending(before, n));
                        }
                    }
                    assert(stack@.len() <= base.len() + 4);
                }
            } else {
                proof {
                    assert(!self.open_cell(solid, c) || visited@.contains(c));
                }
            }
        }
        proof {
            self.lemma_closed_region(solid, seed, visited@);
        }
        Ok(visited)
    }

    /// A cell that is open is reached from itself.
    pub proof fn lemma_reaches_self(self, solid: Set<(int, int)>, seed: (int, int))
        requires
            self.open_cell(solid, seed),
        ensures
            self.reaches(solid, seed, seed),
    {
        let walk = seq![seed];
        assert(self.is_walk(solid, walk) && walk[0] == seed && walk.last() == seed);
    }

    /// A walk goes on into any open cell that shares an edge with its end.
    pub proof fn lemma_reaches_next(self, solid: Set<(int, int)>, seed: (int, int), c: (int, int), n: (int, int))
        requires
            self.reaches(solid, seed, c),
            adjacent(c, n),
            self.open_cell(solid, n),
        ensures
            self.reaches(solid, seed, n),
    {
        let walk = choose|walk: Seq<(int, int)>|
            #[trigger] self.is_walk(solid, walk) && walk[0] == seed && walk.last() == c;
        let longer = walk.push(n);
        assert forall|i: int| 0 <= i < longer.len() implies self.open_cell(solid, #[trigger] longer[i]) by {
            if i < walk.len() {
                assert(longer[i] == walk[i]);
            }
        }
        assert forall|i: int| 0 <= i < longer.len() - 1 implies adjacent(#[trigger] longer[i], longer[i + 1]) by {
            if i < walk.len() - 1 {
                assert(longer[i] == walk[i] && longer[i + 1] == walk[i + 1]);
            }
        }
        assert(self.is_walk(solid, longer) && longer[0] == seed && longer.last() == n);
    }

    /// Every cell of a region is open, and so lies on the canvas.
    pub proof fn lemma_region_on_canvas(self, solid: Set<(int, int)>, seed: (int, int))
        ensures
            forall|c: (int, int)| #[trigger] self.reaches(solid, seed, c) ==> self.open_cell(solid, c),
            self.region(solid, seed).subset_of(grid_cells(self.spec_max_grid_x(), self.spec_max_grid_y())),
    {
        assert forall|c: (int, int)| #[trigger] self.reaches(solid, seed, c) implies self.open_cell(solid, c) by {
            let walk = choose|walk: Seq<(int, int)>|
                #[trigger] self.is_walk(solid, walk) && walk[0] == seed && walk.last() == c;
            assert(self.open_cell(solid, walk[walk.len() - 1]));
        }
    }

    /// A set of reached cells that holds the seed, if that is open, and with
    /// each cell its open neighbours, is the whole region.
    proof fn lemma_closed_region(self, solid: Set<(int, int)>, seed: (int, int), cells: Set<(int, int)>)
        requires
            forall|c: (int, int)| #[trigger] cells.contains(c) ==> self.reaches(solid, seed, c),
            self.open_cell(solid, seed) ==> cells.contains(seed),
            forall|v: (int, int), n: (int, int)|
                cells.contains(v) && #[trigger] adjacent(v, n) && self.open_cell(solid, n) ==> cells.contains(n),
        ensures
            cells == self.region(solid, seed),
    {
        assert forall|c: (int, int)| self.reaches(solid, seed, c) implies cells.contains(c) by {
            let walk = choose|walk: Seq<(int, int)>|
                #[trigger] self.is_walk(solid, walk) && walk[0] == seed && walk.last() == c;
            self.lemma_walk_stays(solid, cells, walk, walk.len() - 1);
        }
        assert(cells =~= self.region(solid, seed));
    }

    /// A walk that starts in a set which holds with each cell its open
    /// neighbours never leaves that set.
    proof fn lemma_walk_stays(self, solid: Set<(int, int)>, cells: Set<(int, int)>, walk: Seq<(int, int)>, i: int)
        requires
            self.is_walk(solid, walk),
            self.open_cell(solid, walk[0]) ==> cells.contains(walk[0]),
            forall|v: (int, int), n: (int, int)|
                cells.contains(v) && #[trigger] adjacent(v, n) && self.open_cell(solid, n) ==> cells.contains(n),
            0 <= i < walk.len(),
        ensures
            cells.contains(walk[i]),
        decreases i,
    {
        if i > 0 {
            self.lemma_walk_stays(solid, cells, walk, i - 1);
            assert(adjacent(walk[i - 1], walk[i - 1 + 1]));
        }
    }

    /// Filling a region that is solid already paints nothing: once the
    /// cells of a region have been made solid, the region round the same
    /// seed is empty, as is that round any seed that is not open.
    pub proof fn lemma_fill_idempotent(self, solid: Set<(int, int)>, seed: (int, int))
        ensures
            self.region(solid.union(self.region(solid, seed)), seed) == Set::<(int, int)>::empty(),
            !self.open_cell(solid, seed) ==> self.region(solid, seed) == Set::<(int, int)>::empty(),
    {
        let merged = solid.union(self.region(solid, seed));
        if self.open_cell(solid, seed) {
            self.lemma_reaches_self(solid, seed);
            assert(self.region(solid, seed).contains(seed));
        }
        assert(!self.open_cell(merged, seed));
        self.lemma_region_starts_open(merged, seed);
        self.lemma_region_starts_open(solid, seed);
    }

    /// A region round a seed that is not open is empty.
    proof fn lemma_region_starts_open(self, solid: Set<(int, int)>, seed: (int, int))
        ensures
            !self.open_cell(solid, seed) ==> self.region(solid, seed) == Set::<(int, int)>::empty(),
    {
        if !self.open_cell(solid, seed) {
            assert forall|c: (int, int)| !self.reaches(solid, seed, c) by {
                if self.reaches(solid, seed, c) {
                    let walk = choose|walk: Seq<(int, int)>|
                        #[trigger] self.is_walk(solid, walk) && walk[0] == seed && walk.last() == c;
                    assert(self.open_cell(solid, walk[0]));
                }
            }
            assert(self.region(solid, seed) =~= Set::<(int, int)>::empty());
        }
    }
}

/// A grid of `cols` columns and `rows` rows has `cols * rows` cells.
pub proof fn lemma_grid_size(cols: int, rows: int)
    requires
        0 < cols,
        0 < rows,
    ensures
        grid_cells(cols, rows).finite(),
        grid_cells(cols, rows).len() == cols * rows,
{
    let area = cols * rows;
    assert(area > 0) by (nonlinear_arith)
        requires
            area == cols * rows,
            0 < cols,
            0 < rows,
    ;
    let numbers = set_int_range(0, area);
    lemma_int_range(0, area);
    let f = |k: int| (k % cols, k / cols);
    assert forall|a: int, b: int|
        numbers.contains(a) && numbers.contains(b) && #[trigger] f(a) == #[trigger] f(b) implies a == b by {
        lemma_fundamental_div_mod(a, cols);
        lemma_fundamental_div_mod(b, cols);
    }
    assert(injective_on(f, numbers));
    assert forall|c: (int, int)| grid_cells(cols, rows).contains(c) <==> numbers.map(f).contains(c) by {
        if grid_cells(cols, rows).contains(c) {
            let k = c.1 * cols + c.0;
            lemma_fundamental_div_mod_converse(k, cols, c.1, c.0);
            assert(0 <= k < area) by (nonlinear_arith)
                requires
                    k == c.1 * cols + c.0,
                    0 <= c.0 < cols,
                    0 <= c.1 < rows,
                    area == cols * rows,
            ;
            assert(numbers.contains(k) && f(k) == c);
        }
        if numbers.map(f).contains(c) {
            let k = choose|k: int| numbers.contains(k) && f(k) == c;
            lemma_fundamental_div_mod(k, cols);
            assert(0 <= k / cols < rows && 0 <= k % cols < cols) by (nonlinear_arith)
                requires
                    0 <= k < cols * rows,
                    0 < cols,
                    k == cols * (k / cols) + k % cols,
                    0 <= k % cols < cols,
            ;
        }
    }
    assert(numbers.map(f) =~= grid_cells(cols, rows));
    lemma_map_size(numbers, grid_cells(cols, rows), f);
}

} // verus!
