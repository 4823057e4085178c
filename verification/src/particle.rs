//! A particle of snow and the rules by which one particle moves: falling
//! into a free cell of the row below, and slumping sideways off a pile.

use vstd::prelude::*;
use vstd::seq_lib::*;
use crate::cell::{cell_at, fits_cell};
use crate::chance::shuffle;
use crate::occupancy::OccupancyGrid;

verus! {

/// A particle: the cell it is in and its velocity.
#[derive(Clone, Copy, Debug, PartialEq, Eq)]
pub struct Particle {
    pub px: i32,
    pub py: i32,
    pub vx: i32,
    pub vy: i32,
}

/// Whether a particle may enter cell `c`: the cell can be written as a grid
/// point and is not solid.
pub open spec fn vacant(grid: Set<(int, int)>, c: (int, int)) -> bool {
    fits_cell(c) && !grid.contains(c)
}

/// The three steps sideways that a falling particle may take.
pub open spec fn deltas() -> Seq<i32> {
    seq![-1i32, 0i32, 1i32]
}

/// Whether `order` holds the three steps sideways, each once, in some
/// order.
pub open spec fn is_shuffle(order: Seq<i32>) -> bool {
    order.to_multiset() == deltas().to_multiset()
}

impl Particle {
    /// The cell the particle is in.
    pub open spec fn cell(self) -> (int, int) {
        (self.px as int, self.py as int)
    }

    /// The particle in cell `c`, with its velocity kept.
    pub open spec fn moved_to(self, c: (int, int)) -> Particle {
        Particle { px: c.0 as i32, py: c.1 as i32, vx: self.vx, vy: self.vy }
    }

    /// The cell one row down and `delta` columns to the right.
    pub open spec fn below(self, delta: int) -> (int, int) {
        (self.px + delta, self.py - 1)
    }

    /// The cell into which the particle falls when it tries the steps
    /// sideways in the given order: the cell below for the first step for
    /// which that cell is vacant, or none where no such step is given.
    pub open spec fn landing(self, grid: Set<(int, int)>, order: Seq<i32>) -> Option<(int, int)>
        decreases order.len(),
    {
        if order.len() == 0 {
            None
        } else if vacant(grid, self.below(order[0] as int)) {
            Some(self.below(order[0] as int))
        } else {
            self.landing(grid, order.drop_first())
        }
    }

    /// The particle after it tried to fall.
    pub open spec fn fallen(self, grid: Set<(int, int)>, order: Seq<i32>) -> Particle {
        match self.landing(grid, order) {
            Some(c) => self.moved_to(c),
            None => self,
        }
    }

    /// The grid after the particle tried to fall: its old cell is free and
    /// its new one solid, or nothing has changed.
    pub open spec fn grid_after_fall(self, grid: Set<(int, int)>, order: Seq<i32>) -> Set<(int, int)> {
        match self.landing(grid, order) {
            Some(c) => grid.remove(self.cell()).insert(c),
            None => grid,
        }
    }

    /// The cell into which the particle may slump: it rests on a solid cell
    /// and exactly one of the cells to its left and right is vacant.
    pub open spec fn bump_target(self, grid: Set<(int, int)>) -> Option<(int, int)> {
        let left = (self.px - 1, self.py as int);
        let right = (self.px + 1, self.py as int);
        if !grid.contains(self.below(0)) {
            None
        } else if vacant(grid, left) && !vacant(grid, right) {
            Some(left)
        } else if vacant(grid, right) && !vacant(grid, left) {
            Some(right)
        } else {
            None
        }
    }

    /// The particle after a slump was tried: it moved if it had a cell to
    /// slump into and the draw of chance said so.
    pub open spec fn bumped(self, grid: Set<(int, int)>, coin: bool) -> Particle {
        match self.bump_target(grid) {
            Some(c) => if coin {
                self.moved_to(c)
            } else {
                self
            },
            None => self,
        }
    }

    /// The grid after a slump was tried.
    pub open spec fn grid_after_bump(self, grid: Set<(int, int)>, coin: bool) -> Set<(int, int)> {
        match self.bump_target(grid) {
            Some(c) => if coin {
                grid.remove(self.cell()).insert(c)
            } else {
                grid
            },
            None => grid,
        }
    }

    /// Lets the particle fall: the steps sideways are tried in the given
    /// order, and the particle moves into the cell below for the first of
    /// them for which that cell is vacant. Where none is, it stays.
    pub fn step(&mut self, order: &Vec<i32>, occupied: &mut OccupancyGrid)
        ensures
            *final(self) == old(self).fallen(old(occupied)@, order@),
            final(occupied)@ == old(self).grid_after_fall(old(occupied)@, order@),
    {
        let mut i: usize = 0;
        assert(order@.skip(0) =~= order@);
        while i < order.len()
            invariant
                i <= order@.len(),
                *self == *old(self),
                occupied@ == old(occupied)@,
                self.landing(occupied@, order@) == self.landing(occupied@, order@.skip(i as int)),
            decreases order@.len() - i,
        {
            let delta = order[i];
            proof {
                let rest = order@.skip(i as int);
                assert(rest[0] == delta);
                assert(rest.drop_first() =~= order@.skip(i as int + 1));
            }
            match (self.px.checked_add(delta), self.py.checked_sub(1)) {
                (Some(x), Some(y)) => {
                    if !occupied.contains(&(x, y)) {
                        self.shift(x, y, occupied);
                        return ;
                    }
                },
                _ => {},
            }
            i += 1;
        }
    }

    /// Lets the particle fall, trying the three steps sideways in an order
    /// drawn by chance.
    pub fn update(&mut self, occupied: &mut OccupancyGrid)
        ensures
            exists|order: Seq<i32>|
                {
                    &&& is_shuffle(order)
                    &&& *final(self) == #[trigger] old(self).fallen(old(occupied)@, order)
                    &&& final(occupied)@ == old(self).grid_after_fall(old(occupied)@, order)
                },
    {
        let mut dirs: Vec<i32> = Vec::new();
        dirs.push(-1);
        dirs.push(0);
        dirs.push(1);
        assert(dirs@ =~= deltas());
        shuffle(&mut dirs);
        self.step(&dirs, occupied);
    }

    /// Moves the particle to `(new_x, new_y)`: its old cell becomes free
    /// and its new one solid.
    pub fn shift(&mut self, new_x: i32, new_y: i32, occupied: &mut OccupancyGrid)
        ensures
            *final(self) == old(self).moved_to((new_x as int, new_y as int)),
            final(occupied)@ == old(occupied)@.remove(old(self).cell()).insert((new_x as int, new_y as int)),
    {
        occupied.remove(&(self.px, self.py));
        self.px = new_x;
        self.py = new_y;
        occupied.insert((self.px, self.py));
    }

    /// The cell into which the particle may slump, if there is one.
    pub fn slump_cell(&self, occupied: &OccupancyGrid) -> (target: Option<(i32, i32)>)
        ensures
            match target {
                Some(p) => self.bump_target(occupied@) == Some(cell_at(p)),
                None => self.bump_target(occupied@) is None,
            },
    {
        proof {
            occupied.lemma_cells_fit();
        }
        if self.py == i32::MIN || !occupied.contains(&(self.px, self.py - 1)) {
            return None;
        }
        let left_free = self.px > i32::MIN && !occupied.contains(&(self.px - 1, self.py));
        let right_free = self.px < i32::MAX && !occupied.contains(&(self.px + 1, self.py));
        if left_free && !right_free {
            Some((self.px - 1, self.py))
        } else if right_free && !left_free {
            Some((self.px + 1, self.py))
        } else {
            None
        }
    }

    /// Lets the particle slump where it can and `coin` says so.
    pub fn bump(&mut self, coin: bool, occupied: &mut OccupancyGrid)
        ensures
            *final(self) == old(self).bumped(old(occupied)@, coin),
            final(occupied)@ == old(self).grid_after_bump(old(occupied)@, coin),
    {
        match self.slump_cell(occupied) {
            Some(p) => {
                if coin {
                    self.shift(p.0, p.1, occupied);
                }
            },
            None => {},
        }
    }
}

/// What a fall comes to, whatever the order of the steps: the particle
/// stays where all three cells below it are taken, and else moves into one
/// of them that was vacant.
pub proof fn lemma_fall_outcome(p: Particle, grid: Set<(int, int)>, order: Seq<i32>)
    requires
        is_shuffle(order),
    ensures
        ({
            let q = p.fallen(grid, order);
            let all_taken = !vacant(grid, p.below(-1)) && !vacant(grid, p.below(0)) && !vacant(grid, p.below(1));
            &&& q.vx == p.vx && q.vy == p.vy
            &&& all_taken ==> q == p && p.grid_after_fall(grid, order) == grid
            &&& !all_taken ==> {
                &&& q.py == p.py - 1
                &&& p.px - 1 <= q.px <= p.px + 1
                &&& vacant(grid, q.cell())
                &&& p.grid_after_fall(grid, order) == grid.remove(p.cell()).insert(q.cell())
            }
        }),
{
    order.to_multiset_ensures();
    deltas().to_multiset_ensures();
    assert(deltas().contains(-1i32)) by {
        assert(deltas()[0] == -1i32);
    }
    assert(deltas().contains(0i32)) by {
        assert(deltas()[1] == 0i32);
    }
    assert(deltas().contains(1i32)) by {
        assert(deltas()[2] == 1i32);
    }
    assert forall|d: i32| order.contains(d) <==> deltas().contains(d) by {
        assert(order.to_multiset().count(d) == deltas().to_multiset().count(d));
    }
    lemma_landing(p, grid, order);
    assert(order.contains(-1i32) && order.contains(0i32) && order.contains(1i32));
    let left = choose|i: int| 0 <= i < order.len() && order[i] == -1i32;
    let mid = choose|i: int| 0 <= i < order.len() && order[i] == 0i32;
    let right = choose|i: int| 0 <= i < order.len() && order[i] == 1i32;
    assert(order[left] == -1i32 && order[mid] == 0i32 && order[right] == 1i32);
    match p.landing(grid, order) {
        Some(c) => {
            let i = choose|i: int|
                0 <= i < order.len() && c == p.below(#[trigger] order[i] as int) && vacant(grid, c) && forall|j: int|
                    0 <= j < i ==> !vacant(grid, p.below(#[trigger] order[j] as int));
            assert(order.contains(order[i]));
            assert(deltas().contains(order[i]));
            let k = choose|k: int| 0 <= k < deltas().len() && deltas()[k] == order[i];
            assert(k == 0 || k == 1 || k == 2);
        },
        None => {},
    }
}

/// The landing cell is the cell below for a step of `order` for which that
/// cell is vacant; there is none only where no step of `order` has one.
pub proof fn lemma_landing(p: Particle, grid: Set<(int, int)>, order: Seq<i32>)
    ensures
        match p.landing(grid, order) {
            Some(c) => exists|i: int|
                0 <= i < order.len() && c == p.below(#[trigger] order[i] as int) && vacant(grid, c) && forall|j: int|
                    0 <= j < i ==> !vacant(grid, p.below(#[trigger] order[j] as int)),
            None => forall|i: int| 0 <= i < order.len() ==> !vacant(grid, p.below(#[trigger] order[i] as int)),
        },
    decreases order.len(),
{
    if order.len() > 0 {
        if vacant(grid, p.below(order[0] as int)) {
            assert(0 <= 0 < order.len() && p.below(order[0] as int) == p.below(order[0] as int));
        } else {
            let rest = order.drop_first();
            lemma_landing(p, grid, rest);
            assert forall|i: int| 0 <= i < rest.len() implies rest[i] == order[i + 1] by {}
            match p.landing(grid, rest) {
                Some(c) => {
                    let i = choose|i: int|
                        0 <= i < rest.len() && c == p.below(#[trigger] rest[i] as int) && vacant(grid, c) && forall|
                            j: int,
                        |
                            0 <= j < i ==> !vacant(grid, p.below(#[trigger] rest[j] as int));
                    assert(c == p.below(order[i + 1] as int));
                    assert forall|j: int| 0 <= j < i + 1 implies !vacant(
                        grid,
                        p.below(#[trigger] order[j] as int),
                    ) by {
                        if j > 0 {
                            assert(order[j] == rest[j - 1]);
                        }
                    }
                },
                None => {
                    assert forall|i: int| 0 <= i < order.len() implies !vacant(
                        grid,
                        p.below(#[trigger] order[i] as int),
                    ) by {
                        if i > 0 {
                            assert(order[i] == rest[i - 1]);
                        }
                    }
                },
            }
        }
    }
}

} // verus!
