//! One tick of the snow: every particle tries to fall, then every particle
//! that rests on something may slump sideways.

use vstd::prelude::*;
use crate::canvas::{Canvas, CanvasError};
use crate::cell::{as_cells, cell_at};
use crate::chance::chance;
use crate::occupancy::OccupancyGrid;
use crate::particle::{is_shuffle, lemma_fall_outcome, lemma_landing, vacant, Particle};

verus! {

/// The chance that a particle that can slump does so in one tick is three
/// in twenty: this is the three.
pub const BUMP_CHANCE_NUMERATOR: u32 = 3;

/// The twenty of the chance of three in twenty.
pub const BUMP_CHANCE_DENOMINATOR: u32 = 20;

/// What holds of particles and grid between ticks: every particle lies in
/// a solid cell, and no two particles lie in the same cell.
pub open spec fn settled(queue: Seq<Particle>, grid: Set<(int, int)>) -> bool {
    &&& forall|i: int| 0 <= i < queue.len() ==> grid.contains(#[trigger] queue[i].cell())
    &&& forall|i: int, j: int|
        0 <= i < j < queue.len() ==> #[trigger] queue[i].cell() != #[trigger] queue[j].cell()
}

/// Whether the snow is walled in on a grid of `cols` columns and `rows`
/// rows: every solid cell lies on the grid, every cell on the border of the
/// grid is solid, and every particle lies on the grid and off its border.
pub open spec fn walled_in(queue: Seq<Particle>, grid: Set<(int, int)>, cols: int, rows: int) -> bool {
    &&& forall|c: (int, int)| #[trigger] grid.contains(c) ==> 0 <= c.0 < cols && 0 <= c.1 < rows
    &&& forall|c: (int, int)|
        0 <= c.0 < cols && 0 <= c.1 < rows && (c.0 == 0 || c.0 == cols - 1 || c.1 == 0 || c.1 == rows - 1)
            ==> #[trigger] grid.contains(c)
    &&& forall|i: int|
        0 <= i < queue.len() ==> 0 < (#[trigger] queue[i]).px < cols - 1 && 0 < queue[i].py < rows - 1
}

/// The cells of the particles, in their order.
pub open spec fn cells_of(queue: Seq<Particle>) -> Seq<(int, int)> {
    Seq::new(queue.len(), |i: int| queue[i].cell())
}

/// Particles and grid after the first `n` particles tried to fall, one
/// after the other, particle `i` with the steps sideways in the order
/// `orders[i]`.
pub open spec fn fall_pass(queue: Seq<Particle>, grid: Set<(int, int)>, orders: Seq<Seq<i32>>, n: nat) -> (
    Seq<Particle>,
    Set<(int, int)>,
)
    decreases n,
{
    if n == 0 {
        (queue, grid)
    } else {
        let before = fall_pass(queue, grid, orders, (n - 1) as nat);
        let p = before.0[n - 1];
        (before.0.update(n - 1, p.fallen(before.1, orders[n - 1])), p.grid_after_fall(before.1, orders[n - 1]))
    }
}

/// Particles and grid after a slump was tried for the first `n`
/// particles, one after the other, for particle `i` with the draw
/// `coins[i]`.
pub open spec fn bump_pass(queue: Seq<Particle>, grid: Set<(int, int)>, coins: Seq<bool>, n: nat) -> (
    Seq<Particle>,
    Set<(int, int)>,
)
    decreases n,
{
    if n == 0 {
        (queue, grid)
    } else {
        let before = bump_pass(queue, grid, coins, (n - 1) as nat);
        let p = before.0[n - 1];
        (before.0.update(n - 1, p.bumped(before.1, coins[n - 1])), p.grid_after_bump(before.1, coins[n - 1]))
    }
}

/// Particles and grid after one tick: a pass of falls over all particles,
/// then a pass of slumps over all of them.
pub open spec fn tick_pass(queue: Seq<Particle>, grid: Set<(int, int)>, orders: Seq<Seq<i32>>, coins: Seq<bool>) -> (
    Seq<Particle>,
    Set<(int, int)>,
) {
    let fallen = fall_pass(queue, grid, orders, queue.len());
    bump_pass(fallen.0, fallen.1, coins, queue.len())
}

/// A particle that moves into a vacant cell leaves particles and grid
/// settled.
proof fn lemma_move_keeps_settled(queue: Seq<Particle>, grid: Set<(int, int)>, i: int, c: (int, int))
    requires
        settled(queue, grid),
        0 <= i < queue.len(),
        vacant(grid, c),
    ensures
        settled(queue.update(i, queue[i].moved_to(c)), grid.remove(queue[i].cell()).insert(c)),
{
    let after = queue.update(i, queue[i].moved_to(c));
    let solid = grid.remove(queue[i].cell()).insert(c);
    assert(after[i].cell() == c);
    assert forall|k: int| 0 <= k < after.len() implies solid.contains(#[trigger] after[k].cell()) by {
        if k != i {
            assert(after[k] == queue[k]);
            assert(grid.contains(queue[k].cell()));
            if k < i {
                assert(queue[k].cell() != queue[i].cell());
            } else {
                assert(queue[i].cell() != queue[k].cell());
            }
        }
    }
    assert forall|k: int, l: int| 0 <= k < l < after.len() implies #[trigger] after[k].cell()
        != #[trigger] after[l].cell() by {
        if k != i {
            assert(after[k] == queue[k]);
            assert(grid.contains(queue[k].cell()));
        }
        if l != i {
            assert(after[l] == queue[l]);
            assert(grid.contains(queue[l].cell()));
        }
        if k != i && l != i {
            assert(queue[k].cell() != queue[l].cell());
        }
    }
}

/// A fall of one particle, in whatever order it tries its steps, leaves
/// particles and grid settled.
pub proof fn lemma_fall_keeps_settled(queue: Seq<Particle>, grid: Set<(int, int)>, i: int, order: Seq<i32>)
    requires
        settled(queue, grid),
        0 <= i < queue.len(),
    ensures
        settled(queue.update(i, queue[i].fallen(grid, order)), queue[i].grid_after_fall(grid, order)),
{
    lemma_landing(queue[i], grid, order);
    match queue[i].landing(grid, order) {
        Some(c) => {
            lemma_move_keeps_settled(queue, grid, i, c);
        },
        None => {
            assert(queue.update(i, queue[i]) =~= queue);
        },
    }
}

/// A slump of one particle, whatever the draw, leaves particles and grid
/// settled.
pub proof fn lemma_bump_keeps_settled(queue: Seq<Particle>, grid: Set<(int, int)>, i: int, coin: bool)
    requires
        settled(queue, grid),
        0 <= i < queue.len(),
    ensures
        settled(queue.update(i, queue[i].bumped(grid, coin)), queue[i].grid_after_bump(grid, coin)),
{
    match queue[i].bump_target(grid) {
        Some(c) => {
            if coin {
                lemma_move_keeps_settled(queue, grid, i, c);
            } else {
                assert(queue.update(i, queue[i]) =~= queue);
            }
        },
        None => {
            assert(queue.update(i, queue[i]) =~= queue);
        },
    }
}

/// A pass of falls keeps the number of particles, and leaves particles and
/// grid settled if they were.
pub proof fn lemma_fall_pass_settled(queue: Seq<Particle>, grid: Set<(int, int)>, orders: Seq<Seq<i32>>, n: nat)
    requires
        n <= queue.len(),
    ensures
        fall_pass(queue, grid, orders, n).0.len() == queue.len(),
        settled(queue, grid) ==> settled(fall_pass(queue, grid, orders, n).0, fall_pass(queue, grid, orders, n).1),
    decreases n,
{
    if n > 0 {
        lemma_fall_pass_settled(queue, grid, orders, (n - 1) as nat);
        let before = fall_pass(queue, grid, orders, (n - 1) as nat);
        if settled(queue, grid) {
            lemma_fall_keeps_settled(before.0, before.1, n - 1, orders[n - 1]);
        }
    }
}

/// A pass of slumps keeps the number of particles, and leaves particles
/// and grid settled if they were.
pub proof fn lemma_bump_pass_settled(queue: Seq<Particle>, grid: Set<(int, int)>, coins: Seq<bool>, n: nat)
    requires
        n <= queue.len(),
    ensures
        bump_pass(queue, grid, coins, n).0.len() == queue.len(),
        settled(queue, grid) ==> settled(bump_pass(queue, grid, coins, n).0, bump_pass(queue, grid, coins, n).1),
    decreases n,
{
    if n > 0 {
        lemma_bump_pass_settled(queue, grid, coins, (n - 1) as nat);
        let before = bump_pass(queue, grid, coins, (n - 1) as nat);
        if settled(queue, grid) {
            lemma_bump_keeps_settled(before.0, before.1, n - 1, coins[n - 1]);
        }
    }
}

/// A pass over the first `n` particles leaves the others as they were.
proof fn lemma_fall_pass_rest(queue: Seq<Particle>, grid: Set<(int, int)>, orders: Seq<Seq<i32>>, n: nat, i: int)
    requires
        n <= i < queue.len(),
    ensures
        fall_pass(queue, grid, orders, n).0[i] == queue[i],
    decreases n,
{
    if n > 0 {
        lemma_fall_pass_rest(queue, grid, orders, (n - 1) as nat, i);
        lemma_fall_pass_settled(queue, grid, orders, (n - 1) as nat);
    }
}

/// A pass over the first `n` particles leaves the others as they were.
proof fn lemma_bump_pass_rest(queue: Seq<Particle>, grid: Set<(int, int)>, coins: Seq<bool>, n: nat, i: int)
    requires
        n <= i < queue.len(),
    ensures
        bump_pass(queue, grid, coins, n).0[i] == queue[i],
    decreases n,
{
    if n > 0 {
        lemma_bump_pass_rest(queue, grid, coins, (n - 1) as nat, i);
        lemma_bump_pass_settled(queue, grid, coins, (n - 1) as nat);
    }
}

/// A pass of falls changes the grid only where a particle was or is: a
/// cell that none of the first `n` particles lay on before the pass or lies
/// on after it is solid after the pass exactly if it was before. So the
/// scenery stays.
pub proof fn lemma_fall_pass_keeps_scenery(
    queue: Seq<Particle>,
    grid: Set<(int, int)>,
    orders: Seq<Seq<i32>>,
    n: nat,
    c: (int, int),
)
    requires
        n <= queue.len(),
        forall|i: int| 0 <= i < n ==> (#[trigger] queue[i]).cell() != c,
        forall|i: int| 0 <= i < n ==> (#[trigger] fall_pass(queue, grid, orders, n).0[i]).cell() != c,
    ensures
        fall_pass(queue, grid, orders, n).1.contains(c) == grid.contains(c),
    decreases n,
{
    if n > 0 {
        let before = fall_pass(queue, grid, orders, (n - 1) as nat);
        let after = fall_pass(queue, grid, orders, n);
        lemma_fall_pass_settled(queue, grid, orders, (n - 1) as nat);
        lemma_fall_pass_rest(queue, grid, orders, (n - 1) as nat, n - 1);
        assert forall|i: int| 0 <= i < n - 1 implies (#[trigger] before.0[i]).cell() != c by {
            assert(after.0[i] == before.0[i]);
        }
        lemma_fall_pass_keeps_scenery(queue, grid, orders, (n - 1) as nat, c);
        let p = before.0[n - 1];
        assert(p == queue[n - 1]);
        lemma_landing(p, before.1, orders[n - 1]);
        match p.landing(before.1, orders[n - 1]) {
            Some(to) => {
                assert(after.0[n - 1].cell() == to);
            },
            None => {},
        }
    }
}

/// A pass of slumps changes the grid only where a particle was or is.
pub proof fn lemma_bump_pass_keeps_scenery(
    queue: Seq<Particle>,
    grid: Set<(int, int)>,
    coins: Seq<bool>,
    n: nat,
    c: (int, int),
)
    requires
        n <= queue.len(),
        forall|i: int| 0 <= i < n ==> (#[trigger] queue[i]).cell() != c,
        forall|i: int| 0 <= i < n ==> (#[trigger] bump_pass(queue, grid, coins, n).0[i]).cell() != c,
    ensures
        bump_pass(queue, grid, coins, n).1.contains(c) == grid.contains(c),
    decreases n,
{
    if n > 0 {
        let before = bump_pass(queue, grid, coins, (n - 1) as nat);
        let after = bump_pass(queue, grid, coins, n);
        lemma_bump_pass_settled(queue, grid, coins, (n - 1) as nat);
        lemma_bump_pass_rest(queue, grid, coins, (n - 1) as nat, n - 1);
        assert forall|i: int| 0 <= i < n - 1 implies (#[trigger] before.0[i]).cell() != c by {
            assert(after.0[i] == before.0[i]);
        }
        lemma_bump_pass_keeps_scenery(queue, grid, coins, (n - 1) as nat, c);
        let p = before.0[n - 1];
        assert(p == queue[n - 1]);
        match p.bump_target(before.1) {
            Some(to) => {
                if coins[n - 1] {
                    assert(vacant(before.1, to));
                    assert(after.0[n - 1] == p.moved_to(to));
                    assert(after.0[n - 1].cell() == to);
                }
            },
            None => {},
        }
    }
}

/// A particle that is walled in and moves to a vacant cell next to its own
/// is walled in still, and so is the grid.
proof fn lemma_move_keeps_walled_in(
    queue: Seq<Particle>,
    grid: Set<(int, int)>,
    i: int,
    c: (int, int),
    cols: int,
    rows: int,
)
    requires
        walled_in(queue, grid, cols, rows),
        0 <= i < queue.len(),
        vacant(grid, c),
        queue[i].px - 1 <= c.0 <= queue[i].px + 1,
        queue[i].py - 1 <= c.1 <= queue[i].py + 1,
    ensures
        walled_in(queue.update(i, queue[i].moved_to(c)), grid.remove(queue[i].cell()).insert(c), cols, rows),
{
    let after = queue.update(i, queue[i].moved_to(c));
    let solid = grid.remove(queue[i].cell()).insert(c);
    assert(!grid.contains(c));
    assert(0 < c.0 < cols - 1 && 0 < c.1 < rows - 1);
    assert forall|k: int| 0 <= k < after.len() implies 0 < (#[trigger] after[k]).px < cols - 1 && 0 < after[k].py
        < rows - 1 by {
        if k != i {
            assert(after[k] == queue[k]);
        }
    }
    assert forall|d: (int, int)|
        0 <= d.0 < cols && 0 <= d.1 < rows && (d.0 == 0 || d.0 == cols - 1 || d.1 == 0 || d.1 == rows - 1)
            implies #[trigger] solid.contains(d) by {
        assert(grid.contains(d));
    }
}

/// A fall of one particle leaves the snow walled in.
pub proof fn lemma_fall_keeps_walled_in(
    queue: Seq<Particle>,
    grid: Set<(int, int)>,
    i: int,
    order: Seq<i32>,
    cols: int,
    rows: int,
)
    requires
        walled_in(queue, grid, cols, rows),
        0 <= i < queue.len(),
        is_shuffle(order),
    ensures
        walled_in(
            queue.update(i, queue[i].fallen(grid, order)),
            queue[i].grid_after_fall(grid, order),
            cols,
            rows,
        ),
{
    lemma_fall_outcome(queue[i], grid, order);
    match queue[i].landing(grid, order) {
        Some(c) => {
            lemma_landing(queue[i], grid, order);
            assert(queue[i].fallen(grid, order).cell() == c);
            lemma_move_keeps_walled_in(queue, grid, i, c, cols, rows);
        },
        None => {
            assert(queue.update(i, queue[i]) =~= queue);
        },
    }
}

/// A slump of one particle leaves the snow walled in.
pub proof fn lemma_bump_keeps_walled_in(
    queue: Seq<Particle>,
    grid: Set<(int, int)>,
    i: int,
    coin: bool,
    cols: int,
    rows: int,
)
    requires
        walled_in(queue, grid, cols, rows),
        0 <= i < queue.len(),
    ensures
        walled_in(queue.update(i, queue[i].bumped(grid, coin)), queue[i].grid_after_bump(grid, coin), cols, rows),
{
    match queue[i].bump_target(grid) {
        Some(c) => {
            if coin {
                lemma_move_keeps_walled_in(queue, grid, i, c, cols, rows);
            } else {
                assert(queue.update(i, queue[i]) =~= queue);
            }
        },
        None => {
            assert(queue.update(i, queue[i]) =~= queue);
        },
    }
}

/// A pass of falls leaves the snow walled in: where the border of the grid
/// is solid and no particle lies on it, no particle and no solid cell ever
/// leaves the grid.
pub proof fn lemma_fall_pass_walled_in(
    queue: Seq<Particle>,
    grid: Set<(int, int)>,
    orders: Seq<Seq<i32>>,
    n: nat,
    cols: int,
    rows: int,
)
    requires
        n <= queue.len(),
        forall|i: int| 0 <= i < n ==> is_shuffle(#[trigger] orders[i]),
        walled_in(queue, grid, cols, rows),
    ensures
        walled_in(fall_pass(queue, grid, orders, n).0, fall_pass(queue, grid, orders, n).1, cols, rows),
    decreases n,
{
    if n > 0 {
        lemma_fall_pass_walled_in(queue, grid, orders, (n - 1) as nat, cols, rows);
        lemma_fall_pass_settled(queue, grid, orders, (n - 1) as nat);
        let before = fall_pass(queue, grid, orders, (n - 1) as nat);
        lemma_fall_keeps_walled_in(before.0, before.1, n - 1, orders[n - 1], cols, rows);
    }
}

/// A pass of slumps leaves the snow walled in.
pub proof fn lemma_bump_pass_walled_in(
    queue: Seq<Particle>,
    grid: Set<(int, int)>,
    coins: Seq<bool>,
    n: nat,
    cols: int,
    rows: int,
)
    requires
        n <= queue.len(),
        walled_in(queue, grid, cols, rows),
    ensures
        walled_in(bump_pass(queue, grid, coins, n).0, bump_pass(queue, grid, coins, n).1, cols, rows),
    decreases n,
{
    if n > 0 {
        lemma_bump_pass_walled_in(queue, grid, coins, (n - 1) as nat, cols, rows);
        lemma_bump_pass_settled(queue, grid, coins, (n - 1) as nat);
        let before = bump_pass(queue, grid, coins, (n - 1) as nat);
        lemma_bump_keeps_walled_in(before.0, before.1, n - 1, coins[n - 1], cols, rows);
    }
}

/// A pass of falls over `n` particles reads only the first `n` orders.
proof fn lemma_fall_pass_reads(queue: Seq<Particle>, grid: Set<(int, int)>, a: Seq<Seq<i32>>, b: Seq<Seq<i32>>, n: nat)
    requires
        forall|i: int| 0 <= i < n ==> a[i] == b[i],
    ensures
        fall_pass(queue, grid, a, n) == fall_pass(queue, grid, b, n),
    decreases n,
{
    if n > 0 {
        lemma_fall_pass_reads(queue, grid, a, b, (n - 1) as nat);
    }
}

/// A pass of slumps over `n` particles reads only the first `n` draws.
proof fn lemma_bump_pass_reads(queue: Seq<Particle>, grid: Set<(int, int)>, a: Seq<bool>, b: Seq<bool>, n: nat)
    requires
        forall|i: int| 0 <= i < n ==> a[i] == b[i],
    ensures
        bump_pass(queue, grid, a, n) == bump_pass(queue, grid, b, n),
    decreases n,
{
    if n > 0 {
        lemma_bump_pass_reads(queue, grid, a, b, (n - 1) as nat);
    }
}

/// The orders of steps that a list of them holds.
pub open spec fn orders_of(orders: Seq<Vec<i32>>) -> Seq<Seq<i32>> {
    Seq::new(orders.len(), |i: int| orders[i]@)
}

/// The smaller of two lengths.
pub open spec fn shorter(a: nat, b: nat) -> nat {
    if a < b {
        a
    } else {
        b
    }
}

/// Lets the particles fall in the order of the queue, particle `i` trying
/// its steps in the order `orders[i]`. Particles for which no order is
/// given stay where they are.
pub fn fall_in_order(queue: &mut Vec<Particle>, occupied: &mut OccupancyGrid, orders: &Vec<Vec<i32>>)
    ensures
        final(queue)@.len() == old(queue)@.len(),
        (final(queue)@, final(occupied)@) == fall_pass(
            old(queue)@,
            old(occupied)@,
            orders_of(orders@),
            shorter(old(queue)@.len(), orders@.len()),
        ),
{
    let n = if queue.len() < orders.len() {
        queue.len()
    } else {
        orders.len()
    };
    let mut i: usize = 0;
    while i < n
        invariant
            i <= n,
            n == shorter(old(queue)@.len(), orders@.len()),
            queue@.len() == old(queue)@.len(),
            (queue@, occupied@) == fall_pass(old(queue)@, old(occupied)@, orders_of(orders@), i as nat),
        decreases n - i,
    {
        let mut p = queue[i];
        p.step(&orders[i], occupied);
        queue[i] = p;
        i += 1;
    }
}

/// Lets the particles slump in the order of the queue, particle `i` with
/// the draw `coins[i]`. Particles for which no draw is given stay where
/// they are.
pub fn bump_with_draws(queue: &mut Vec<Particle>, occupied: &mut OccupancyGrid, coins: &Vec<bool>)
    ensures
        final(queue)@.len() == old(queue)@.len(),
        (final(queue)@, final(occupied)@) == bump_pass(
            old(queue)@,
            old(occupied)@,
            coins@,
            shorter(old(queue)@.len(), coins@.len()),
        ),
{
    let n = if queue.len() < coins.len() {
        queue.len()
    } else {
        coins.len()
    };
    let mut i: usize = 0;
    while i < n
        invariant
            i <= n,
            n == shorter(old(queue)@.len(), coins@.len()),
            queue@.len() == old(queue)@.len(),
            (queue@, occupied@) == bump_pass(old(queue)@, old(occupied)@, coins@, i as nat),
        decreases n - i,
    {
        let mut p = queue[i];
        p.bump(coins[i], occupied);
        queue[i] = p;
        i += 1;
    }
}

/// Lets every particle fall, in the order of the queue, each with an
/// order of steps drawn by chance.
pub fn update_particles(queue: &mut Vec<Particle>, occupied: &mut OccupancyGrid)
    ensures
        final(queue)@.len() == old(queue)@.len(),
        exists|orders: Seq<Seq<i32>>|
            {
                &&& orders.len() == old(queue)@.len()
                &&& forall|i: int| 0 <= i < orders.len() ==> is_shuffle(#[trigger] orders[i])
                &&& (final(queue)@, final(occupied)@) == #[trigger] fall_pass(
                    old(queue)@,
                    old(occupied)@,
                    orders,
                    old(queue)@.len(),
                )
            },
        settled(old(queue)@, old(occupied)@) ==> settled(final(queue)@, final(occupied)@),
        forall|cols: int, rows: int| #[trigger]
            walled_in(old(queue)@, old(occupied)@, cols, rows) ==> walled_in(
                final(queue)@,
                final(occupied)@,
                cols,
                rows,
            ),
{
    let ghost mut orders: Seq<Seq<i32>> = Seq::empty();
    let mut i: usize = 0;
    while i < queue.len()
        invariant
            i <= queue@.len(),
            queue@.len() == old(queue)@.len(),
            orders.len() == i,
            forall|k: int| 0 <= k < orders.len() ==> is_shuffle(#[trigger] orders[k]),
            (queue@, occupied@) == fall_pass(old(queue)@, old(occupied)@, orders, i as nat),
        decreases queue@.len() - i,
    {
        let ghost before = (queue@, occupied@);
        let mut p = queue[i];
        p.update(occupied);
        queue[i] = p;
        proof {
            let order = choose|order: Seq<i32>|
                {
                    &&& is_shuffle(order)
                    &&& p == #[trigger] before.0[i as int].fallen(before.1, order)
                    &&& occupied@ == before.0[i as int].grid_after_fall(before.1, order)
                };
            lemma_fall_pass_reads(old(queue)@, old(occupied)@, orders, orders.push(order), i as nat);
            orders = orders.push(order);
        }
        i += 1;
    }
    proof {
        lemma_fall_pass_settled(old(queue)@, old(occupied)@, orders, old(queue)@.len());
        assert forall|cols: int, rows: int| #[trigger]
            walled_in(old(queue)@, old(occupied)@, cols, rows) implies walled_in(
            queue@,
            occupied@,
            cols,
            rows,
        ) by {
            lemma_fall_pass_walled_in(old(queue)@, old(occupied)@, orders, old(queue)@.len(), cols, rows);
        }
    }
}

/// Lets every particle that can slump do so with the fixed chance, in the
/// order of the queue.
pub fn bump_particles(queue: &mut Vec<Particle>, occupied: &mut OccupancyGrid)
    ensures
        final(queue)@.len() == old(queue)@.len(),
        exists|coins: Seq<bool>|
            {
                &&& coins.len() == old(queue)@.len()
                &&& (final(queue)@, final(occupied)@) == #[trigger] bump_pass(
                    old(queue)@,
                    old(occupied)@,
                    coins,
                    old(queue)@.len(),
                )
            },
        settled(old(queue)@, old(occupied)@) ==> settled(final(queue)@, final(occupied)@),
        forall|cols: int, rows: int| #[trigger]
            walled_in(old(queue)@, old(occupied)@, cols, rows) ==> walled_in(
                final(queue)@,
                final(occupied)@,
                cols,
                rows,
            ),
{
    let ghost mut coins: Seq<bool> = Seq::empty();
    let mut i: usize = 0;
    while i < queue.len()
        invariant
            i <= queue@.len(),
            queue@.len() == old(queue)@.len(),
            coins.len() == i,
            (queue@, occupied@) == bump_pass(old(queue)@, old(occupied)@, coins, i as nat),
        decreases queue@.len() - i,
    {
        let ghost before = (queue@, occupied@);
        let mut p = queue[i];
        let mut coin = false;
        match p.slump_cell(occupied) {
            Some(target) => {
                coin = chance(BUMP_CHANCE_NUMERATOR, BUMP_CHANCE_DENOMINATOR);
                if coin {
                    p.shift(target.0, target.1, occupied);
                }
            },
            None => {},
        }
        queue[i] = p;
        proof {
            assert(p == before.0[i as int].bumped(before.1, coin));
            assert(occupied@ == before.0[i as int].grid_after_bump(before.1, coin));
            lemma_bump_pass_reads(old(queue)@, old(occupied)@, coins, coins.push(coin), i as nat);
            coins = coins.push(coin);
        }
        i += 1;
    }
    proof {
        lemma_bump_pass_settled(old(queue)@, old(occupied)@, coins, old(queue)@.len());
        assert forall|cols: int, rows: int| #[trigger]
            walled_in(old(queue)@, old(occupied)@, cols, rows) implies walled_in(
            queue@,
            occupied@,
            cols,
            rows,
        ) by {
            lemma_bump_pass_walled_in(old(queue)@, old(occupied)@, coins, old(queue)@.len(), cols, rows);
        }
    }
}

/// One tick: every particle tries to fall, then every particle may slump
/// in the grid that the falls have left.
pub fn tick(queue: &mut Vec<Particle>, occupied: &mut OccupancyGrid)
    ensures
        final(queue)@.len() == old(queue)@.len(),
        exists|orders: Seq<Seq<i32>>, coins: Seq<bool>|
            {
                &&& orders.len() == old(queue)@.len()
                &&& coins.len() == old(queue)@.len()
                &&& forall|i: int| 0 <= i < orders.len() ==> is_shuffle(#[trigger] orders[i])
                &&& (final(queue)@, final(occupied)@) == #[trigger] tick_pass(
                    old(queue)@,
                    old(occupied)@,
                    orders,
                    coins,
                )
            },
        settled(old(queue)@, old(occupied)@) ==> settled(final(queue)@, final(occupied)@),
        forall|cols: int, rows: int| #[trigger]
            walled_in(old(queue)@, old(occupied)@, cols, rows) ==> walled_in(
                final(queue)@,
                final(occupied)@,
                cols,
                rows,
            ),
{
    update_particles(queue, occupied);
    let ghost orders = choose|orders: Seq<Seq<i32>>|
        {
            &&& orders.len() == old(queue)@.len()
            &&& forall|i: int| 0 <= i < orders.len() ==> is_shuffle(#[trigger] orders[i])
            &&& (queue@, occupied@) == #[trigger] fall_pass(old(queue)@, old(occupied)@, orders, old(queue)@.len())
        };
    let ghost fallen = (queue@, occupied@);
    bump_particles(queue, occupied);
    proof {
        let coins = choose|coins: Seq<bool>|
            {
                &&& coins.len() == fallen.0.len()
                &&& (queue@, occupied@) == #[trigger] bump_pass(fallen.0, fallen.1, coins, fallen.0.len())
            };
        assert(fallen == fall_pass(old(queue)@, old(occupied)@, orders, old(queue)@.len()));
        assert((queue@, occupied@) == tick_pass(old(queue)@, old(occupied)@, orders, coins));
    }
}

/// Adds `particle` to the queue and marks its cell as solid, unless that
/// cell is solid already: then nothing changes.
pub fn spawn(queue: &mut Vec<Particle>, occupied: &mut OccupancyGrid, particle: Particle) -> (added: bool)
    ensures
        added == !old(occupied)@.contains(particle.cell()),
        added ==> final(queue)@ == old(queue)@.push(particle) && final(occupied)@ == old(occupied)@.insert(
            particle.cell(),
        ),
        !added ==> final(queue)@ == old(queue)@ && final(occupied)@ == old(occupied)@,
        settled(old(queue)@, old(occupied)@) ==> settled(final(queue)@, final(occupied)@),
{
    if occupied.contains(&(particle.px, particle.py)) {
        return false;
    }
    occupied.insert((particle.px, particle.py));
    queue.push(particle);
    true
}

/// Draws every particle as a tile of `color`. Nothing is written unless
/// every particle has its tile on the canvas and `frame` has the canvas's
/// size.
pub fn draw_particles(frame: &mut [u8], canvas: &Canvas, queue: &Vec<Particle>, color: [u8; 4]) -> (res: Result<
    (),
    CanvasError,
>)
    ensures
        res is Ok <==> old(frame)@.len() == canvas.frame_len() && canvas.holds(cells_of(queue@)),
        res is Ok ==> final(frame)@ == canvas.painted(old(frame)@, cells_of(queue@).to_set(), color@),
        res is Err ==> res == Err::<(), CanvasError>(CanvasError::OutOfBounds) && final(frame)@ == old(frame)@,
{
    if !canvas.fits(frame) {
        return Err(CanvasError::OutOfBounds);
    }
    let mut points: Vec<(i32, i32)> = Vec::new();
    let mut i: usize = 0;
    while i < queue.len()
        invariant
            i <= queue@.len(),
            points@.len() == i,
            forall|k: int| 0 <= k < i ==> cell_at(#[trigger] points@[k]) == queue@[k].cell(),
        decreases queue@.len() - i,
    {
        points.push((queue[i].px, queue[i].py));
        i += 1;
    }
    assert(as_cells(points@) =~= cells_of(queue@));
    if !canvas.on_canvas(&points) {
        return Err(CanvasError::OutOfBounds);
    }
    canvas.paint_cells(frame, &points, color);
    Ok(())
}

} // verus!
