//! The occupancy grid: the set of grid cells that count as solid.

use std::collections::HashSet;
use vstd::prelude::*;
use vstd::relations::injective_on;
use crate::cell::{cell_at, fits_cell};
use vstd::set_lib::lemma_map_size;
use vstd::std_specs::hash::group_hash_axioms;

verus! {

broadcast use group_hash_axioms;

/// The key under which a cell is stored: its column in the upper half of
/// the key, its row, counted from the least `i32`, in the lower half.
spec fn key_of(c: (int, int)) -> int {
    c.0 * 0x1_0000_0000 + (c.1 + 0x8000_0000)
}

/// The cell that is stored under a key.
spec fn cell_of(k: i64) -> (int, int) {
    (k as int / 0x1_0000_0000, k as int % 0x1_0000_0000 - 0x8000_0000)
}

/// A cell is found again under its key.
proof fn lemma_key_round_trip(c: (int, int))
    requires
        fits_cell(c),
    ensures
        i64::MIN <= key_of(c) <= i64::MAX,
        cell_of(key_of(c) as i64) == c,
{
}

/// Every key is the key of the cell stored under it.
proof fn lemma_cell_round_trip(k: i64)
    ensures
        fits_cell(cell_of(k)),
        key_of(cell_of(k)) == k,
{
}

/// Whether `k` is among the keys of `keys` from the `n`-th on.
spec fn waiting(keys: Seq<i64>, n: int, k: i64) -> bool {
    exists|j: int| n <= j < keys.len() && keys[j] == k
}

/// A set of grid cells. Cells are added when scenery is laid out or a
/// particle comes to lie on them, and removed when a particle leaves.
pub struct OccupancyGrid {
    cells: HashSet<i64>,
}

impl View for OccupancyGrid {
    type V = Set<(int, int)>;

    closed spec fn view(&self) -> Set<(int, int)> {
        Set::new(|c: (int, int)| fits_cell(c) && self.cells@.contains(key_of(c) as i64))
    }
}

impl OccupancyGrid {
    /// The keys are finitely many.
    #[verifier::type_invariant]
    spec fn inv(self) -> bool {
        self.cells@.finite()
    }

    /// There are as many solid cells as keys.
    proof fn lemma_view_size(self)
        requires
            self.cells@.finite(),
        ensures
            self@.finite(),
            self@.len() == self.cells@.len(),
    {
        let f = |k: i64| cell_of(k);
        assert forall|a: i64, b: i64|
            self.cells@.contains(a) && self.cells@.contains(b) && #[trigger] f(a) == #[trigger] f(b) implies a
            == b by {
            lemma_cell_round_trip(a);
            lemma_cell_round_trip(b);
        }
        assert(injective_on(f, self.cells@));
        assert forall|c: (int, int)| self@.contains(c) <==> self.cells@.map(f).contains(c) by {
            if self@.contains(c) {
                lemma_key_round_trip(c);
                assert(self.cells@.contains(key_of(c) as i64) && f(key_of(c) as i64) == c);
            }
            if self.cells@.map(f).contains(c) {
                let k = choose|k: i64| self.cells@.contains(k) && f(k) == c;
                lemma_cell_round_trip(k);
            }
        }
        assert(self.cells@.map(f) =~= self@);
        lemma_map_size(self.cells@, self@, f);
    }

    /// Every solid cell can be written as a grid point.
    pub proof fn lemma_cells_fit(self)
        ensures
            forall|c: (int, int)| #[trigger] self@.contains(c) ==> fits_cell(c),
    {
    }

    /// An empty grid.
    pub fn new() -> (grid: OccupancyGrid)
        ensures
            grid@ == Set::<(int, int)>::empty(),
    {
        let grid = OccupancyGrid { cells: HashSet::new() };
        assert(grid@ =~= Set::<(int, int)>::empty());
        grid
    }

    /// Marks `cell` as solid, and says whether it was free before.
    pub fn insert(&mut self, cell: (i32, i32)) -> (fresh: bool)
        ensures
            final(self)@ == old(self)@.insert(cell_at(cell)),
            fresh == !old(self)@.contains(cell_at(cell)),
    {
        proof {
            use_type_invariant(&*self);
            lemma_key_round_trip(cell_at(cell));
        }
        let key: i64 = (cell.0 as i64) * 0x1_0000_0000 + (cell.1 as i64 + 0x8000_0000);
        // The keys are taken out while they change and put back afterwards.
        let mut cells: HashSet<i64> = HashSet::new();
        std::mem::swap(&mut self.cells, &mut cells);
        let fresh = cells.insert(key);
        self.cells = cells;
        proof {
            assert forall|c: (int, int)| self@.contains(c) <==> old(self)@.insert(cell_at(cell)).contains(c) by {
                if fits_cell(c) {
                    lemma_key_round_trip(c);
                }
            }
            assert(self@ =~= old(self)@.insert(cell_at(cell)));
        }
        fresh
    }

    /// Frees `cell`, and says whether it was solid before.
    pub fn remove(&mut self, cell: &(i32, i32)) -> (present: bool)
        ensures
            final(self)@ == old(self)@.remove(cell_at(*cell)),
            present == old(self)@.contains(cell_at(*cell)),
    {
        proof {
            use_type_invariant(&*self);
            lemma_key_round_trip(cell_at(*cell));
        }
        let key: i64 = (cell.0 as i64) * 0x1_0000_0000 + (cell.1 as i64 + 0x8000_0000);
        let mut cells: HashSet<i64> = HashSet::new();
        std::mem::swap(&mut self.cells, &mut cells);
        let present = cells.remove(&key);
        self.cells = cells;
        proof {
            assert forall|c: (int, int)| self@.contains(c) <==> old(self)@.remove(cell_at(*cell)).contains(c) by {
                if fits_cell(c) {
                    lemma_key_round_trip(c);
                }
            }
            assert(self@ =~= old(self)@.remove(cell_at(*cell)));
        }
        present
    }

    /// Marks as solid every cell that is solid in `other`.
    pub fn merge(&mut self, other: &OccupancyGrid)
        ensures
            final(self)@ == old(self)@.union(other@),
    {
        proof {
            use_type_invariant(&*self);
            use_type_invariant(other);
        }
        let mut cells: HashSet<i64> = HashSet::new();
        std::mem::swap(&mut self.cells, &mut cells);
        let ghost start = cells@;
        for key in it: other.cells.iter()
            invariant
                cells@.finite(),
                it.seq().unref().to_set() == other.cells@,
                forall|k: i64| #[trigger] cells@.contains(k) ==> start.contains(k) || other.cells@.contains(k),
                forall|k: i64| start.contains(k) ==> #[trigger] cells@.contains(k),
                forall|k: i64| #[trigger]
                    other.cells@.contains(k) ==> cells@.contains(k) || waiting(it.seq().unref(), it.index(), k),
        {
            let ghost keys = it.seq().unref();
            let ghost n = it.index();
            assert(*key == keys[n]);
            assert(keys.contains(keys[n]));
            cells.insert(*key);
            proof {
                assert forall|k: i64| #[trigger] other.cells@.contains(k) implies cells@.contains(k) || waiting(
                    keys,
                    n + 1,
                    k,
                ) by {
                    if !cells@.contains(k) {
                        let j = choose|j: int| n <= j < keys.len() && keys[j] == k;
                        assert(n + 1 <= j < keys.len() && keys[j] == k);
                    }
                }
            }
        }
        assert(cells@ =~= start.union(other.cells@));
        self.cells = cells;
        assert(self@ =~= old(self)@.union(other@));
    }

    /// Whether `cell` is solid.
    pub fn contains(&self, cell: &(i32, i32)) -> (present: bool)
        ensures
            present == self@.contains(cell_at(*cell)),
    {
        proof {
            lemma_key_round_trip(cell_at(*cell));
        }
        let key: i64 = (cell.0 as i64) * 0x1_0000_0000 + (cell.1 as i64 + 0x8000_0000);
        self.cells.contains(&key)
    }

    /// The number of solid cells.
    pub fn len(&self) -> (n: usize)
        ensures
            n == self@.len(),
            self@.finite(),
    {
        proof {
            use_type_invariant(self);
            self.lemma_view_size();
        }
        self.cells.len()
    }

    /// Whether no cell is solid.
    pub fn is_empty(&self) -> (empty: bool)
        ensures
            empty == (self@ == Set::<(int, int)>::empty()),
            self@.finite(),
    {
        let n = self.len();
        proof {
            if n == 0 {
                self@.lemma_len0_is_empty();
                assert(self@ =~= Set::<(int, int)>::empty());
            }
        }
        n == 0
    }
}

} // verus!
