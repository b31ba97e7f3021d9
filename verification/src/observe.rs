//! The grid of buckets and the agents that observe through it.

use vstd::prelude::*;
use crate::buckets::{
    bucket, gathered, hashed, lemma_bucket_of_none, lemma_bucket_step, lemma_gathered_step, rebuilt,
};
use crate::cells::{
    as_ints, column_of, hash_function, lemma_index_in_range, lemma_neighbor_cells_count,
    lemma_neighbor_cells_in_range, lemma_neighbor_cells_step, neighbor_cells,
    neighbor_cells_among, reach, row_of,
};
use crate::sight::{observed_by, other_than};

verus! {

/// What one agent knows of its surroundings: the cell it was last filed under
/// and the identifiers it last gathered from around that cell.
#[derive(Debug)]
pub struct Observer {
    pub cell: usize,
    pub observed: Vec<u64>,
}

impl Observer {
    /// Makes an observer filed under cell 0 that has observed nothing.
    pub fn new() -> (observer: Observer)
        ensures
            observer.cell == 0,
            observer.observed@ == Seq::<u64>::empty(),
    {
        Observer { cell: 0, observed: Vec::new() }
    }

    /// What the observer gathered, without the identifier `me`: the list that
    /// a rule works through for the agent `me`, in the order gathered.
    pub fn others(&self, me: u64) -> (others: Vec<u64>)
        ensures
            others@ == self.observed@.filter(other_than(me)),
    {
        let mut others: Vec<u64> = Vec::new();
        proof {
            reveal(Seq::filter);
            assert(self.observed@.take(0).filter(other_than(me)) == Seq::<u64>::empty());
        }
        let mut k: usize = 0;
        while k < self.observed.len()
            invariant
                k <= self.observed@.len(),
                others@ == self.observed@.take(k as int).filter(other_than(me)),
            decreases self.observed@.len() - k,
        {
            proof {
                assert(self.observed@.take(k + 1) == self.observed@.take(k as int).push(
                    self.observed@[k as int],
                ));
                self.observed@.take(k as int).lemma_filter_push(
                    self.observed@[k as int],
                    other_than(me),
                );
            }
            if self.observed[k] != me {
                others.push(self.observed[k]);
            }
            k += 1;
        }
        proof {
            assert(self.observed@.take(self.observed@.len() as int) == self.observed@);
        }
        others
    }
}

impl Default for Observer {
    fn default() -> (observer: Observer)
        ensures
            observer.cell == 0,
            observer.observed@ == Seq::<u64>::empty(),
    {
        Observer::new()
    }
}

/// A grid of `width` by `depth` cells, each `cell_size` units long on each
/// side and each holding the identifiers of the agents filed under it, in the
/// order in which they were filed.
pub struct StuffsToObserve {
    stuff: Vec<Vec<u64>>,
    cell_size: i64,
    width: usize,
    depth: usize,
}

impl View for StuffsToObserve {
    type V = Seq<Seq<u64>>;

    /// The buckets, cell by cell.
    closed spec fn view(&self) -> Seq<Seq<u64>> {
        self.stuff@.map_values(|bucket: Vec<u64>| bucket@)
    }
}

impl StuffsToObserve {
    /// The length of a cell's side.
    pub closed spec fn spec_cell_size(&self) -> int {
        self.cell_size as int
    }

    /// The number of columns.
    pub closed spec fn spec_width(&self) -> int {
        self.width as int
    }

    /// The number of rows.
    pub closed spec fn spec_depth(&self) -> int {
        self.depth as int
    }

    /// The number of cells.
    pub open spec fn spec_size(&self) -> int {
        self.spec_width() * self.spec_depth()
    }

    /// A grid is well formed when it has one bucket for each cell.
    pub open spec fn wf(&self) -> bool {
        self@.len() == self.spec_size()
    }

    /// The cell of each agent on this grid, from its position `(x, z)`.
    pub open spec fn cells_of(&self, coords: Seq<(i64, i64)>) -> Seq<int> {
        hashed(coords, self.spec_cell_size(), self.spec_width(), self.spec_depth())
    }

    /// The cells of this grid around the cell `cell`.
    pub open spec fn cells_around(&self, cell: int) -> Seq<int> {
        neighbor_cells(cell, self.spec_width(), self.spec_depth())
    }

    /// Makes a grid of `width` by `depth` cells with nothing filed.
    pub fn new(width: usize, depth: usize, cell_size: i64) -> (grid: StuffsToObserve)
        requires
            width * depth <= usize::MAX,
        ensures
            grid.wf(),
            grid.spec_cell_size() == cell_size,
            grid.spec_width() == width,
            grid.spec_depth() == depth,
            forall|c: int| 0 <= c < width * depth ==> #[trigger] grid@[c] == Seq::<u64>::empty(),
    {
        let mut stuff: Vec<Vec<u64>> = Vec::new();
        let size = width * depth;
        let mut i: usize = 0;
        while i < size
            invariant
                i <= size,
                stuff@.len() == i,
                forall|c: int| 0 <= c < i ==> (#[trigger] stuff@[c])@ == Seq::<u64>::empty(),
            decreases size - i,
        {
            stuff.push(Vec::new());
            i += 1;
        }
        StuffsToObserve { stuff, cell_size, width, depth }
    }

    /// Lists the cells of the three-by-three block centred on `cell` that lie
    /// on the grid, column by column. On a grid that is at least two cells
    /// wide and two deep that makes four cells for a corner cell, six along an
    /// edge and nine inside.
    pub fn collect_cells(&self, cell: usize) -> (all_cells: Vec<usize>)
        requires
            self.wf(),
            self.spec_width() > 0,
        ensures
            as_ints(all_cells@) == self.cells_around(cell as int),
            all_cells@.len() <= 9,
            forall|k: int| 0 <= k < all_cells@.len() ==> #[trigger] all_cells@[k] < self@.len(),
    {
        let mut all_cells: Vec<usize> = Vec::new();
        let w = self.width;
        let d = self.depth;
        let x_me = cell % w;
        let z_me = cell / w;
        proof {
            assert(w * d == self.stuff.len());
            lemma_neighbor_cells_step(cell as int, w as int, d as int, 0);
        }
        let mut dx: usize = 0;
        while dx < 3
            invariant
                dx <= 3,
                w > 0,
                w * d <= usize::MAX,
                x_me == column_of(cell as int, w as int),
                z_me == row_of(cell as int, w as int),
                as_ints(all_cells@) == neighbor_cells_among(
                    cell as int,
                    w as int,
                    d as int,
                    3 * dx,
                ),
            decreases 3 - dx,
        {
            let mut dz: usize = 0;
            while dz < 3
                invariant
                    dx < 3,
                    dz <= 3,
                    w > 0,
                    w * d <= usize::MAX,
                    x_me == column_of(cell as int, w as int),
                    z_me == row_of(cell as int, w as int),
                    as_ints(all_cells@) == neighbor_cells_among(
                        cell as int,
                        w as int,
                        d as int,
                        3 * dx + dz,
                    ),
                decreases 3 - dz,
            {
                let x = step_on_axis(x_me, dx, w);
                let z = step_on_axis(z_me, dz, d);
                proof {
                    lemma_neighbor_cells_step(cell as int, w as int, d as int, 3 * dx + dz);
                }
                if x.is_some() && z.is_some() {
                    let x = x.unwrap();
                    let z = z.unwrap();
                    proof {
                        lemma_index_in_range(x as int, z as int, w as int, d as int);
                    }
                    let ghost before = all_cells@;
                    all_cells.push(x + z * w);
                    assert(as_ints(all_cells@) == as_ints(before).push((x + z * w) as int));
                }
                dz += 1;
            }
            dx += 1;
        }
        proof {
            lemma_neighbor_cells_step(cell as int, w as int, d as int, 0);
            lemma_neighbor_cells_in_range(cell as int, w as int, d as int);
            lemma_neighbor_cells_count(cell as int, w as int, d as int);
            assert(all_cells@.len() <= 9) by (nonlinear_arith)
                requires
                    all_cells@.len() == reach(column_of(cell as int, w as int), w as int) * reach(
                        row_of(cell as int, w as int),
                        d as int,
                    ),
                    0 <= reach(column_of(cell as int, w as int), w as int) <= 3,
                    0 <= reach(row_of(cell as int, w as int), d as int) <= 3,
            ;
            assert forall|k: int| 0 <= k < all_cells@.len() implies #[trigger] all_cells@[k]
                < self@.len() by {
                assert(as_ints(all_cells@)[k] == all_cells@[k]);
            }
        }
        all_cells
    }

    /// The buckets of the cells `cells`, one after the other.
    fn gather(&self, cells: &Vec<usize>) -> (observed: Vec<u64>)
        requires
            forall|k: int| 0 <= k < cells@.len() ==> #[trigger] cells@[k] < self@.len(),
        ensures
            observed@ == gathered(self@, as_ints(cells@)),
    {
        let mut observed: Vec<u64> = Vec::new();
        let ghost near = as_ints(cells@);
        proof {
            if near.len() > 0 {
                lemma_gathered_step(self@, near, 0);
            } else {
                assert(near.take(0) == near);
                assert(near.map_values(crate::buckets::bucket_at(self@)) == Seq::<
                    Seq<u64>,
                >::empty());
            }
        }
        let mut k: usize = 0;
        while k < cells.len()
            invariant
                k <= cells@.len(),
                near == as_ints(cells@),
                forall|n: int| 0 <= n < cells@.len() ==> #[trigger] cells@[n] < self@.len(),
                observed@ == gathered(self@, near.take(k as int)),
            decreases cells@.len() - k,
        {
            let bucket = &self.stuff[cells[k]];
            let ghost so_far = observed@;
            let mut j: usize = 0;
            while j < bucket.len()
                invariant
                    j <= bucket@.len(),
                    observed@ == so_far + bucket@.take(j as int),
                decreases bucket@.len() - j,
            {
                observed.push(bucket[j]);
                assert(bucket@.take(j + 1) == bucket@.take(j as int).push(bucket@[j as int]));
                j += 1;
            }
            proof {
                assert(bucket@.take(bucket@.len() as int) == bucket@);
                lemma_gathered_step(self@, near, k as int);
            }
            k += 1;
        }
        proof {
            assert(near.take(near.len() as int) == near);
        }
        observed
    }

    /// The bucket of cell `cell`, if the grid has such a cell.
    pub fn get(&self, cell: usize) -> (bucket: Option<&Vec<u64>>)
        ensures
            cell < self@.len() ==> bucket.is_some() && bucket.unwrap()@ == self@[cell as int],
            cell >= self@.len() ==> bucket.is_none(),
    {
        if cell < self.stuff.len() {
            Some(&self.stuff[cell])
        } else {
            None
        }
    }

    /// The length of a cell's side.
    pub fn cell_size(&self) -> (size: i64)
        ensures
            size == self.spec_cell_size(),
    {
        self.cell_size
    }

    /// The number of columns.
    pub fn width(&self) -> (w: usize)
        ensures
            w == self.spec_width(),
    {
        self.width
    }

    /// The number of rows.
    pub fn depth(&self) -> (d: usize)
        ensures
            d == self.spec_depth(),
    {
        self.depth
    }
}

/// Files every agent anew: empties every bucket, then appends the identifier
/// of each agent, in turn, to the bucket of the cell that its position falls
/// into. Agent `i` has the identifier `entities[i]` and stands at `coords[i]`,
/// its position along x and z.
pub fn observation_system_update_hashmap(
    grid: &mut StuffsToObserve,
    entities: &Vec<u64>,
    coords: &Vec<(i64, i64)>,
)
    requires
        old(grid).wf(),
        old(grid).spec_width() >= 1,
        old(grid).spec_depth() >= 1,
        entities@.len() == coords@.len(),
    ensures
        final(grid).wf(),
        final(grid).spec_cell_size() == old(grid).spec_cell_size(),
        final(grid).spec_width() == old(grid).spec_width(),
        final(grid).spec_depth() == old(grid).spec_depth(),
        final(grid)@ == rebuilt(entities@, old(grid).cells_of(coords@), old(grid).spec_size()),
{
    let size = grid.stuff.len();
    let cell_size = grid.cell_size;
    let width = grid.width;
    let depth = grid.depth;
    let mut c: usize = 0;
    while c < size
        invariant
            c <= size,
            grid.stuff@.len() == size,
            grid.cell_size == cell_size,
            grid.width == width,
            grid.depth == depth,
            forall|b: int| 0 <= b < c ==> (#[trigger] grid.stuff@[b])@ == Seq::<u64>::empty(),
        decreases size - c,
    {
        grid.stuff[c].clear();
        c += 1;
    }
    let ghost cells = hashed(coords@, cell_size as int, width as int, depth as int);
    proof {
        assert forall|b: int| 0 <= b < size implies (#[trigger] grid.stuff@[b])@ == bucket(
            entities@.take(0),
            cells.take(0),
            b,
        ) by {
            lemma_bucket_of_none(entities@, cells, b);
        }
    }
    let mut i: usize = 0;
    while i < entities.len()
        invariant
            i <= entities@.len(),
            entities@.len() == coords@.len(),
            cells == hashed(coords@, cell_size as int, width as int, depth as int),
            grid.stuff@.len() == size,
            size == width * depth,
            width >= 1,
            depth >= 1,
            grid.cell_size == cell_size,
            grid.width == width,
            grid.depth == depth,
            forall|b: int|
                0 <= b < size ==> (#[trigger] grid.stuff@[b])@ == bucket(
                    entities@.take(i as int),
                    cells.take(i as int),
                    b,
                ),
        decreases entities@.len() - i,
    {
        let cell = hash_function(coords[i].0, coords[i].1, cell_size, width, depth);
        proof {
            assert forall|b: int| 0 <= b < size implies bucket(
                entities@.take(i + 1),
                cells.take(i + 1),
                b,
            ) == if b == cell {
                (#[trigger] grid.stuff@[b])@.push(entities@[i as int])
            } else {
                grid.stuff@[b]@
            } by {
                lemma_bucket_step(entities@, cells, i as int, b);
            }
        }
        grid.stuff[cell].push(entities[i]);
        i += 1;
    }
    proof {
        assert(entities@.take(entities@.len() as int) == entities@);
        assert(cells.take(entities@.len() as int) == cells);
        assert(grid@ =~= rebuilt(entities@, cells, size as int));
    }
}

/// Files each agent's observer under the cell that the agent's position
/// falls into. Agent `i` observes through `observers[i]` and stands at
/// `coords[i]`, its position along x and z. What the observers gathered stays.
pub fn observation_system_update_cells(
    grid: &StuffsToObserve,
    observers: &mut Vec<Observer>,
    coords: &Vec<(i64, i64)>,
)
    requires
        grid.wf(),
        grid.spec_width() >= 1,
        grid.spec_depth() >= 1,
        old(observers)@.len() == coords@.len(),
    ensures
        final(observers)@.len() == old(observers)@.len(),
        forall|i: int|
            0 <= i < coords@.len() ==> (#[trigger] final(observers)@[i]).cell == grid.cells_of(
                coords@,
            )[i],
        forall|i: int|
            0 <= i < coords@.len() ==> (#[trigger] final(observers)@[i]).observed@ == old(
                observers,
            )@[i].observed@,
{
    let cell_size = grid.cell_size;
    let width = grid.width;
    let depth = grid.depth;
    proof {
        assert(width * depth == grid.stuff.len());
    }
    let mut i: usize = 0;
    while i < coords.len()
        invariant
            i <= coords@.len(),
            observers@.len() == coords@.len(),
            observers@.len() == old(observers)@.len(),
            width >= 1,
            depth >= 1,
            width * depth <= usize::MAX,
            forall|j: int|
                0 <= j < i ==> (#[trigger] observers@[j]).cell == hashed(
                    coords@,
                    cell_size as int,
                    width as int,
                    depth as int,
                )[j],
            forall|j: int|
                0 <= j < coords@.len() ==> (#[trigger] observers@[j]).observed@ == old(
                    observers,
                )@[j].observed@,
            forall|j: int| i <= j < coords@.len() ==> #[trigger] observers@[j] == old(observers)@[j],
        decreases coords@.len() - i,
    {
        observers[i].cell = hash_function(coords[i].0, coords[i].1, cell_size, width, depth);
        i += 1;
    }
}

/// Lets every observer gather anew: what it observed is replaced by the
/// buckets of the cells around the cell it is filed under, one bucket after
/// the other. The list may hold the observing agent's own identifier.
pub fn observation_system_update_observed(grid: &StuffsToObserve, observers: &mut Vec<Observer>)
    requires
        grid.wf(),
        grid.spec_width() >= 1,
    ensures
        final(observers)@.len() == old(observers)@.len(),
        forall|i: int|
            0 <= i < old(observers)@.len() ==> (#[trigger] final(observers)@[i]).cell == old(
                observers,
            )@[i].cell,
        forall|i: int|
            0 <= i < old(observers)@.len() ==> (#[trigger] final(observers)@[i]).observed@
                == gathered(grid@, grid.cells_around(old(observers)@[i].cell as int)),
{
    let mut i: usize = 0;
    while i < observers.len()
        invariant
            i <= observers@.len(),
            observers@.len() == old(observers)@.len(),
            grid.wf(),
            grid.spec_width() >= 1,
            forall|j: int|
                0 <= j < observers@.len() ==> (#[trigger] observers@[j]).cell == old(
                    observers,
                )@[j].cell,
            forall|j: int|
                0 <= j < i ==> (#[trigger] observers@[j]).observed@ == gathered(
                    grid@,
                    grid.cells_around(old(observers)@[j].cell as int),
                ),
        decreases observers@.len() - i,
    {
        let near_cells = grid.collect_cells(observers[i].cell);
        observers[i].observed = grid.gather(&near_cells);
        i += 1;
    }
}

/// One round of observation over the whole flock: every agent is filed
/// anew, then every observer is filed under its agent's cell, then every
/// observer gathers. Each step is finished for all agents before the next
/// begins, so that an observer gathers from a grid that holds every agent.
/// Agent `i` has the identifier `entities[i]`, stands at `coords[i]` and
/// observes through `observers[i]`.
pub fn observation_system(
    grid: &mut StuffsToObserve,
    observers: &mut Vec<Observer>,
    entities: &Vec<u64>,
    coords: &Vec<(i64, i64)>,
)
    requires
        old(grid).wf(),
        old(grid).spec_width() >= 1,
        old(grid).spec_depth() >= 1,
        entities@.len() == coords@.len(),
        old(observers)@.len() == coords@.len(),
    ensures
        final(grid).wf(),
        final(grid).spec_cell_size() == old(grid).spec_cell_size(),
        final(grid).spec_width() == old(grid).spec_width(),
        final(grid).spec_depth() == old(grid).spec_depth(),
        final(grid)@ == rebuilt(entities@, old(grid).cells_of(coords@), old(grid).spec_size()),
        final(observers)@.len() == old(observers)@.len(),
        forall|i: int|
            0 <= i < coords@.len() ==> (#[trigger] final(observers)@[i]).cell == old(
                grid,
            ).cells_of(coords@)[i],
        forall|i: int|
            0 <= i < coords@.len() ==> (#[trigger] final(observers)@[i]).observed@ == observed_by(
                entities@,
                old(grid).cells_of(coords@),
                old(grid).spec_width(),
                old(grid).spec_depth(),
                i,
            ),
{
    observation_system_update_hashmap(grid, entities, coords);
    observation_system_update_cells(grid, observers, coords);
    observation_system_update_observed(grid, observers);
}

/// The coordinate one step below (`step` 0), at (`step` 1) or one step above
/// (`step` 2) the coordinate `v`, if it lies on an axis of `dim` cells.
fn step_on_axis(v: usize, step: usize, dim: usize) -> (r: Option<usize>)
    requires
        step < 3,
    ensures
        match r {
            Some(c) => c == v + step - 1 && c < dim,
            None => !(0 <= v + step - 1 < dim),
        },
{
    if step == 0 {
        if v >= 1 && v - 1 < dim {
            Some(v - 1)
        } else {
            None
        }
    } else if step == 1 {
        if v < dim {
            Some(v)
        } else {
            None
        }
    } else {
        if v < dim && v + 1 < dim {
            Some(v + 1)
        } else {
            None
        }
    }
}

} // verus!
