//! Who observes whom after a round of observation.

use vstd::prelude::*;
use crate::buckets::{
    bucket, gathered, lemma_agent_is_filed, lemma_bucket_distinct, lemma_filed_is_agent,
    lemma_gathered_contains, lemma_gathered_step, rebuilt,
};
use crate::cells::{
    adjacent, lemma_adjacent_symmetric, lemma_neighbor_cells_contain,
    lemma_neighbor_cells_distinct, lemma_neighbor_cells_in_range, neighbor_cells,
};

verus! {

/// What agent `i` observes after a round on a grid of `width` by `depth`
/// cells: the buckets of the cells around its own, one after the other, once
/// every agent was filed. Agent `j` has the identifier `entities[j]` and the
/// cell `cells[j]`.
pub open spec fn observed_by(
    entities: Seq<u64>,
    cells: Seq<int>,
    width: int,
    depth: int,
    i: int,
) -> Seq<u64> {
    gathered(rebuilt(entities, cells, width * depth), neighbor_cells(cells[i], width, depth))
}

/// The agents stand on the grid: there is one cell for each identifier, and
/// each is a cell of the grid.
pub open spec fn on_the_grid(entities: Seq<u64>, cells: Seq<int>, width: int, depth: int) -> bool {
    &&& width >= 1
    &&& entities.len() == cells.len()
    &&& forall|j: int| 0 <= j < cells.len() ==> 0 <= #[trigger] cells[j] < width * depth
}

/// The test that an identifier is not `me`.
pub open spec fn other_than(me: u64) -> spec_fn(u64) -> bool {
    |e: u64| e != me
}

/// An agent observes exactly the identifiers of the agents filed under a cell
/// adjacent to its own.
pub proof fn lemma_observed_contains(
    entities: Seq<u64>,
    cells: Seq<int>,
    width: int,
    depth: int,
    i: int,
    e: u64,
)
    requires
        on_the_grid(entities, cells, width, depth),
        0 <= i < entities.len(),
    ensures
        observed_by(entities, cells, width, depth, i).contains(e) <==> exists|j: int|
            0 <= j < entities.len() && #[trigger] entities[j] == e && adjacent(
                cells[j],
                cells[i],
                width,
            ),
{
    let buckets = rebuilt(entities, cells, width * depth);
    let near = neighbor_cells(cells[i], width, depth);
    lemma_gathered_contains(buckets, near, e);
    lemma_neighbor_cells_in_range(cells[i], width, depth);
    if observed_by(entities, cells, width, depth, i).contains(e) {
        let k = choose|k: int| 0 <= k < near.len() && (#[trigger] buckets[near[k]]).contains(e);
        assert(near.contains(near[k]));
        lemma_neighbor_cells_contain(cells[i], width, depth, near[k]);
        lemma_filed_is_agent(entities, cells, near[k], e);
    }
    if exists|j: int|
        0 <= j < entities.len() && #[trigger] entities[j] == e && adjacent(
            cells[j],
            cells[i],
            width,
        ) {
        let j = choose|j: int|
            0 <= j < entities.len() && #[trigger] entities[j] == e && adjacent(
                cells[j],
                cells[i],
                width,
            );
        lemma_neighbor_cells_contain(cells[i], width, depth, cells[j]);
        let k = choose|k: int| 0 <= k < near.len() && near[k] == cells[j];
        lemma_agent_is_filed(entities, cells, j);
        assert(buckets[near[k]].contains(e));
    }
}

/// Every agent observes itself.
pub proof fn lemma_observes_itself(
    entities: Seq<u64>,
    cells: Seq<int>,
    width: int,
    depth: int,
    i: int,
)
    requires
        on_the_grid(entities, cells, width, depth),
        0 <= i < entities.len(),
    ensures
        observed_by(entities, cells, width, depth, i).contains(entities[i]),
{
    lemma_adjacent_symmetric(cells[i], cells[i], width);
    lemma_observed_contains(entities, cells, width, depth, i, entities[i]);
}

/// Two agents in adjacent cells observe each other.
pub proof fn lemma_observation_is_mutual(
    entities: Seq<u64>,
    cells: Seq<int>,
    width: int,
    depth: int,
    i: int,
    j: int,
)
    requires
        on_the_grid(entities, cells, width, depth),
        0 <= i < entities.len(),
        0 <= j < entities.len(),
        adjacent(cells[i], cells[j], width),
    ensures
        observed_by(entities, cells, width, depth, i).contains(entities[j]),
        observed_by(entities, cells, width, depth, j).contains(entities[i]),
{
    lemma_adjacent_symmetric(cells[i], cells[j], width);
    lemma_observed_contains(entities, cells, width, depth, i, entities[j]);
    lemma_observed_contains(entities, cells, width, depth, j, entities[i]);
}

/// Where no two agents share an identifier, an agent observes nobody twice.
pub proof fn lemma_observed_distinct(
    entities: Seq<u64>,
    cells: Seq<int>,
    width: int,
    depth: int,
    i: int,
)
    requires
        on_the_grid(entities, cells, width, depth),
        entities.no_duplicates(),
        0 <= i < entities.len(),
    ensures
        observed_by(entities, cells, width, depth, i).no_duplicates(),
{
    let near = neighbor_cells(cells[i], width, depth);
    lemma_neighbor_cells_distinct(cells[i], width, depth);
    lemma_neighbor_cells_in_range(cells[i], width, depth);
    lemma_gathered_distinct(entities, cells, width * depth, near, near.len() as int);
    assert(near.take(near.len() as int) == near);
}

/// Where no two agents share an identifier, what is gathered from the first
/// `k` of some cells of the grid, no two of them the same, holds nobody twice.
proof fn lemma_gathered_distinct(
    entities: Seq<u64>,
    cells: Seq<int>,
    size: int,
    near: Seq<int>,
    k: int,
)
    requires
        entities.len() == cells.len(),
        entities.no_duplicates(),
        near.no_duplicates(),
        forall|m: int| 0 <= m < near.len() ==> 0 <= #[trigger] near[m] < size,
        0 <= k <= near.len(),
    ensures
        gathered(rebuilt(entities, cells, size), near.take(k)).no_duplicates(),
    decreases k,
{
    let buckets = rebuilt(entities, cells, size);
    if k == 0 {
        if near.len() > 0 {
            lemma_gathered_step(buckets, near, 0);
        } else {
            assert(near.take(0).map_values(crate::buckets::bucket_at(buckets)) == Seq::<
                Seq<u64>,
            >::empty());
        }
    } else {
        lemma_gathered_distinct(entities, cells, size, near, k - 1);
        lemma_gathered_step(buckets, near, k - 1);
        let before = gathered(buckets, near.take(k - 1));
        let last = buckets[near[k - 1]];
        lemma_bucket_distinct(entities, cells, near[k - 1]);
        assert forall|a: int, b: int| 0 <= a < before.len() && 0 <= b < last.len() implies before[a]
            != last[b] by {
            if before[a] == last[b] {
                let e = before[a];
                assert(before.contains(e));
                assert(last.contains(e));
                lemma_gathered_contains(buckets, near.take(k - 1), e);
                let m = choose|m: int|
                    0 <= m < k - 1 && (#[trigger] buckets[near.take(k - 1)[m]]).contains(e);
                lemma_filed_is_agent(entities, cells, near[m], e);
                lemma_filed_is_agent(entities, cells, near[k - 1], e);
                let p = choose|p: int|
                    0 <= p < entities.len() && #[trigger] entities[p] == e && cells[p] == near[m];
                let q = choose|q: int|
                    0 <= q < entities.len() && #[trigger] entities[q] == e && cells[q] == near[k
                        - 1];
                assert(p == q);
                assert(near[m] == near[k - 1]);
            }
        }
        vstd::seq_lib::lemma_no_dup_in_concat(before, last);
    }
}

/// Leaving oneself out of a list leaves out nothing else.
pub proof fn lemma_others_contains(observed: Seq<u64>, me: u64, e: u64)
    ensures
        observed.filter(other_than(me)).contains(e) <==> e != me && observed.contains(e),
{
    let others = observed.filter(other_than(me));
    if others.contains(e) {
        let j = choose|j: int| 0 <= j < others.len() && others[j] == e;
        observed.lemma_filter_pred(other_than(me), j);
        observed.lemma_filter_contains_rev(other_than(me), e);
    }
    if e != me && observed.contains(e) {
        let i = choose|i: int| 0 <= i < observed.len() && observed[i] == e;
        observed.lemma_filter_contains(other_than(me), i);
    }
}

/// Where no two agents share an identifier, an agent is left with nobody but
/// itself exactly when no other agent is filed under a cell adjacent to its
/// own.
pub proof fn lemma_alone(entities: Seq<u64>, cells: Seq<int>, width: int, depth: int, i: int)
    requires
        on_the_grid(entities, cells, width, depth),
        entities.no_duplicates(),
        0 <= i < entities.len(),
    ensures
        observed_by(entities, cells, width, depth, i).filter(other_than(entities[i])).len() == 0
            <==> forall|j: int|
            0 <= j < entities.len() && j != i ==> !adjacent(#[trigger] cells[j], cells[i], width),
{
    let observed = observed_by(entities, cells, width, depth, i);
    let others = observed.filter(other_than(entities[i]));
    if others.len() == 0 {
        assert forall|j: int| 0 <= j < entities.len() && j != i implies !adjacent(
            #[trigger] cells[j],
            cells[i],
            width,
        ) by {
            if adjacent(cells[j], cells[i], width) {
                lemma_observed_contains(entities, cells, width, depth, i, entities[j]);
                lemma_others_contains(observed, entities[i], entities[j]);
                let k = choose|k: int| 0 <= k < others.len() && others[k] == entities[j];
            }
        }
    }
    if others.len() > 0 {
        let e = others[0];
        assert(others.contains(e));
        lemma_others_contains(observed, entities[i], e);
        lemma_observed_contains(entities, cells, width, depth, i, e);
        let j = choose|j: int|
            0 <= j < entities.len() && #[trigger] entities[j] == e && adjacent(
                cells[j],
                cells[i],
                width,
            );
        assert(j != i);
        assert(adjacent(cells[j], cells[i], width));
    }
}

} // verus!
