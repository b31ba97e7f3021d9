//! What the grid holds after the agents were filed, and what an agent gathers
//! from it, as functions of the agents' identifiers and cells.

use vstd::prelude::*;
use crate::cells::{lemma_hash_in_range, position_hash};

verus! {

/// The test that an agent, given as its identifier and its cell, is filed
/// under cell `c`.
pub open spec fn filed_under(c: int) -> spec_fn((u64, int)) -> bool {
    |agent: (u64, int)| agent.1 == c
}

/// The map from an agent, given as its identifier and its cell, to its
/// identifier.
pub open spec fn identifier() -> spec_fn((u64, int)) -> u64 {
    |agent: (u64, int)| agent.0
}

/// The identifiers of the agents filed under cell `c`, in the order of the
/// agents. Agent `i` has the identifier `entities[i]` and the cell `cells[i]`.
pub open spec fn bucket(entities: Seq<u64>, cells: Seq<int>, c: int) -> Seq<u64> {
    entities.zip_with(cells).filter(filed_under(c)).map_values(identifier())
}

/// The buckets of a grid of `size` cells after the agents were filed.
pub open spec fn rebuilt(entities: Seq<u64>, cells: Seq<int>, size: int) -> Seq<Seq<u64>> {
    Seq::new(size as nat, |c: int| bucket(entities, cells, c))
}

/// The cell of each agent from its position `(x, z)`, on a grid of `width` by
/// `depth` cells that are `cell_size` units long on each side.
pub open spec fn hashed(coords: Seq<(i64, i64)>, cell_size: int, width: int, depth: int) -> Seq<
    int,
> {
    coords.map_values(
        |p: (i64, i64)| position_hash(p.0 as int, p.1 as int, cell_size, width, depth),
    )
}

/// The map from a cell to its bucket.
pub open spec fn bucket_at(buckets: Seq<Seq<u64>>) -> spec_fn(int) -> Seq<u64> {
    |c: int| buckets[c]
}

/// The buckets of the cells `cells`, one after the other.
pub open spec fn gathered(buckets: Seq<Seq<u64>>, cells: Seq<int>) -> Seq<u64> {
    cells.flat_map(bucket_at(buckets))
}

/// Filing one more agent appends its identifier to the bucket of its cell and
/// leaves every other bucket as it was.
pub proof fn lemma_bucket_step(entities: Seq<u64>, cells: Seq<int>, i: int, c: int)
    requires
        entities.len() == cells.len(),
        0 <= i < entities.len(),
    ensures
        bucket(entities.take(i + 1), cells.take(i + 1), c) == if cells[i] == c {
            bucket(entities.take(i), cells.take(i), c).push(entities[i])
        } else {
            bucket(entities.take(i), cells.take(i), c)
        },
{
    let before = entities.take(i).zip_with(cells.take(i));
    let after = entities.take(i + 1).zip_with(cells.take(i + 1));
    assert(after == before.push((entities[i], cells[i])));
    before.lemma_filter_push((entities[i], cells[i]), filed_under(c));
    before.filter(filed_under(c)).lemma_push_map_commute(identifier(), (entities[i], cells[i]));
}

/// Before any agent is filed every bucket is empty.
pub proof fn lemma_bucket_of_none(entities: Seq<u64>, cells: Seq<int>, c: int)
    ensures
        bucket(entities.take(0), cells.take(0), c) == Seq::<u64>::empty(),
{
    reveal(Seq::filter);
    assert(entities.take(0).zip_with(cells.take(0)) == Seq::<(u64, int)>::empty());
}

/// Gathering from one more cell appends that cell's bucket.
pub proof fn lemma_gathered_step(buckets: Seq<Seq<u64>>, cells: Seq<int>, k: int)
    requires
        0 <= k < cells.len(),
    ensures
        gathered(buckets, cells.take(k + 1)) == gathered(buckets, cells.take(k)) + buckets[cells[k]],
        gathered(buckets, cells.take(0)) == Seq::<u64>::empty(),
        gathered(buckets, cells.take(cells.len() as int)) == gathered(buckets, cells),
{
    cells.lemma_flat_map_take_append(bucket_at(buckets), k);
    assert(cells.take(0).map_values(bucket_at(buckets)) == Seq::<Seq<u64>>::empty());
    assert(cells.take(cells.len() as int) == cells);
}

/// Every agent's cell is a cell of the grid.
pub proof fn lemma_hashed_in_range(coords: Seq<(i64, i64)>, cell_size: int, width: int, depth: int)
    requires
        width >= 1,
        depth >= 1,
    ensures
        hashed(coords, cell_size, width, depth).len() == coords.len(),
        forall|i: int|
            0 <= i < coords.len() ==> 0 <= #[trigger] hashed(coords, cell_size, width, depth)[i]
                < width * depth,
{
    assert forall|i: int| 0 <= i < coords.len() implies 0 <= #[trigger] hashed(
        coords,
        cell_size,
        width,
        depth,
    )[i] < width * depth by {
        lemma_hash_in_range(coords[i].0 as int, coords[i].1 as int, cell_size, width, depth);
    }
}

/// Every agent is filed under its cell.
pub proof fn lemma_agent_is_filed(entities: Seq<u64>, cells: Seq<int>, i: int)
    requires
        entities.len() == cells.len(),
        0 <= i < entities.len(),
    ensures
        bucket(entities, cells, cells[i]).contains(entities[i]),
{
    let agents = entities.zip_with(cells);
    let filed = agents.filter(filed_under(cells[i]));
    assert(agents[i] == (entities[i], cells[i]));
    agents.lemma_filter_contains(filed_under(cells[i]), i);
    let j = choose|j: int| 0 <= j < filed.len() && filed[j] == agents[i];
    assert(bucket(entities, cells, cells[i])[j] == entities[i]);
}

/// Whatever is filed under a cell is the identifier of an agent of that cell.
pub proof fn lemma_filed_is_agent(entities: Seq<u64>, cells: Seq<int>, c: int, e: u64)
    requires
        entities.len() == cells.len(),
        bucket(entities, cells, c).contains(e),
    ensures
        exists|i: int| 0 <= i < entities.len() && #[trigger] entities[i] == e && cells[i] == c,
{
    let agents = entities.zip_with(cells);
    let filed = agents.filter(filed_under(c));
    let j = choose|j: int|
        0 <= j < bucket(entities, cells, c).len() && bucket(entities, cells, c)[j] == e;
    agents.lemma_filter_pred(filed_under(c), j);
    assert(filed.contains(filed[j]));
    agents.lemma_filter_contains_rev(filed_under(c), filed[j]);
    let i = choose|i: int| 0 <= i < agents.len() && agents[i] == filed[j];
    assert(entities[i] == e && cells[i] == c);
}

/// Where no two agents share an identifier, no identifier is filed twice
/// under a cell.
pub proof fn lemma_bucket_distinct(entities: Seq<u64>, cells: Seq<int>, c: int)
    requires
        entities.len() == cells.len(),
        entities.no_duplicates(),
    ensures
        bucket(entities, cells, c).no_duplicates(),
{
    lemma_bucket_prefix_distinct(entities, cells, c, entities.len() as int);
    assert(entities.take(entities.len() as int) == entities);
    assert(cells.take(entities.len() as int) == cells);
}

/// The same of the first `n` agents.
proof fn lemma_bucket_prefix_distinct(entities: Seq<u64>, cells: Seq<int>, c: int, n: int)
    requires
        entities.len() == cells.len(),
        entities.no_duplicates(),
        0 <= n <= entities.len(),
    ensures
        bucket(entities.take(n), cells.take(n), c).no_duplicates(),
    decreases n,
{
    if n == 0 {
        lemma_bucket_of_none(entities, cells, c);
    } else {
        lemma_bucket_prefix_distinct(entities, cells, c, n - 1);
        lemma_bucket_step(entities, cells, n - 1, c);
        let before = bucket(entities.take(n - 1), cells.take(n - 1), c);
        if cells[n - 1] == c && before.contains(entities[n - 1]) {
            lemma_filed_is_agent(entities.take(n - 1), cells.take(n - 1), c, entities[n - 1]);
            let i = choose|i: int|
                0 <= i < n - 1 && #[trigger] entities.take(n - 1)[i] == entities[n - 1];
            assert(entities[i] == entities[n - 1]);
        }
    }
}

/// Where no two agents share an identifier, every agent is filed under
/// exactly one cell: its own.
pub proof fn lemma_filed_under_one_cell(entities: Seq<u64>, cells: Seq<int>, i: int, c: int)
    requires
        entities.len() == cells.len(),
        entities.no_duplicates(),
        0 <= i < entities.len(),
    ensures
        bucket(entities, cells, c).contains(entities[i]) <==> c == cells[i],
{
    lemma_agent_is_filed(entities, cells, i);
    if bucket(entities, cells, c).contains(entities[i]) {
        lemma_filed_is_agent(entities, cells, c, entities[i]);
    }
}

/// Appending an identifier to one bucket adds it once to what the buckets
/// hold together.
proof fn lemma_flatten_after_push(buckets: Seq<Seq<u64>>, c: int, e: u64)
    requires
        0 <= c < buckets.len(),
    ensures
        buckets.update(c, buckets[c].push(e)).flatten().to_multiset()
            == buckets.flatten().to_multiset().insert(e),
{
    broadcast use vstd::seq_lib::lemma_multiset_commutative;
    broadcast use vstd::seq_lib::to_multiset_build;

    let front = buckets.take(c);
    let rest = buckets.skip(c + 1);
    let longer = buckets[c].push(e);
    assert(buckets == front + seq![buckets[c]] + rest);
    assert(buckets.update(c, longer) == front + seq![longer] + rest);
    vstd::seq_lib::lemma_flatten_concat(front + seq![buckets[c]], rest);
    vstd::seq_lib::lemma_flatten_concat(front, seq![buckets[c]]);
    vstd::seq_lib::lemma_flatten_concat(front + seq![longer], rest);
    vstd::seq_lib::lemma_flatten_concat(front, seq![longer]);
    seq![buckets[c]].lemma_flatten_one_element();
    seq![longer].lemma_flatten_one_element();
    assert(buckets.flatten() == front.flatten() + buckets[c] + rest.flatten());
    assert(buckets.update(c, longer).flatten() == front.flatten() + longer + rest.flatten());
    assert(buckets.update(c, longer).flatten().to_multiset() =~= buckets.flatten().to_multiset().insert(
        e,
    ));
}

/// After the first `n` agents were filed, the buckets together hold the
/// identifiers of those agents, each as often as it occurs among them.
proof fn lemma_rebuilt_prefix_holds_everyone(
    entities: Seq<u64>,
    cells: Seq<int>,
    size: int,
    n: int,
)
    requires
        0 <= size,
        entities.len() == cells.len(),
        forall|j: int| 0 <= j < cells.len() ==> 0 <= #[trigger] cells[j] < size,
        0 <= n <= entities.len(),
    ensures
        rebuilt(entities.take(n), cells.take(n), size).flatten().to_multiset() == entities.take(
            n,
        ).to_multiset(),
    decreases n,
{
    broadcast use vstd::seq_lib::to_multiset_build;

    let after = rebuilt(entities.take(n), cells.take(n), size);
    if n == 0 {
        assert forall|c: int| 0 <= c < size implies #[trigger] after[c] == Seq::<u64>::empty() by {
            lemma_bucket_of_none(entities, cells, c);
        }
        lemma_flatten_of_empty_buckets(after);
        assert(entities.take(0) == Seq::<u64>::empty());
    } else {
        lemma_rebuilt_prefix_holds_everyone(entities, cells, size, n - 1);
        let before = rebuilt(entities.take(n - 1), cells.take(n - 1), size);
        let c = cells[n - 1];
        let e = entities[n - 1];
        assert forall|b: int| 0 <= b < size implies #[trigger] after[b] == before.update(
            c,
            before[c].push(e),
        )[b] by {
            lemma_bucket_step(entities, cells, n - 1, b);
        }
        assert(after == before.update(c, before[c].push(e)));
        lemma_flatten_after_push(before, c, e);
        assert(entities.take(n) == entities.take(n - 1).push(e));
    }
}

/// Empty buckets hold nothing together.
proof fn lemma_flatten_of_empty_buckets(buckets: Seq<Seq<u64>>)
    requires
        forall|c: int| 0 <= c < buckets.len() ==> #[trigger] buckets[c] == Seq::<u64>::empty(),
    ensures
        buckets.flatten() == Seq::<u64>::empty(),
    decreases buckets.len(),
{
    if buckets.len() > 0 {
        assert forall|c: int| 0 <= c < buckets.drop_first().len() implies
            #[trigger] buckets.drop_first()[c] == Seq::<u64>::empty() by {
            assert(buckets.drop_first()[c] == buckets[c + 1]);
        }
        lemma_flatten_of_empty_buckets(buckets.drop_first());
    }
}

/// After the agents were filed, the buckets together hold every agent's
/// identifier exactly as often as it occurs among the agents: nobody is left
/// out and nobody is filed twice. In particular they hold as many identifiers
/// as there are agents.
pub proof fn lemma_rebuilt_holds_everyone(entities: Seq<u64>, cells: Seq<int>, size: int)
    requires
        0 <= size,
        entities.len() == cells.len(),
        forall|j: int| 0 <= j < cells.len() ==> 0 <= #[trigger] cells[j] < size,
    ensures
        rebuilt(entities, cells, size).flatten().to_multiset() == entities.to_multiset(),
        rebuilt(entities, cells, size).flatten().len() == entities.len(),
{
    lemma_rebuilt_prefix_holds_everyone(entities, cells, size, entities.len() as int);
    assert(entities.take(entities.len() as int) == entities);
    assert(cells.take(entities.len() as int) == cells);
    vstd::seq_lib::to_multiset_len(rebuilt(entities, cells, size).flatten());
    vstd::seq_lib::to_multiset_len(entities);
}

/// What is gathered from some cells is what is filed under one of them.
pub proof fn lemma_gathered_contains(buckets: Seq<Seq<u64>>, cells: Seq<int>, e: u64)
    ensures
        gathered(buckets, cells).contains(e) <==> exists|k: int|
            0 <= k < cells.len() && (#[trigger] buckets[cells[k]]).contains(e),
    decreases cells.len(),
{
    if cells.len() == 0 {
        assert(cells.map_values(bucket_at(buckets)) == Seq::<Seq<u64>>::empty());
    } else {
        let n = cells.len() - 1;
        let front = cells.take(n);
        lemma_gathered_contains(buckets, front, e);
        lemma_gathered_step(buckets, cells, n);
        vstd::seq_lib::lemma_seq_concat_contains_all_elements(
            gathered(buckets, front),
            buckets[cells[n]],
            e,
        );
        if gathered(buckets, cells).contains(e) {
            if gathered(buckets, front).contains(e) {
                let k = choose|k: int|
                    0 <= k < front.len() && (#[trigger] buckets[front[k]]).contains(e);
                assert(buckets[cells[k]].contains(e));
            } else {
                assert(buckets[cells[n]].contains(e));
            }
        }
        if exists|k: int| 0 <= k < cells.len() && (#[trigger] buckets[cells[k]]).contains(e) {
            let k = choose|k: int|
                0 <= k < cells.len() && (#[trigger] buckets[cells[k]]).contains(e);
            if k < n {
                assert(buckets[front[k]].contains(e));
            }
        }
    }
}

} // verus!
