//! Arithmetic of the grid: from a position to its cell, and from a cell to
//! the block of cells around it.

use vstd::prelude::*;

verus! {

/// The nearest coordinate to `v` on an axis of `dim` cells, numbered from 0.
pub open spec fn clamp_axis(v: int, dim: int) -> int {
    if v < 0 {
        0
    } else if v >= dim {
        dim - 1
    } else {
        v
    }
}

/// Whether column `col` and row `row` lie on a grid of `width` by `depth` cells.
pub open spec fn in_grid(col: int, row: int, width: int, depth: int) -> bool {
    0 <= col < width && 0 <= row < depth
}

/// The index of the cell in column `col` and row `row`: rows are laid out one
/// after the other, each `width` cells long.
pub open spec fn cell_index(col: int, row: int, width: int) -> int {
    col + row * width
}

/// The column of cell `cell`.
pub open spec fn column_of(cell: int, width: int) -> int {
    cell % width
}

/// The row of cell `cell`.
pub open spec fn row_of(cell: int, width: int) -> int {
    cell / width
}

/// The cell that the coordinates `(col, row)` are filed under: each coordinate
/// is clamped onto its axis first, so that a position outside the grid falls
/// into the nearest border cell.
pub open spec fn cell_hash(col: int, row: int, width: int, depth: int) -> int {
    cell_index(clamp_axis(col, width), clamp_axis(row, depth), width)
}

/// The cell that the position `(x, z)` is filed under, for cells that are
/// `cell_size` units long on each side. The column is `x / cell_size` rounded
/// down, the row is `z / cell_size` rounded down. With a cell size of zero or
/// less every position is filed under cell 0.
pub open spec fn position_hash(x: int, z: int, cell_size: int, width: int, depth: int) -> int {
    if cell_size <= 0 {
        0
    } else {
        cell_hash(x / cell_size, z / cell_size, width, depth)
    }
}

/// Two cells are adjacent when their columns differ by at most one and their
/// rows differ by at most one. A cell is adjacent to itself.
pub open spec fn adjacent(a: int, b: int, width: int) -> bool {
    &&& -1 <= column_of(a, width) - column_of(b, width) <= 1
    &&& -1 <= row_of(a, width) - row_of(b, width) <= 1
}

/// The nine coordinate pairs of the block centred on `cell`, column by column
/// and, within a column, row by row. Some may lie outside the grid.
pub open spec fn block_around(cell: int, width: int) -> Seq<(int, int)> {
    Seq::new(
        9,
        |k: int| (column_of(cell, width) + k / 3 - 1, row_of(cell, width) + k % 3 - 1),
    )
}

/// The test that a coordinate pair lies on a grid of `width` by `depth` cells.
pub open spec fn on_grid(width: int, depth: int) -> spec_fn((int, int)) -> bool {
    |p: (int, int)| in_grid(p.0, p.1, width, depth)
}

/// The map from a coordinate pair to its cell index.
pub open spec fn index_in(width: int) -> spec_fn((int, int)) -> int {
    |p: (int, int)| cell_index(p.0, p.1, width)
}

/// The cells among the first `k` pairs of the block centred on `cell` that
/// lie on the grid.
pub open spec fn neighbor_cells_among(cell: int, width: int, depth: int, k: int) -> Seq<int> {
    block_around(cell, width).take(k).filter(on_grid(width, depth)).map_values(index_in(width))
}

/// The cells of the block centred on `cell` that lie on the grid, in the
/// order of `block_around`.
pub open spec fn neighbor_cells(cell: int, width: int, depth: int) -> Seq<int> {
    block_around(cell, width).filter(on_grid(width, depth)).map_values(index_in(width))
}

/// A sequence of cell indices read as mathematical integers.
pub open spec fn as_ints(cells: Seq<usize>) -> Seq<int> {
    cells.map_values(|c: usize| c as int)
}

/// How many of the coordinates `v - 1`, `v` and `v + 1` lie on an axis of
/// `dim` cells.
pub open spec fn reach(v: int, dim: int) -> int {
    (if 0 <= v - 1 < dim {
        1int
    } else {
        0int
    }) + (if 0 <= v < dim {
        1int
    } else {
        0int
    }) + (if 0 <= v + 1 < dim {
        1int
    } else {
        0int
    })
}

/// Whether the coordinate `v` is the first or the last on an axis of `dim`
/// cells.
pub open spec fn at_border(v: int, dim: int) -> bool {
    v == 0 || v == dim - 1
}

/// Files the position `(x, z)` under a cell of a grid of `width` by `depth`
/// cells, each `cell_size` units long on each side. The height of a position
/// plays no part. With a cell size of zero or less the answer is cell 0,
/// whatever the grid.
pub fn hash_function(x: i64, z: i64, cell_size: i64, width: usize, depth: usize) -> (cell: usize)
    requires
        cell_size > 0 ==> width >= 1 && depth >= 1 && width * depth <= usize::MAX,
    ensures
        cell == position_hash(x as int, z as int, cell_size as int, width as int, depth as int),
        width >= 1 && depth >= 1 ==> cell < width * depth,
{
    if cell_size <= 0 {
        assert(width >= 1 && depth >= 1 ==> 0 < width * depth) by (nonlinear_arith);
        return 0;
    }
    let col = cell_on_axis(x, cell_size, width);
    let row = cell_on_axis(z, cell_size, depth);
    proof {
        lemma_index_in_range(col as int, row as int, width as int, depth as int);
    }
    col + row * width
}

/// The coordinate, on an axis of `dim` cells, of the cell that the position
/// `v` falls into.
fn cell_on_axis(v: i64, cell_size: i64, dim: usize) -> (r: usize)
    requires
        cell_size > 0,
        dim >= 1,
    ensures
        r == clamp_axis((v as int) / (cell_size as int), dim as int),
        r < dim,
{
    if v < 0 {
        assert((v as int) / (cell_size as int) < 0) by (nonlinear_arith)
            requires
                v < 0,
                cell_size > 0,
        ;
        0
    } else {
        let steps = v as u64 / cell_size as u64;
        if steps as u128 >= dim as u128 {
            dim - 1
        } else {
            steps as usize
        }
    }
}

/// Taking one more pair of the block into account appends its cell if the
/// pair lies on the grid, and changes nothing otherwise.
pub proof fn lemma_neighbor_cells_step(cell: int, width: int, depth: int, k: int)
    requires
        0 <= k < 9,
    ensures
        neighbor_cells_among(cell, width, depth, k + 1) == if on_grid(width, depth)(
            block_around(cell, width)[k],
        ) {
            neighbor_cells_among(cell, width, depth, k).push(
                index_in(width)(block_around(cell, width)[k]),
            )
        } else {
            neighbor_cells_among(cell, width, depth, k)
        },
        neighbor_cells_among(cell, width, depth, 0) == Seq::<int>::empty(),
        neighbor_cells_among(cell, width, depth, 9) == neighbor_cells(cell, width, depth),
{
    let block = block_around(cell, width);
    let keep = on_grid(width, depth);
    assert(block.take(k + 1) == block.take(k).push(block[k]));
    block.take(k).lemma_filter_push(block[k], keep);
    block.take(k).filter(keep).lemma_push_map_commute(index_in(width), block[k]);
    assert(block.take(0).filter(keep) == Seq::<(int, int)>::empty()) by {
        reveal(Seq::filter);
    }
    assert(block.take(9) == block);
}

/// A column and a row on the grid make a cell of the grid, and the cell gives
/// the column and the row back.
pub proof fn lemma_index_in_range(col: int, row: int, width: int, depth: int)
    requires
        in_grid(col, row, width, depth),
    ensures
        0 <= cell_index(col, row, width) < width * depth,
        column_of(cell_index(col, row, width), width) == col,
        row_of(cell_index(col, row, width), width) == row,
{
    assert(0 <= row * width && row * width + width <= depth * width && depth * width == width
        * depth) by (nonlinear_arith)
        requires
            0 <= row < depth,
            0 < width,
    ;
    vstd::arithmetic::div_mod::lemma_fundamental_div_mod_converse(
        cell_index(col, row, width),
        width,
        row,
        col,
    );
}

/// Every position is filed under a cell of the grid, wherever it lies and
/// whatever the cell size.
pub proof fn lemma_hash_in_range(x: int, z: int, cell_size: int, width: int, depth: int)
    requires
        width >= 1,
        depth >= 1,
    ensures
        0 <= position_hash(x, z, cell_size, width, depth) < width * depth,
{
    if cell_size <= 0 {
        lemma_index_in_range(0, 0, width, depth);
    } else {
        lemma_index_in_range(
            clamp_axis(x / cell_size, width),
            clamp_axis(z / cell_size, depth),
            width,
            depth,
        );
    }
}

/// The cell of a position lies in the column and the row that the position
/// falls into, each clamped onto the grid.
pub proof fn lemma_hash_coordinates(x: int, z: int, cell_size: int, width: int, depth: int)
    requires
        cell_size > 0,
        width >= 1,
        depth >= 1,
    ensures
        column_of(position_hash(x, z, cell_size, width, depth), width) == clamp_axis(
            x / cell_size,
            width,
        ),
        row_of(position_hash(x, z, cell_size, width, depth), width) == clamp_axis(
            z / cell_size,
            depth,
        ),
{
    lemma_index_in_range(
        clamp_axis(x / cell_size, width),
        clamp_axis(z / cell_size, depth),
        width,
        depth,
    );
}

/// Over the ground that the grid covers nothing is clamped: a position in
/// column `col` and row `row` is filed under the cell of that column and row.
pub proof fn lemma_hash_on_grid(
    x: int,
    z: int,
    cell_size: int,
    width: int,
    depth: int,
    col: int,
    row: int,
)
    requires
        cell_size > 0,
        in_grid(col, row, width, depth),
        col * cell_size <= x < (col + 1) * cell_size,
        row * cell_size <= z < (row + 1) * cell_size,
    ensures
        position_hash(x, z, cell_size, width, depth) == cell_index(col, row, width),
{
    assert((col + 1) * cell_size == col * cell_size + cell_size && (row + 1) * cell_size == row
        * cell_size + cell_size) by (nonlinear_arith);
    vstd::arithmetic::div_mod::lemma_fundamental_div_mod_converse(
        x,
        cell_size,
        col,
        x - col * cell_size,
    );
    vstd::arithmetic::div_mod::lemma_fundamental_div_mod_converse(
        z,
        cell_size,
        row,
        z - row * cell_size,
    );
}

/// Adjacency goes both ways, and every cell is adjacent to itself.
pub proof fn lemma_adjacent_symmetric(a: int, b: int, width: int)
    ensures
        adjacent(a, b, width) == adjacent(b, a, width),
        adjacent(a, a, width),
{
}

/// Every cell of the block around a cell is a cell of the grid.
pub proof fn lemma_neighbor_cells_in_range(cell: int, width: int, depth: int)
    ensures
        forall|k: int|
            0 <= k < neighbor_cells(cell, width, depth).len() ==> 0 <= #[trigger] neighbor_cells(
                cell,
                width,
                depth,
            )[k] < width * depth,
{
    let kept = block_around(cell, width).filter(on_grid(width, depth));
    assert forall|k: int| 0 <= k < neighbor_cells(cell, width, depth).len() implies 0
        <= #[trigger] neighbor_cells(cell, width, depth)[k] < width * depth by {
        block_around(cell, width).lemma_filter_pred(on_grid(width, depth), k);
        lemma_index_in_range(kept[k].0, kept[k].1, width, depth);
    }
}

/// The block around `cell` holds exactly the cells of the grid that are
/// adjacent to `cell`.
pub proof fn lemma_neighbor_cells_contain(cell: int, width: int, depth: int, c: int)
    requires
        width >= 1,
    ensures
        neighbor_cells(cell, width, depth).contains(c) <==> 0 <= c < width * depth && adjacent(
            c,
            cell,
            width,
        ),
{
    let block = block_around(cell, width);
    let kept = block.filter(on_grid(width, depth));
    let cells = neighbor_cells(cell, width, depth);
    if cells.contains(c) {
        let j = choose|j: int| 0 <= j < cells.len() && cells[j] == c;
        block.lemma_filter_pred(on_grid(width, depth), j);
        assert(kept.contains(kept[j]));
        block.lemma_filter_contains_rev(on_grid(width, depth), kept[j]);
        let k = choose|k: int| 0 <= k < block.len() && block[k] == kept[j];
        lemma_index_in_range(kept[j].0, kept[j].1, width, depth);
    }
    if 0 <= c < width * depth && adjacent(c, cell, width) {
        let col = column_of(c, width);
        let row = row_of(c, width);
        vstd::arithmetic::div_mod::lemma_fundamental_div_mod(c, width);
        assert(0 <= row < depth) by (nonlinear_arith)
            requires
                0 <= col < width,
                0 <= c < width * depth,
                c == width * row + col,
        ;
        assert(c == cell_index(col, row, width)) by (nonlinear_arith)
            requires
                c == width * row + col,
        ;
        let k = 3 * (col - column_of(cell, width) + 1) + (row - row_of(cell, width) + 1);
        assert(block[k] == (col, row));
        block.lemma_filter_contains(on_grid(width, depth), k);
        let j = choose|j: int| 0 <= j < kept.len() && kept[j] == block[k];
        assert(cells[j] == c);
    }
}

/// No cell occurs twice in the block around a cell.
pub proof fn lemma_neighbor_cells_distinct(cell: int, width: int, depth: int)
    ensures
        neighbor_cells(cell, width, depth).no_duplicates(),
{
    lemma_cells_among_distinct(cell, width, depth, 9);
    lemma_neighbor_cells_step(cell, width, depth, 0);
}

/// Among the first `k` pairs of a block no cell occurs twice, and each cell
/// found comes from one of those pairs.
proof fn lemma_cells_among_distinct(cell: int, width: int, depth: int, k: int)
    requires
        0 <= k <= 9,
    ensures
        neighbor_cells_among(cell, width, depth, k).no_duplicates(),
        forall|c: int| #[trigger]
            neighbor_cells_among(cell, width, depth, k).contains(c) ==> exists|m: int|
                0 <= m < k && in_grid(
                    (#[trigger] block_around(cell, width)[m]).0,
                    block_around(cell, width)[m].1,
                    width,
                    depth,
                ) && cell_index(block_around(cell, width)[m].0, block_around(cell, width)[m].1, width)
                    == c,
    decreases k,
{
    let block = block_around(cell, width);
    if k == 0 {
        lemma_neighbor_cells_step(cell, width, depth, 0);
    } else {
        lemma_cells_among_distinct(cell, width, depth, k - 1);
        lemma_neighbor_cells_step(cell, width, depth, k - 1);
        let before = neighbor_cells_among(cell, width, depth, k - 1);
        let after = neighbor_cells_among(cell, width, depth, k);
        let last = block[k - 1];
        if in_grid(last.0, last.1, width, depth) {
            let c_last = cell_index(last.0, last.1, width);
            lemma_index_in_range(last.0, last.1, width, depth);
            if before.contains(c_last) {
                let m = choose|m: int|
                    0 <= m < k - 1 && in_grid(
                        (#[trigger] block[m]).0,
                        block[m].1,
                        width,
                        depth,
                    ) && cell_index(block[m].0, block[m].1, width) == c_last;
                lemma_index_in_range(block[m].0, block[m].1, width, depth);
                assert(false);
            }
            assert forall|c: int| #[trigger] after.contains(c) implies exists|m: int|
                0 <= m < k && in_grid((#[trigger] block[m]).0, block[m].1, width, depth)
                    && cell_index(block[m].0, block[m].1, width) == c by {
                let j = choose|j: int| 0 <= j < after.len() && after[j] == c;
                if j < before.len() {
                    assert(before.contains(before[j]));
                } else {
                    assert(in_grid(block[k - 1].0, block[k - 1].1, width, depth));
                }
            }
        } else {
            assert(after == before);
        }
    }
}

/// The block around a cell has as many cells as it has columns on the grid
/// times as it has rows on the grid.
pub proof fn lemma_neighbor_cells_count(cell: int, width: int, depth: int)
    ensures
        neighbor_cells(cell, width, depth).len() == reach(column_of(cell, width), width) * reach(
            row_of(cell, width),
            depth,
        ),
{
    lemma_neighbor_cells_step(cell, width, depth, 0);
    lemma_neighbor_cells_step(cell, width, depth, 1);
    lemma_neighbor_cells_step(cell, width, depth, 2);
    lemma_neighbor_cells_step(cell, width, depth, 3);
    lemma_neighbor_cells_step(cell, width, depth, 4);
    lemma_neighbor_cells_step(cell, width, depth, 5);
    lemma_neighbor_cells_step(cell, width, depth, 6);
    lemma_neighbor_cells_step(cell, width, depth, 7);
    lemma_neighbor_cells_step(cell, width, depth, 8);
    let cols = reach(column_of(cell, width), width);
    let rows = reach(row_of(cell, width), depth);
    if cols == 0 {
        assert(cols * rows == 0);
    } else if cols == 1 {
        assert(cols * rows == rows);
    } else if cols == 2 {
        assert(cols * rows == rows + rows);
    } else {
        assert(cols == 3);
        assert(cols * rows == rows + rows + rows);
    }
}

/// On a grid of at least two columns and two rows, the block around a corner
/// cell has four cells, the block around any other border cell has six, and
/// the block around a cell inside has nine.
pub proof fn lemma_neighbor_cells_by_place(cell: int, width: int, depth: int)
    requires
        width >= 2,
        depth >= 2,
        0 <= cell < width * depth,
    ensures
        neighbor_cells(cell, width, depth).len() == if at_border(column_of(cell, width), width)
            && at_border(row_of(cell, width), depth) {
            4int
        } else if at_border(column_of(cell, width), width) || at_border(
            row_of(cell, width),
            depth,
        ) {
            6int
        } else {
            9int
        },
{
    lemma_neighbor_cells_count(cell, width, depth);
    let col = column_of(cell, width);
    let row = row_of(cell, width);
    vstd::arithmetic::div_mod::lemma_fundamental_div_mod(cell, width);
    assert(0 <= row < depth) by (nonlinear_arith)
        requires
            0 <= col < width,
            0 <= cell < width * depth,
            cell == width * row + col,
    ;
    let cols = reach(col, width);
    let rows = reach(row, depth);
    assert(cols == if at_border(col, width) {
        2int
    } else {
        3int
    });
    assert(rows == if at_border(row, depth) {
        2int
    } else {
        3int
    });
    assert(cols * rows == if cols == 2 && rows == 2 {
        4int
    } else if cols == 2 || rows == 2 {
        6int
    } else {
        9int
    }) by (nonlinear_arith)
        requires
            2 <= cols <= 3,
            2 <= rows <= 3,
    ;
}

} // verus!
