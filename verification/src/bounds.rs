//! The box that the flock lives in, and the grid laid over its floor.

use vstd::prelude::*;

verus! {

/// The world: a box with sides along the axes, a margin inside its faces
/// within which agents are turned back, and the number of grid cells along x
/// and along z. All lengths are whole numbers of one unit.
#[derive(Debug)]
pub struct Bounds {
    pub cell_size: i64,
    pub x_min: i64,
    pub x_max: i64,
    pub y_min: i64,
    pub y_max: i64,
    pub z_min: i64,
    pub z_max: i64,
    pub x_size: i64,
    pub y_size: i64,
    pub z_size: i64,
    pub margin: i64,
    pub cells_x: usize,
    pub cells_z: usize,
}

/// A count of cells, cut off at the largest count the machine can hold.
pub open spec fn saturated(count: int) -> int {
    if count > usize::MAX {
        usize::MAX as int
    } else {
        count
    }
}

/// The number of whole cells, each `cell_size` long, that fit along `extent`:
/// the quotient rounded down where it is positive, and no cell where it is
/// not. A cell size of zero fits a positive extent without end, which gives
/// the largest count the machine can hold.
pub open spec fn cells_along(extent: int, cell_size: int) -> int {
    if extent > 0 && cell_size > 0 {
        saturated(extent / cell_size)
    } else if extent < 0 && cell_size < 0 {
        saturated((-extent) / (-cell_size))
    } else if extent > 0 && cell_size == 0 {
        usize::MAX as int
    } else {
        0
    }
}

impl Bounds {
    /// The sizes are the distances between the faces, and the cell counts are
    /// what fits along them.
    pub open spec fn wf(&self) -> bool {
        &&& self.x_size == self.x_max - self.x_min
        &&& self.y_size == self.y_max - self.y_min
        &&& self.z_size == self.z_max - self.z_min
        &&& self.cells_x == cells_along(self.x_size as int, self.cell_size as int)
        &&& self.cells_z == cells_along(self.z_size as int, self.cell_size as int)
    }

    /// Makes the world from its six faces, the cell size and the margin.
    pub fn new(
        cell_size: i64,
        x_min: i64,
        x_max: i64,
        y_min: i64,
        y_max: i64,
        z_min: i64,
        z_max: i64,
        margin: i64,
    ) -> (bounds: Bounds)
        requires
            i64::MIN <= x_max - x_min <= i64::MAX,
            i64::MIN <= y_max - y_min <= i64::MAX,
            i64::MIN <= z_max - z_min <= i64::MAX,
        ensures
            bounds.wf(),
            bounds.cell_size == cell_size,
            bounds.x_min == x_min,
            bounds.x_max == x_max,
            bounds.y_min == y_min,
            bounds.y_max == y_max,
            bounds.z_min == z_min,
            bounds.z_max == z_max,
            bounds.margin == margin,
    {
        let x_size = x_max - x_min;
        let y_size = y_max - y_min;
        let z_size = z_max - z_min;
        let cells_x = count_cells(x_size, cell_size);
        let cells_z = count_cells(z_size, cell_size);
        Bounds {
            cell_size,
            x_min,
            x_max,
            y_min,
            y_max,
            z_min,
            z_max,
            margin,
            x_size,
            y_size,
            z_size,
            cells_x,
            cells_z,
        }
    }
}

/// Counts the whole cells, each `cell_size` long, that fit along `extent`.
fn count_cells(extent: i64, cell_size: i64) -> (cells: usize)
    ensures
        cells == cells_along(extent as int, cell_size as int),
{
    if extent > 0 && cell_size > 0 {
        saturate(extent as u64 / cell_size as u64)
    } else if extent < 0 && cell_size < 0 {
        let far: u64 = if extent == i64::MIN {
            0x8000_0000_0000_0000u64
        } else {
            (-extent) as u64
        };
        let step: u64 = if cell_size == i64::MIN {
            0x8000_0000_0000_0000u64
        } else {
            (-cell_size) as u64
        };
        saturate(far / step)
    } else if extent > 0 && cell_size == 0 {
        usize::MAX
    } else {
        0
    }
}

/// Cuts a count off at the largest count the machine can hold.
fn saturate(count: u64) -> (cells: usize)
    ensures
        cells == saturated(count as int),
{
    if count as u128 > usize::MAX as u128 {
        usize::MAX
    } else {
        count as usize
    }
}

} // verus!
