//! Neighbour observation for a flock of agents over a uniform grid.
//!
//! The floor of the world is cut into `width * depth` square cells. Every
//! agent is filed under the cell that its position falls into, and an agent
//! observes whoever is filed under the three-by-three block of cells around
//! its own. Filing the whole flock takes one pass over the agents, and an
//! agent then looks through nine buckets at most instead of the whole flock.
//!
//! The library works on whole numbers only. A length is a whole number of
//! units, of whatever size the caller settles on; a position is given by its
//! `x` and `z` in those units, rounded down; an agent is a 64-bit identifier.
//! With a cell size that is a whole number of units, rounding a position down
//! before it is filed does not change its cell.
//!
//! - [`bounds`] holds the box that the flock lives in and the size of the
//!   grid laid over its floor.
//! - [`cells`] is the arithmetic: from a position to its cell, from a cell to
//!   the block of cells around it.
//! - [`buckets`] says what the grid holds once the agents are filed, and what
//!   is gathered from a block of cells.
//! - [`observe`] holds the grid and the observers, and the passes over the
//!   flock that file and gather.
//! - [`sight`] says who observes whom after a round.

pub mod bounds;
pub mod buckets;
pub mod cells;
pub mod observe;
pub mod sight;
