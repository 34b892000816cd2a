//! Procedural maze generation on a grid.
//!
//! A maze is built in two stages. The path builder runs loop-erased random
//! walks on a coarse logical grid: one critical path from the start cell to
//! the end cell, then dead-end branches that join the cells already claimed.
//! The grid expander draws those paths at three times the resolution as a
//! dense occupancy grid of wall and floor tiles.
//!
//! - [`grid`]: the logical grid, its cells, and the tiles.
//! - [`walk`]: one move of a loop-erased walk.
//! - [`builder`]: the critical path and the branches, drawn at random.
//! - [`expand`]: the occupancy grid of a set of paths.
//! - [`reach`]: every floor tile is reached from the start.
//! - [`maze`]: a maze made in one go, and made anew on request.
//! - [`trigger`]: the signal that asks for a new maze.
//! - [`random`]: the random source.
//!
//! The whole crate is verified with Verus, except for the one call into the
//! `rand` crate in [`random`], whose contract is taken on trust.

pub mod builder;
pub mod expand;
pub mod grid;
pub mod maze;
pub mod random;
pub mod reach;
pub mod trigger;
pub mod walk;
