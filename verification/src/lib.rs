//! A discretized navigable surface with a single autonomous agent.
//!
//! The grid maps a continuous world coordinate space to discrete cell
//! indices and back, obstacles (rocks, pillars, a marker flag) subdivide
//! the surface into walkable and blocked regions, an A* search finds
//! shortest paths over the 8-connected grid, and a frame-stepped
//! kinematic controller moves the agent along the resulting path.
//!
//! World coordinates are fixed-point: one world unit is `WORLD_SCALE`
//! coordinate ticks, so `2.5` world units are written `2500`.

use vstd::prelude::*;

pub mod astar;
pub mod grid;
pub mod robot;

verus! {

/// Fixed-point scale: coordinate ticks per world unit.
pub const WORLD_SCALE: i64 = 1000;

/// Default grid width, in cells.
pub const WIDTH: usize = 200;

/// Default grid height, in cells.
pub const HEIGHT: usize = 200;

/// Cells covered by the agent's character model, horizontally.
pub const CHARACTER_OCCUPY_WIDTH: usize = 2;

/// Cells covered by the agent's character model, vertically.
pub const CHARACTER_OCCUPY_HEIGHT: usize = 2;

/// Side length of a pillar footprint, in cells.
pub const PILLAR_SIZE: usize = 2;

/// Default agent speed, in coordinate ticks per second (2.0 world units).
pub const SPEED: i64 = 2000;

/// Largest grid dimension the library accepts; keeps every index and
/// every fixed-point product comfortably inside the machine integers.
pub const MAX_DIM: usize = 40_000;

/// Largest magnitude of a world coordinate the library accepts, in
/// coordinate ticks; keeps squared distances inside `i64`.
pub const MAX_WORLD: i64 = 1_000_000_000;

} // verus!
