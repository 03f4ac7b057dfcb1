//! The bounded world the agents live in.
//!
//! A fixed rectangle, in milli-units, with toroidal wraparound; the
//! uniform grid divides it into square cells.

use vstd::prelude::*;
use crate::vec2::Vec2i;

verus! {

/// World width in milli-units (1200 units).
pub const WIDTH: i64 = 1200000;

/// World height in milli-units (800 units).
pub const HEIGHT: i64 = 800000;

/// Side of a grid cell in milli-units (40 units).
pub const CELL: i64 = 40000;

/// Number of grid columns.
pub const COLS: usize = 30;

/// Number of grid rows.
pub const ROWS: usize = 20;

/// A position lies inside the world rectangle.
pub open spec fn in_world(p: Vec2i) -> bool {
    0 <= p.x < WIDTH && 0 <= p.y < HEIGHT
}

} // verus!
