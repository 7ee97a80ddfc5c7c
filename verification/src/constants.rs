//! The dimensions that the engine and whatever presents its output agree on,
//! in fixed-point world units unless a count.
use vstd::prelude::*;

verus! {

/// Width of the simulation domain (1500 world units).
pub const WIDTH: i32 = 150_000_000;

/// Height of the simulation domain (1200 world units).
pub const HEIGHT: i32 = 120_000_000;

/// Edge of one grid cell (10 world units).
pub const GRID_SIZE: i32 = 1_000_000;

/// Number of grid columns: the width divided by the cell edge.
pub const X_LEN: usize = 150;

/// Number of grid rows: the height divided by the cell edge.
pub const Y_LEN: usize = 120;

/// Number of grid cells.
pub const CELL_COUNT: usize = 18_000;

/// Radius of every ball (4 world units).
pub const BALL_SIZE: i32 = 400_000;

/// Factor between a cannon's direction and the launch speed (5.0).
pub const INITIAL_BALL_SPEED_MODIFIER: i32 = 500_000;

} // verus!
