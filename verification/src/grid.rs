//! Configure a grid on a plot.
//!
//! Grids allow for easier estimating of data values. A grid is a
//! plain value: how many lines in each direction, and their colour.
//! The rendering backends read it when they draw a view.

use vstd::prelude::*;

verus! {

/// Configuration for the grid on a plot.
pub struct Grid {
    /// Number of vertical grid lines.
    pub nx: u32,
    /// Number of horizontal grid lines.
    pub ny: u32,
    /// Colour of the grid lines.
    pub color: String,
}

impl Default for Grid {
    /// The default grid: three lines in each direction.
    fn default() -> (r: Grid)
        ensures
            r.nx == 3,
            r.ny == 3,
            r.color@ == "darkgrey"@,
    {
        Grid::new(3, 3)
    }
}

impl Grid {
    /// Creates a new grid with `nx` vertical and `ny` horizontal grid
    /// lines, coloured dark grey.
    pub fn new(nx: u32, ny: u32) -> (r: Grid)
        ensures
            r.nx == nx,
            r.ny == ny,
            r.color@ == "darkgrey"@,
    {
        Grid { nx, ny, color: "darkgrey".to_owned() }
    }
}

} // verus!
