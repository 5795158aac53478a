//! Dimensions of the optical symbol.

use vstd::prelude::*;

verus! {

/// Cells along one side of the symbol, ring and interior together.
pub const GRID: usize = 61;

/// Depth of the border ring, in cells.
pub const RING: usize = 2;

/// Payload cells in a row.
pub const PAYLOAD_COLS: usize = 57;

/// Payload rows.
pub const PAYLOAD_ROWS: usize = 55;

/// Payload cells in a symbol.
pub const PAYLOAD_CELLS: usize = 3135;

/// Side of a rendered symbol in pixels: the grid and its quiet zone on both
/// sides, at `cell_size_px` pixels per cell.
pub fn symbol_size_px(quiet_cells: usize, cell_size_px: usize) -> (n: usize)
    requires
        (GRID + 2 * quiet_cells) * cell_size_px <= usize::MAX,
        GRID + 2 * quiet_cells <= usize::MAX,
    ensures
        n == (GRID + 2 * quiet_cells) * cell_size_px,
{
    (GRID + 2 * quiet_cells) * cell_size_px
}

} // verus!
