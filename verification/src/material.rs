//! The checker texture's choice between its two colors.
//!
//! Space is cut into cubic cells of the texture's scale; a point's cell is
//! given by the floors of its scaled coordinates. Cells whose indices add up
//! to an even number show the first color, the others the second.

use vstd::prelude::*;

verus! {

/// Whether cell `(ix, iy, iz)` shows the first color.
pub open spec fn is_first_color_cell(ix: int, iy: int, iz: int) -> bool {
    (ix + iy + iz) % 2 == 0
}

/// Whether the checker cell with indices `(ix, iy, iz)` shows the first color.
/// The indices are added in 64-bit arithmetic, which must not overflow.
pub fn checker_picks_first(ix: i64, iy: i64, iz: i64) -> (first: bool)
    requires
        i64::MIN <= ix + iy <= i64::MAX,
        i64::MIN <= ix + iy + iz <= i64::MAX,
    ensures
        first == is_first_color_cell(ix as int, iy as int, iz as int),
{
    let sum: i64 = ix + iy + iz;
    let half: i64 = sum / 2;
    sum - half * 2 == 0
}

/// The cell at the origin shows the first color, and neighbouring cells,
/// along any axis, show different colors.
pub proof fn lemma_neighbour_cells_alternate(ix: int, iy: int, iz: int)
    ensures
        is_first_color_cell(0, 0, 0),
        is_first_color_cell(ix + 1, iy, iz) != is_first_color_cell(ix, iy, iz),
        is_first_color_cell(ix, iy + 1, iz) != is_first_color_cell(ix, iy, iz),
        is_first_color_cell(ix, iy, iz + 1) != is_first_color_cell(ix, iy, iz),
{
}

} // verus!
