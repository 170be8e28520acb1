//! Grid indexing used by the particle-based erosion simulation.

use vstd::prelude::*;

verus! {

/// Get array index with bounds check: the row-major index of `(x, y)` on a
/// `width` by `height` grid, or `None` when the cell is off the grid.
pub fn get_index(x: usize, y: usize, width: usize, height: usize) -> (r: Option<usize>)
    requires
        width * height <= usize::MAX,
    ensures
        r == (if x < width && y < height { Some((y * width + x) as usize) } else { None }),
{
    if x < width && y < height {
        proof {
            assert(y * width + x < width * height) by (nonlinear_arith)
                requires
                    x < width,
                    y < height,
            ;
        }
        Some(y * width + x)
    } else {
        None
    }
}

} // verus!
