//! Drawing candidate source cells for the main rivers.

use vstd::prelude::*;
use rand::rngs::StdRng;
use rand::Rng;

verus! {

#[verifier::external_type_specification]
#[verifier::external_body]
pub struct ExStdRng(StdRng);

/// Calls `rand::Rng::gen_range(low..high)` on a `StdRng`, which panics on an
/// empty range and otherwise returns a value of the range. Which value
/// depends on the generator's state, so nothing more is claimed of it.
#[verifier::external_body]
fn gen_range_usize(rng: &mut StdRng, low: usize, high: usize) -> (r: usize)
    requires
        low < high,
    ensures
        low <= r < high,
{
    rng.gen_range(low..high)
}

/// Draw a candidate cell at least `margin` cells away from every edge of a
/// `width` by `height` grid: first its column, then its row.
pub fn sample_inland_cell(rng: &mut StdRng, margin: usize, width: usize, height: usize) -> (cell: (usize, usize))
    requires
        2 * margin < width,
        2 * margin < height,
    ensures
        margin <= cell.0 < width - margin,
        margin <= cell.1 < height - margin,
{
    let x = gen_range_usize(rng, margin, width - margin);
    let y = gen_range_usize(rng, margin, height - margin);
    (x, y)
}

} // verus!
