//! What a sink over a rectangular buffer decides before it blends: where a
//! pixel goes, if anywhere.

use vstd::prelude::*;

verus! {

/// Whether `(x, y)` lies inside a buffer of the given size.
pub open spec fn in_bounds(width: u32, height: u32, x: int, y: int) -> bool {
    0 <= x < width && 0 <= y < height
}

/// The column and the row of the buffer that hold the pixel `(x, y)`, or
/// nothing where the pixel lies outside `[0, width) x [0, height)`.
///
/// Rows are stored top down and y grows upwards, so the pixel `(x, y)` is
/// held in the row `height - 1 - y`.
pub fn pixel_position(width: u32, height: u32, x: i64, y: i64) -> (r: Option<(u32, u32)>)
    ensures
        r.is_some() == in_bounds(width, height, x as int, y as int),
        r.is_some() ==> r.unwrap().0 == x && r.unwrap().1 == height - 1 - y,
{
    let w: i64 = width as i64;
    let h: i64 = height as i64;
    if 0 <= x && x < w && 0 <= y && y < h {
        Some((x as u32, (h - y - 1) as u32))
    } else {
        None
    }
}

} // verus!
