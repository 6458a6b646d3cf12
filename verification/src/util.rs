//! Small helpers shared by the convolution engine and the filters.

use vstd::prelude::*;

verus! {

/// The centre offset of a kernel axis of extent `n`: half the extent, pulled
/// one cell toward the origin when the extent is even. This asymmetric
/// convention for even extents is deliberate and must be kept.
pub open spec fn centre_offset(n: int) -> int {
    n / 2 - if n % 2 == 0 {
        1int
    } else {
        0int
    }
}

/// Get the centre of a kernel: the offsets of the pixel a window modifies as
/// it moves over an image.
pub fn kernel_centre(rows: usize, cols: usize) -> (r: (usize, usize))
    requires
        rows >= 1,
        cols >= 1,
    ensures
        r.0 == centre_offset(rows as int),
        r.1 == centre_offset(cols as int),
{
    let row_offset: usize = rows / 2 - if rows % 2 == 0 {
        1
    } else {
        0
    };
    let col_offset: usize = cols / 2 - if cols % 2 == 0 {
        1
    } else {
        0
    };
    (row_offset, col_offset)
}

} // verus!
