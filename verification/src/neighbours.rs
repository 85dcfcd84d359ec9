//! Access to the pixels around a pixel.

use crate::image::{Image, Pix2D, Pix2DView};
use crate::model::beside;
use vstd::prelude::*;

verus! {

/// The signed coordinates of a pixel, and of those two steps from it, are machine integers.
pub open spec fn addressable<P>(img: Image<P>) -> bool {
    img.width <= isize::MAX - 2 && img.height <= isize::MAX - 2
}

/// The images are of one size.
pub open spec fn same_size<P, Q>(a: Image<P>, b: Image<Q>) -> bool {
    a.width == b.width && a.height == b.height
}

/// The pixel of a window that is `d` steps from `(y, x)` along the column or along the row.
pub fn window_beside<'a, P>(
    img: &Pix2DView<'a, P>,
    vertical: bool,
    y: usize,
    x: usize,
    d: isize,
) -> (r: &'a P)
    requires
        img.wf(),
        img@.contains(y as int, x as int),
        addressable(img@),
        -2 <= d <= 2,
    ensures
        *r == beside(img@, vertical, y as int, x as int, d as int),
{
    if vertical {
        img.at_reflect(y as isize + d, x as isize)
    } else {
        img.at_reflect(y as isize, x as isize + d)
    }
}

/// The pixel that is `d` steps from `(y, x)` along the column or along the row.
pub fn pixel_beside<P>(img: &Pix2D<P>, vertical: bool, y: usize, x: usize, d: isize) -> (r: &P)
    requires
        img.wf(),
        img@.contains(y as int, x as int),
        addressable(img@),
        -2 <= d <= 2,
    ensures
        *r == beside(img@, vertical, y as int, x as int, d as int),
{
    if vertical {
        img.at_reflect(y as isize + d, x as isize)
    } else {
        img.at_reflect(y as isize, x as isize + d)
    }
}

} // verus!
