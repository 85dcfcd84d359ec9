//! What holds of the colours that the algorithm computes.

use crate::bayer::lemma_colors;
use crate::cfa::{bayer, Mosaic};
use crate::image::Image;
use crate::model::{
    colors_at_green, colors_at_opposite, direction_plane, filled_green, green_plane, is_green,
    menon, refined_at_green, refined_at_opposite, refined_green,
};
use crate::sample::{num, Sample};
use vstd::prelude::*;

verus! {

/// What is measured at a pixel is kept: interpolation fills in the two other colours only.
pub proof fn law_measured_is_kept<T: Sample>(raw: Image<T>, cfa: Mosaic, y: int, x: int)
    requires
        bayer(cfa),
        raw.contains(y, x),
    ensures
        menon(raw, cfa).px(y, x)[cfa(y, x) as int] == raw.px(y, x),
{
    let zero = num::<T>(0);
    let blank = Image::constant(raw.width, raw.height, zero);
    let black = Image::constant(raw.width, raw.height, [zero, zero, zero]);
    let unset = Image::constant(raw.width, raw.height, 0u16);
    let gh = green_plane(raw, cfa, false, blank);
    let gv = green_plane(raw, cfa, true, blank);
    let dir = direction_plane(raw, cfa, gh, gv, unset);
    let a = filled_green(raw, cfa, gh, gv, dir, black);
    let b = colors_at_green(raw, cfa, a);
    let c = colors_at_opposite(cfa, dir, b);
    let d = refined_green(cfa, dir, c);
    let e = refined_at_green(cfa, d);
    let z = refined_at_opposite(cfa, dir, e);
    let color = cfa(y, x) as int;
    lemma_colors(cfa, y, x);
    assert(is_green(cfa, y, x) ==> a.px(y, x)[color] == raw.px(y, x));
    assert(b.px(y, x)[color] == raw.px(y, x));
    assert(c.px(y, x)[color] == raw.px(y, x));
    assert(d.px(y, x)[color] == raw.px(y, x));
    assert(e.px(y, x)[color] == raw.px(y, x));
    assert(z.px(y, x)[color] == raw.px(y, x));
}

} // verus!
