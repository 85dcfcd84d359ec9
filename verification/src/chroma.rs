//! Red and blue, from what is measured beside a pixel.

use crate::bayer::{lemma_colors, lemma_neighbours};
use crate::cfa::{bayer, Mosaic, CFA, CFA_COLOR_B, CFA_COLOR_G, CFA_COLOR_R};
use crate::image::{lemma_mirror_range, mirror, Color2D, Image, Pix2D, Pix2DView};
use crate::model::{
    beside, colors_at_green, colors_at_opposite, filled_chroma, neighbour_color, opposite,
    raised_by_three, raised_by_two,
};
use crate::neighbours::{addressable, pixel_beside, same_size, window_beside};
use crate::raster::{
    lemma_finish, lemma_pixel, lemma_row, lemma_size, lemma_skip, lemma_start, lemma_write,
    partway,
};
use crate::sample::{arithmetic, sample, Sample};
use vstd::prelude::*;

verus! {

/// Of red and blue, the one that `color` is not.
pub fn other_color(color: usize) -> (r: usize)
    ensures
        r == opposite(color),
        r == CFA_COLOR_R || r == CFA_COLOR_B,
{
    if color == CFA_COLOR_R {
        CFA_COLOR_B
    } else {
        CFA_COLOR_R
    }
}

/// Channel `from` at `(y, x)`, raised by the mean excess of `to` over the two pixels beside it.
pub fn raise_by_two<T: Sample>(
    rgb: &Color2D<T>,
    vertical: bool,
    y: usize,
    x: usize,
    to: usize,
    from: usize,
) -> (r: T)
    requires
        arithmetic::<T>(),
        rgb.wf(),
        rgb@.contains(y as int, x as int),
        addressable(rgb@),
        to < 3,
        from < 3,
    ensures
        r == raised_by_two(rgb@, vertical, y as int, x as int, to, from),
{
    let two: T = sample::<T>(2);
    let back = pixel_beside(rgb, vertical, y, x, -1);
    let ahead = pixel_beside(rgb, vertical, y, x, 1);
    rgb.at(y, x)[from] + (back[to] - back[from]) / two + (ahead[to] - ahead[from]) / two
}

/// Channel `from` at `(y, x)`, raised by the mean excess of `to` over the pixel and the two
/// beside it.
pub fn raise_by_three<T: Sample>(
    rgb: &Color2D<T>,
    vertical: bool,
    y: usize,
    x: usize,
    to: usize,
    from: usize,
) -> (r: T)
    requires
        arithmetic::<T>(),
        rgb.wf(),
        rgb@.contains(y as int, x as int),
        addressable(rgb@),
        to < 3,
        from < 3,
    ensures
        r == raised_by_three(rgb@, vertical, y as int, x as int, to, from),
{
    let three: T = sample::<T>(3);
    let back = pixel_beside(rgb, vertical, y, x, -1);
    let here = pixel_beside(rgb, vertical, y, x, 0);
    let ahead = pixel_beside(rgb, vertical, y, x, 1);
    rgb.at(y, x)[from] + (back[to] - back[from]) / three + (here[to] - here[from]) / three + (
    ahead[to] - ahead[from]) / three
}

/// The colour that is measured beside the green pixel `(y, x)` in the given direction.
fn color_beside<T: Sample>(
    raw: &Pix2DView<'_, T>,
    rgb: &Color2D<T>,
    vertical: bool,
    y: usize,
    x: usize,
) -> (r: T)
    requires
        arithmetic::<T>(),
        raw.wf(),
        rgb.wf(),
        same_size(rgb@, raw@),
        raw@.contains(y as int, x as int),
        addressable(raw@),
    ensures
        r == neighbour_color(raw@, rgb@, vertical, y as int, x as int),
{
    let two: T = sample::<T>(2);
    let mut acc: T = rgb.at(y, x)[CFA_COLOR_G];
    let raw_back: T = *window_beside(raw, vertical, y, x, -1);
    let raw_ahead: T = *window_beside(raw, vertical, y, x, 1);
    acc = acc + (raw_back - pixel_beside(rgb, vertical, y, x, -1)[CFA_COLOR_G]) / two;
    acc = acc + (raw_ahead - pixel_beside(rgb, vertical, y, x, 1)[CFA_COLOR_G]) / two;
    acc
}

/// While red and blue are filled in, green is everywhere what it was.
proof fn lemma_green_kept<T: Sample>(
    raw: Image<T>,
    cfa: Mosaic,
    cur: Image<[T; 3]>,
    before: Image<[T; 3]>,
    y: int,
    x: int,
    vertical: bool,
)
    requires
        bayer(cfa),
        same_size(before, raw),
        partway(cur, before, colors_at_green(raw, cfa, before), y, x),
        cur.contains(y, x),
    ensures
        cur.px(y, x) == before.px(y, x),
        neighbour_color(raw, cur, vertical, y, x) == neighbour_color(raw, before, vertical, y, x),
{
    let after = colors_at_green(raw, cfa, before);
    lemma_size(cur, before, after, y, x);
    lemma_pixel(cur, before, after, y, x, y, x);
    assert forall|d: int| #[trigger] beside(cur, vertical, y, x, d)[CFA_COLOR_G as int] == beside(
        before,
        vertical,
        y,
        x,
        d,
    )[CFA_COLOR_G as int] by {
        let (v, u) = if vertical {
            (y + d, x)
        } else {
            (y, x + d)
        };
        lemma_mirror_range(v, cur.height as int);
        lemma_mirror_range(u, cur.width as int);
        let r = mirror(v, cur.height as int);
        let c = mirror(u, cur.width as int);
        lemma_pixel(cur, before, after, y, x, r, c);
        lemma_colors(cfa, r, c);
    }
}

/// Fills in red and blue where green is measured, and the measured colour elsewhere.
pub fn fill_at_green<T: Sample>(
    raw: &Pix2DView<'_, T>,
    cfa: &CFA,
    rgb: &mut Color2D<T>,
)
    requires
        arithmetic::<T>(),
        raw.wf(),
        addressable(raw@),
        cfa.wf(),
        bayer(cfa@),
        old(rgb).wf(),
        same_size(old(rgb)@, raw@),
    ensures
        final(rgb).wf(),
        final(rgb)@ == colors_at_green(raw@, cfa@, old(rgb)@),
{
    let ghost before = rgb@;
    let ghost after = colors_at_green(raw@, cfa@, before);
    proof {
        lemma_start(before, after);
    }
    let mut y: usize = 0;
    while y < raw.height()
        invariant
            arithmetic::<T>(),
            raw.wf(),
            addressable(raw@),
            cfa.wf(),
            bayer(cfa@),
            same_size(before, raw@),
            rgb.wf(),
            y <= before.height,
            after == colors_at_green(raw@, cfa@, before),
            partway(rgb@, before, after, y as int, 0),
        decreases before.height - y,
    {
        let mut x: usize = 0;
        proof {
            lemma_size(rgb@, before, after, y as int, 0);
        }
        while x < raw.width()
            invariant
                arithmetic::<T>(),
                raw.wf(),
                addressable(raw@),
                cfa.wf(),
                bayer(cfa@),
                same_size(before, raw@),
                rgb.wf(),
                same_size(rgb@, before),
                y < before.height,
                x <= before.width,
                after == colors_at_green(raw@, cfa@, before),
                partway(rgb@, before, after, y as int, x as int),
            decreases before.width - x,
        {
            if cfa.color_at(y, x) == CFA_COLOR_G {
                let cfa_h: usize = cfa.color_at(y, x + 1);
                let cfa_v: usize = cfa.color_at(y + 1, x);
                proof {
                    lemma_colors(cfa@, y as int, x as int);
                    lemma_green_kept(raw@, cfa@, rgb@, before, y as int, x as int, false);
                    lemma_green_kept(raw@, cfa@, rgb@, before, y as int, x as int, true);
                }
                let acc_h: T = color_beside(raw, rgb, false, y, x);
                let acc_v: T = color_beside(raw, rgb, true, y, x);
                let mut p: [T; 3] = *rgb.at(y, x);
                p[cfa_h] = acc_h;
                p[cfa_v] = acc_v;
                proof {
                    assert(p =~= after.px(y as int, x as int));
                    lemma_write(rgb@, before, after, y as int, x as int, p);
                }
                *rgb.at_mut(y, x) = p;
            } else {
                proof {
                    lemma_colors(cfa@, y as int, x as int);
                    lemma_pixel(rgb@, before, after, y as int, x as int, y as int, x as int);
                }
                let mut p: [T; 3] = *rgb.at(y, x);
                p[cfa.color_at(y, x)] = *raw.at(y, x);
                proof {
                    assert(p =~= after.px(y as int, x as int));
                    lemma_write(rgb@, before, after, y as int, x as int, p);
                }
                *rgb.at_mut(y, x) = p;
            }
            x += 1;
        }
        proof {
            lemma_row(rgb@, before, after, y as int);
        }
        y += 1;
        proof {
            lemma_size(rgb@, before, after, y as int, 0);
        }
    }
    proof {
        lemma_size(rgb@, before, after, y as int, 0);
        lemma_finish(rgb@, before, after);
    }
}

/// Fills in blue where red is measured and red where blue is, in the direction chosen.
pub fn fill_at_opposite<T: Sample>(
    cfa: &CFA,
    dir: &Pix2D<u16>,
    rgb: &mut Color2D<T>,
)
    requires
        arithmetic::<T>(),
        cfa.wf(),
        bayer(cfa@),
        dir.wf(),
        old(rgb).wf(),
        addressable(old(rgb)@),
        same_size(dir@, old(rgb)@),
    ensures
        final(rgb).wf(),
        final(rgb)@ == colors_at_opposite(cfa@, dir@, old(rgb)@),
{
    let ghost before = rgb@;
    let ghost after = colors_at_opposite(cfa@, dir@, before);
    proof {
        lemma_start(before, after);
    }
    let mut y: usize = 0;
    while y < rgb.height
        invariant
            arithmetic::<T>(),
            cfa.wf(),
            bayer(cfa@),
            dir.wf(),
            addressable(before),
            same_size(dir@, before),
            rgb.wf(),
            y <= before.height,
            after == colors_at_opposite(cfa@, dir@, before),
            partway(rgb@, before, after, y as int, 0),
        decreases before.height - y,
    {
        let mut x: usize = 0;
        proof {
            lemma_size(rgb@, before, after, y as int, 0);
        }
        while x < rgb.width
            invariant
                arithmetic::<T>(),
                cfa.wf(),
                bayer(cfa@),
                dir.wf(),
                addressable(before),
                same_size(dir@, before),
                rgb.wf(),
                same_size(rgb@, before),
                y < before.height,
                x <= before.width,
                after == colors_at_opposite(cfa@, dir@, before),
                partway(rgb@, before, after, y as int, x as int),
            decreases before.width - x,
        {
            if cfa.color_at(y, x) == CFA_COLOR_G {
                proof {
                    lemma_skip(rgb@, before, after, y as int, x as int);
                }
            } else {
                let source: usize = cfa.color_at(y, x);
                let target: usize = other_color(source);
                let vertical: bool = *dir.at(y, x) != 1;
                proof {
                    lemma_colors(cfa@, y as int, x as int);
                    lemma_neighbours(cfa@, rgb@, before, after, y as int, x as int, vertical);
                }
                let acc: T = raise_by_two(rgb, vertical, y, x, target, source);
                let mut p: [T; 3] = *rgb.at(y, x);
                p[target] = acc;
                proof {
                    assert(p =~= after.px(y as int, x as int));
                    lemma_write(rgb@, before, after, y as int, x as int, p);
                }
                *rgb.at_mut(y, x) = p;
            }
            x += 1;
        }
        proof {
            lemma_row(rgb@, before, after, y as int);
        }
        y += 1;
        proof {
            lemma_size(rgb@, before, after, y as int, 0);
        }
    }
    proof {
        lemma_size(rgb@, before, after, y as int, 0);
        lemma_finish(rgb@, before, after);
    }
}

/// Fills in red and blue everywhere, from what is measured and from the green channel.
pub fn fill_chroma<T: Sample>(
    raw: &Pix2DView<'_, T>,
    cfa: &CFA,
    dir: &Pix2D<u16>,
    rgb: &mut Color2D<T>,
)
    requires
        arithmetic::<T>(),
        raw.wf(),
        addressable(raw@),
        cfa.wf(),
        bayer(cfa@),
        dir.wf(),
        old(rgb).wf(),
        same_size(dir@, raw@),
        same_size(old(rgb)@, raw@),
    ensures
        final(rgb).wf(),
        final(rgb)@ == filled_chroma(raw@, cfa@, dir@, old(rgb)@),
{
    fill_at_green(raw, cfa, rgb);
    fill_at_opposite(cfa, dir, rgb);
}

} // verus!
