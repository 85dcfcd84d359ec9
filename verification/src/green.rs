//! Green: interpolated in both directions, then chosen.

use crate::cfa::{CFA, CFA_COLOR_G};
use crate::image::{Color2D, Pix2D, Pix2DView};
use crate::model::{directional_green, filled_green, green_plane, green_taps, green_weights};
use crate::neighbours::{addressable, same_size, window_beside};
use crate::raster::{
    lemma_finish, lemma_pixel, lemma_row, lemma_size, lemma_skip, lemma_start, lemma_write,
    partway,
};
use crate::sample::{arithmetic, sample, weighted_sum, Sample};
use vstd::prelude::*;

verus! {

/// Green at `(y, x)`, interpolated in the given direction.
fn interpolate_green<T: Sample>(
    raw: &Pix2DView<'_, T>,
    weights: &[T; 5],
    vertical: bool,
    y: usize,
    x: usize,
) -> (r: T)
    requires
        arithmetic::<T>(),
        raw.wf(),
        raw@.contains(y as int, x as int),
        addressable(raw@),
        weights@ == green_weights::<T>(),
    ensures
        r == directional_green(raw@, vertical, y as int, x as int),
{
    let ghost taps = green_taps(raw@, vertical, y as int, x as int);
    let mut acc: T = sample::<T>(0);
    let mut i: usize = 0;
    while i < 5
        invariant
            arithmetic::<T>(),
            raw.wf(),
            raw@.contains(y as int, x as int),
            addressable(raw@),
            weights@ == green_weights::<T>(),
            taps == green_taps(raw@, vertical, y as int, x as int),
            i <= 5,
            acc == weighted_sum(green_weights::<T>(), taps, i as nat),
        decreases 5 - i,
    {
        let value: T = *window_beside(raw, vertical, y, x, i as isize - 2);
        assert(value == taps[i as int]);
        acc = acc + weights[i] * value;
        i += 1;
    }
    acc
}

/// Interpolates green along the rows (`gh`) and along the columns (`gv`) wherever it is not
/// measured.
pub fn build_gh_gv<T: Sample>(
    raw: &Pix2DView<'_, T>,
    cfa: &CFA,
    gh: &mut Pix2D<T>,
    gv: &mut Pix2D<T>,
)
    requires
        arithmetic::<T>(),
        raw.wf(),
        addressable(raw@),
        cfa.wf(),
        old(gh).wf(),
        old(gv).wf(),
        same_size(old(gh)@, raw@),
        same_size(old(gv)@, raw@),
    ensures
        final(gh).wf(),
        final(gv).wf(),
        final(gh)@ == green_plane(raw@, cfa@, false, old(gh)@),
        final(gv)@ == green_plane(raw@, cfa@, true, old(gv)@),
{
    let quarter: T = sample::<T>(-1) / sample::<T>(4);
    let half: T = sample::<T>(1) / sample::<T>(2);
    let weights: [T; 5] = [quarter, half, half, half, quarter];
    assert(weights@ =~= green_weights::<T>());
    let ghost before_h = gh@;
    let ghost before_v = gv@;
    let ghost after_h = green_plane(raw@, cfa@, false, before_h);
    let ghost after_v = green_plane(raw@, cfa@, true, before_v);
    proof {
        lemma_start(before_h, after_h);
        lemma_start(before_v, after_v);
    }
    let mut y: usize = 0;
    while y < raw.height()
        invariant
            arithmetic::<T>(),
            raw.wf(),
            addressable(raw@),
            cfa.wf(),
            gh.wf(),
            gv.wf(),
            weights@ == green_weights::<T>(),
            y <= raw@.height,
            same_size(before_h, raw@),
            same_size(before_v, raw@),
            after_h == green_plane(raw@, cfa@, false, before_h),
            after_v == green_plane(raw@, cfa@, true, before_v),
            partway(gh@, before_h, after_h, y as int, 0),
            partway(gv@, before_v, after_v, y as int, 0),
        decreases raw@.height - y,
    {
        let mut x: usize = 0;
        while x < raw.width()
            invariant
                arithmetic::<T>(),
                raw.wf(),
                addressable(raw@),
                cfa.wf(),
                gh.wf(),
                gv.wf(),
                weights@ == green_weights::<T>(),
                y < raw@.height,
                x <= raw@.width,
                same_size(before_h, raw@),
                same_size(before_v, raw@),
                after_h == green_plane(raw@, cfa@, false, before_h),
                after_v == green_plane(raw@, cfa@, true, before_v),
                partway(gh@, before_h, after_h, y as int, x as int),
                partway(gv@, before_v, after_v, y as int, x as int),
            decreases raw@.width - x,
        {
            proof {
                lemma_size(gh@, before_h, after_h, y as int, x as int);
                lemma_size(gv@, before_v, after_v, y as int, x as int);
            }
            if cfa.color_at(y, x) != CFA_COLOR_G {
                let along_row: T = interpolate_green(raw, &weights, false, y, x);
                let along_column: T = interpolate_green(raw, &weights, true, y, x);
                proof {
                    lemma_write(gh@, before_h, after_h, y as int, x as int, along_row);
                    lemma_write(gv@, before_v, after_v, y as int, x as int, along_column);
                }
                *gh.at_mut(y, x) = along_row;
                *gv.at_mut(y, x) = along_column;
            } else {
                proof {
                    lemma_skip(gh@, before_h, after_h, y as int, x as int);
                    lemma_skip(gv@, before_v, after_v, y as int, x as int);
                }
            }
            x += 1;
        }
        proof {
            lemma_size(gh@, before_h, after_h, y as int, x as int);
            lemma_size(gv@, before_v, after_v, y as int, x as int);
            lemma_row(gh@, before_h, after_h, y as int);
            lemma_row(gv@, before_v, after_v, y as int);
        }
        y += 1;
    }
    proof {
        lemma_size(gh@, before_h, after_h, y as int, 0);
        lemma_size(gv@, before_v, after_v, y as int, 0);
        lemma_finish(gh@, before_h, after_h);
        lemma_finish(gv@, before_v, after_v);
    }
}

/// Fills the green channel: measured, or interpolated in the direction chosen.
pub fn fill_green<T: Sample>(
    raw: &Pix2DView<'_, T>,
    cfa: &CFA,
    gh: &Pix2D<T>,
    gv: &Pix2D<T>,
    dir: &Pix2D<u16>,
    rgb: &mut Color2D<T>,
)
    requires
        raw.wf(),
        cfa.wf(),
        gh.wf(),
        gv.wf(),
        dir.wf(),
        old(rgb).wf(),
        same_size(gh@, raw@),
        same_size(gv@, raw@),
        same_size(dir@, raw@),
        same_size(old(rgb)@, raw@),
    ensures
        final(rgb).wf(),
        final(rgb)@ == filled_green(raw@, cfa@, gh@, gv@, dir@, old(rgb)@),
{
    let ghost before = rgb@;
    let ghost after = filled_green(raw@, cfa@, gh@, gv@, dir@, before);
    proof {
        lemma_start(before, after);
    }
    let mut y: usize = 0;
    while y < raw.height()
        invariant
            raw.wf(),
            cfa.wf(),
            gh.wf(),
            gv.wf(),
            dir.wf(),
            rgb.wf(),
            same_size(gh@, raw@),
            same_size(gv@, raw@),
            same_size(dir@, raw@),
            same_size(before, raw@),
            y <= raw@.height,
            after == filled_green(raw@, cfa@, gh@, gv@, dir@, before),
            partway(rgb@, before, after, y as int, 0),
        decreases raw@.height - y,
    {
        let mut x: usize = 0;
        while x < raw.width()
            invariant
                raw.wf(),
                cfa.wf(),
                gh.wf(),
                gv.wf(),
                dir.wf(),
                rgb.wf(),
                same_size(gh@, raw@),
                same_size(gv@, raw@),
                same_size(dir@, raw@),
                same_size(before, raw@),
                y < raw@.height,
                x <= raw@.width,
                after == filled_green(raw@, cfa@, gh@, gv@, dir@, before),
                partway(rgb@, before, after, y as int, x as int),
            decreases raw@.width - x,
        {
            proof {
                lemma_size(rgb@, before, after, y as int, x as int);
                lemma_pixel(rgb@, before, after, y as int, x as int, y as int, x as int);
            }
            let mut p: [T; 3] = *rgb.at(y, x);
            if cfa.color_at(y, x) == CFA_COLOR_G {
                p[CFA_COLOR_G] = *raw.at(y, x);
            } else if *dir.at(y, x) == 1 {
                p[CFA_COLOR_G] = *gh.at(y, x);
            } else {
                p[CFA_COLOR_G] = *gv.at(y, x);
            }
            proof {
                assert(p =~= after.px(y as int, x as int));
                lemma_write(rgb@, before, after, y as int, x as int, p);
            }
            *rgb.at_mut(y, x) = p;
            x += 1;
        }
        proof {
            lemma_size(rgb@, before, after, y as int, x as int);
            lemma_row(rgb@, before, after, y as int);
        }
        y += 1;
    }
    proof {
        lemma_size(rgb@, before, after, y as int, 0);
        lemma_finish(rgb@, before, after);
    }
}

} // verus!
