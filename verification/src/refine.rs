//! Refinement of the interpolated colours.

use crate::bayer::{lemma_colors, lemma_neighbours};
use crate::cfa::{bayer, CFA, CFA_COLOR_G};
use crate::chroma::{other_color, raise_by_three, raise_by_two};
use crate::image::{Color2D, Pix2D};
use crate::model::{refined, refined_at_green, refined_at_opposite, refined_green};
use crate::neighbours::{addressable, same_size};
use crate::raster::{
    lemma_finish, lemma_row, lemma_size, lemma_skip, lemma_start, lemma_write, partway,
};
use crate::sample::{arithmetic, Sample};
use vstd::prelude::*;

verus! {

/// Smooths green where it is not measured.
pub fn refine_green<T: Sample>(
    cfa: &CFA,
    dir: &Pix2D<u16>,
    rgb: &mut Color2D<T>,
)
    requires
        arithmetic::<T>(),
        cfa.wf(),
        bayer(cfa@),
        dir.wf(),
        old(rgb).wf(),
        addressable(old(rgb)@),
        same_size(dir@, old(rgb)@),
    ensures
        final(rgb).wf(),
        final(rgb)@ == refined_green(cfa@, dir@, old(rgb)@),
{
    let ghost before = rgb@;
    let ghost after = refined_green(cfa@, dir@, before);
    proof {
        lemma_start(before, after);
    }
    let mut y: usize = 0;
    while y < rgb.height
        invariant
            arithmetic::<T>(),
            cfa.wf(),
            bayer(cfa@),
            dir.wf(),
            addressable(before),
            same_size(dir@, before),
            rgb.wf(),
            y <= before.height,
            after == refined_green(cfa@, dir@, before),
            partway(rgb@, before, after, y as int, 0),
        decreases before.height - y,
    {
        let mut x: usize = 0;
        proof {
            lemma_size(rgb@, before, after, y as int, 0);
        }
        while x < rgb.width
            invariant
                arithmetic::<T>(),
                cfa.wf(),
                bayer(cfa@),
                dir.wf(),
                addressable(before),
                same_size(dir@, before),
                rgb.wf(),
                same_size(rgb@, before),
                y < before.height,
                x <= before.width,
                after == refined_green(cfa@, dir@, before),
                partway(rgb@, before, after, y as int, x as int),
            decreases before.width - x,
        {
            if cfa.color_at(y, x) == CFA_COLOR_G {
                proof {
                    lemma_skip(rgb@, before, after, y as int, x as int);
                }
            } else {
                let source: usize = cfa.color_at(y, x);
                let vertical: bool = *dir.at(y, x) != 1;
                proof {
                    lemma_colors(cfa@, y as int, x as int);
                    lemma_neighbours(cfa@, rgb@, before, after, y as int, x as int, vertical);
                }
                let acc: T = raise_by_three(rgb, vertical, y, x, CFA_COLOR_G, source);
                let mut p: [T; 3] = *rgb.at(y, x);
                p[CFA_COLOR_G] = acc;
                proof {
                    assert(p =~= after.px(y as int, x as int));
                    lemma_write(rgb@, before, after, y as int, x as int, p);
                }
                *rgb.at_mut(y, x) = p;
            }
            x += 1;
        }
        proof {
            lemma_row(rgb@, before, after, y as int);
        }
        y += 1;
        proof {
            lemma_size(rgb@, before, after, y as int, 0);
        }
    }
    proof {
        lemma_size(rgb@, before, after, y as int, 0);
        lemma_finish(rgb@, before, after);
    }
}

/// Smooths red and blue where green is measured.
pub fn refine_at_green<T: Sample>(
    cfa: &CFA,
    rgb: &mut Color2D<T>,
)
    requires
        arithmetic::<T>(),
        cfa.wf(),
        bayer(cfa@),
        old(rgb).wf(),
        addressable(old(rgb)@),
    ensures
        final(rgb).wf(),
        final(rgb)@ == refined_at_green(cfa@, old(rgb)@),
{
    let ghost before = rgb@;
    let ghost after = refined_at_green(cfa@, before);
    proof {
        lemma_start(before, after);
    }
    let mut y: usize = 0;
    while y < rgb.height
        invariant
            arithmetic::<T>(),
            cfa.wf(),
            bayer(cfa@),
            addressable(before),
            rgb.wf(),
            y <= before.height,
            after == refined_at_green(cfa@, before),
            partway(rgb@, before, after, y as int, 0),
        decreases before.height - y,
    {
        let mut x: usize = 0;
        proof {
            lemma_size(rgb@, before, after, y as int, 0);
        }
        while x < rgb.width
            invariant
                arithmetic::<T>(),
                cfa.wf(),
                bayer(cfa@),
                addressable(before),
                rgb.wf(),
                same_size(rgb@, before),
                y < before.height,
                x <= before.width,
                after == refined_at_green(cfa@, before),
                partway(rgb@, before, after, y as int, x as int),
            decreases before.width - x,
        {
            if cfa.color_at(y, x) == CFA_COLOR_G {
                let cfa_h: usize = cfa.color_at(y, x + 1);
                let cfa_v: usize = cfa.color_at(y + 1, x);
                proof {
                    lemma_colors(cfa@, y as int, x as int);
                    lemma_neighbours(cfa@, rgb@, before, after, y as int, x as int, false);
                    lemma_neighbours(cfa@, rgb@, before, after, y as int, x as int, true);
                }
                let acc_h: T = raise_by_two(rgb, false, y, x, cfa_h, CFA_COLOR_G);
                let acc_v: T = raise_by_two(rgb, true, y, x, cfa_v, CFA_COLOR_G);
                let mut p: [T; 3] = *rgb.at(y, x);
                p[cfa_h] = acc_h;
                p[cfa_v] = acc_v;
                proof {
                    assert(p =~= after.px(y as int, x as int));
                    lemma_write(rgb@, before, after, y as int, x as int, p);
                }
                *rgb.at_mut(y, x) = p;
            } else {
                proof {
                    lemma_skip(rgb@, before, after, y as int, x as int);
                }
            }
            x += 1;
        }
        proof {
            lemma_row(rgb@, before, after, y as int);
        }
        y += 1;
        proof {
            lemma_size(rgb@, before, after, y as int, 0);
        }
    }
    proof {
        lemma_size(rgb@, before, after, y as int, 0);
        lemma_finish(rgb@, before, after);
    }
}

/// Smooths blue where red is measured and red where blue is.
pub fn refine_at_opposite<T: Sample>(
    cfa: &CFA,
    dir: &Pix2D<u16>,
    rgb: &mut Color2D<T>,
)
    requires
        arithmetic::<T>(),
        cfa.wf(),
        bayer(cfa@),
        dir.wf(),
        old(rgb).wf(),
        addressable(old(rgb)@),
        same_size(dir@, old(rgb)@),
    ensures
        final(rgb).wf(),
        final(rgb)@ == refined_at_opposite(cfa@, dir@, old(rgb)@),
{
    let ghost before = rgb@;
    let ghost after = refined_at_opposite(cfa@, dir@, before);
    proof {
        lemma_start(before, after);
    }
    let mut y: usize = 0;
    while y < rgb.height
        invariant
            arithmetic::<T>(),
            cfa.wf(),
            bayer(cfa@),
            dir.wf(),
            addressable(before),
            same_size(dir@, before),
            rgb.wf(),
            y <= before.height,
            after == refined_at_opposite(cfa@, dir@, before),
            partway(rgb@, before, after, y as int, 0),
        decreases before.height - y,
    {
        let mut x: usize = 0;
        proof {
            lemma_size(rgb@, before, after, y as int, 0);
        }
        while x < rgb.width
            invariant
                arithmetic::<T>(),
                cfa.wf(),
                bayer(cfa@),
                dir.wf(),
                addressable(before),
                same_size(dir@, before),
                rgb.wf(),
                same_size(rgb@, before),
                y < before.height,
                x <= before.width,
                after == refined_at_opposite(cfa@, dir@, before),
                partway(rgb@, before, after, y as int, x as int),
            decreases before.width - x,
        {
            if cfa.color_at(y, x) == CFA_COLOR_G {
                proof {
                    lemma_skip(rgb@, before, after, y as int, x as int);
                }
            } else {
                let source: usize = cfa.color_at(y, x);
                let target: usize = other_color(source);
                let vertical: bool = *dir.at(y, x) != 1;
                proof {
                    lemma_colors(cfa@, y as int, x as int);
                    lemma_neighbours(cfa@, rgb@, before, after, y as int, x as int, vertical);
                }
                let acc: T = raise_by_three(rgb, vertical, y, x, target, source);
                let mut p: [T; 3] = *rgb.at(y, x);
                p[target] = acc;
                proof {
                    assert(p =~= after.px(y as int, x as int));
                    lemma_write(rgb@, before, after, y as int, x as int, p);
                }
                *rgb.at_mut(y, x) = p;
            }
            x += 1;
        }
        proof {
            lemma_row(rgb@, before, after, y as int);
        }
        y += 1;
        proof {
            lemma_size(rgb@, before, after, y as int, 0);
        }
    }
    proof {
        lemma_size(rgb@, before, after, y as int, 0);
        lemma_finish(rgb@, before, after);
    }
}

/// Smooths what is interpolated: green first, then red and blue at the green pixels, then each of
/// red and blue where the other is measured.
pub fn refine<T: Sample>(cfa: &CFA, dir: &Pix2D<u16>, rgb: &mut Color2D<T>)
    requires
        arithmetic::<T>(),
        cfa.wf(),
        bayer(cfa@),
        dir.wf(),
        old(rgb).wf(),
        addressable(old(rgb)@),
        same_size(dir@, old(rgb)@),
    ensures
        final(rgb).wf(),
        final(rgb)@ == refined(cfa@, dir@, old(rgb)@),
{
    refine_green(cfa, dir, rgb);
    refine_at_green(cfa, rgb);
    refine_at_opposite(cfa, dir, rgb);
}

} // verus!
