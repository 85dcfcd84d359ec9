//! The order of the operations, on which rounding depends.
//!
//! Where samples are rounded, a sum depends on the order in which it is formed, and a special value
//! such as a NaN on whether it enters at all. The laws below write out for each step which samples
//! enter, and in which order, for all values.

use crate::bayer::lemma_colors;
use crate::cfa::{bayer, Mosaic, CFA_COLOR_G};
use crate::exact::missing;
use crate::image::Image;
use crate::model::{
    across, along, beside, colors_at_green, colors_at_opposite, cost_plane, cost_taps, cost_weights,
    direction_plane, filled_green, gradient_plane, green_plane, green_taps, green_weights, menon,
    refined_at_green, refined_at_opposite, refined_green,
};
use crate::sample::{num, weighted_sum, Sample};
use vstd::prelude::*;
use vstd::std_specs::cmp::PartialOrdIs;
use vstd::std_specs::ops::{AddSpec, DivSpec, MulSpec, NegSpec, SubSpec};

verus! {

/// The pixel `d` steps from `(y, x)` along the column or along the row, reflected at the edges.
pub open spec fn stepped<P>(img: Image<P>, vertical: bool, y: int, x: int, d: int) -> P {
    if vertical {
        img.mirrored(y + d, x)
    } else {
        img.mirrored(y, x + d)
    }
}

/// `q` has `value` in channel `c`, and is `p` in the others.
pub open spec fn only_channel<T>(p: [T; 3], q: [T; 3], c: usize, value: T) -> bool {
    &&& q[c as int] == value
    &&& forall|i: int| 0 <= i < 3 && i != c ==> #[trigger] q[i] == p[i]
}

/// The pixel `d` steps away, for steps of any length, is that of the reflected plane.
pub proof fn law_steps_reflected<P>(img: Image<P>, vertical: bool, y: int, x: int, d: int)
    ensures
        beside(img, vertical, y, x, d) == stepped(img, vertical, y, x, d),
{
}

/// Interpolated green: minus a quarter, three times a half and minus a quarter of five pixels,
/// added to zero from the first to the last.
pub proof fn law_green_in_order<T: Sample>(
    raw: Image<T>,
    cfa: Mosaic,
    vertical: bool,
    before: Image<T>,
    y: int,
    x: int,
)
    requires
        raw.contains(y, x),
    ensures
        ({
            let quarter = num::<T>(-1).div_spec(num::<T>(4));
            let half = num::<T>(1).div_spec(num::<T>(2));
            let t = |d: int| stepped(raw, vertical, y, x, d);
            green_plane(raw, cfa, vertical, before).px(y, x) == if cfa(y, x) == CFA_COLOR_G {
                before.px(y, x)
            } else {
                num::<T>(0).add_spec(quarter.mul_spec(t(-2))).add_spec(
                    half.mul_spec(t(-1)),
                ).add_spec(half.mul_spec(t(0))).add_spec(half.mul_spec(t(1))).add_spec(
                    quarter.mul_spec(t(2)),
                )
            }
        }),
{
    let t = green_taps(raw, vertical, y, x);
    let w = green_weights::<T>();
    assert(weighted_sum(w, t, 0) == num::<T>(0));
    assert(weighted_sum(w, t, 1) == weighted_sum(w, t, 0).add_spec(w[0].mul_spec(t[0])));
    assert(weighted_sum(w, t, 2) == weighted_sum(w, t, 1).add_spec(w[1].mul_spec(t[1])));
    assert(weighted_sum(w, t, 3) == weighted_sum(w, t, 2).add_spec(w[2].mul_spec(t[2])));
    assert(weighted_sum(w, t, 4) == weighted_sum(w, t, 3).add_spec(w[3].mul_spec(t[3])));
    assert(weighted_sum(w, t, 5) == weighted_sum(w, t, 4).add_spec(w[4].mul_spec(t[4])));
}

/// The change of the difference between what is measured and green over two steps, without its
/// sign; zero at green pixels and outside the image.
pub open spec fn change<T: Sample>(
    raw: Image<T>,
    cfa: Mosaic,
    green: Image<T>,
    vertical: bool,
    y: int,
    x: int,
) -> T {
    let here = stepped(raw, vertical, y, x, 0).sub_spec(stepped(green, vertical, y, x, 0));
    let there = stepped(raw, vertical, y, x, 2).sub_spec(stepped(green, vertical, y, x, 2));
    if !raw.contains(y, x) || cfa(y, x) == CFA_COLOR_G {
        num::<T>(0)
    } else if here.sub_spec(there).is_lt(&num::<T>(0)) {
        here.sub_spec(there).neg_spec()
    } else {
        here.sub_spec(there)
    }
}

/// The cost of a direction: eight changes with their weights, added to zero, from those two pixels
/// to one side of the line through the pixel to those two pixels to the other.
pub open spec fn cost_in_order<T: Sample>(
    raw: Image<T>,
    cfa: Mosaic,
    green: Image<T>,
    vertical: bool,
    y: int,
    x: int,
) -> T {
    let one = num::<T>(1);
    let three = num::<T>(3);
    let j = |side: int, d: int|
        if vertical {
            change(raw, cfa, green, true, y + d, x + side)
        } else {
            change(raw, cfa, green, false, y + side, x + d)
        };
    num::<T>(0).add_spec(one.mul_spec(j(2, 0))).add_spec(one.mul_spec(j(2, -2))).add_spec(
        one.mul_spec(j(1, -1)),
    ).add_spec(three.mul_spec(j(0, 0))).add_spec(three.mul_spec(j(0, -2))).add_spec(
        one.mul_spec(j(-1, -1)),
    ).add_spec(one.mul_spec(j(-2, 0))).add_spec(one.mul_spec(j(-2, -2)))
}

proof fn lemma_cost_in_order<T: Sample>(
    raw: Image<T>,
    cfa: Mosaic,
    green: Image<T>,
    vertical: bool,
    y: int,
    x: int,
)
    requires
        raw.contains(y, x),
        cfa(y, x) != CFA_COLOR_G,
    ensures
        cost_plane(gradient_plane(raw, cfa, green, vertical), cfa, vertical).px(y, x)
            == cost_in_order(raw, cfa, green, vertical, y, x),
{
    let g = gradient_plane(raw, cfa, green, vertical);
    let t = cost_taps(g, vertical, y, x);
    let w = cost_weights::<T>();
    assert forall|i: int| 0 <= i < 8 implies #[trigger] t[i] == if vertical {
        change(raw, cfa, green, vertical, y + along()[i], x + across()[i])
    } else {
        change(raw, cfa, green, vertical, y + across()[i], x + along()[i])
    } by {}
    assert(weighted_sum(w, t, 0) == num::<T>(0));
    assert(weighted_sum(w, t, 1) == weighted_sum(w, t, 0).add_spec(w[0].mul_spec(t[0])));
    assert(weighted_sum(w, t, 2) == weighted_sum(w, t, 1).add_spec(w[1].mul_spec(t[1])));
    assert(weighted_sum(w, t, 3) == weighted_sum(w, t, 2).add_spec(w[2].mul_spec(t[2])));
    assert(weighted_sum(w, t, 4) == weighted_sum(w, t, 3).add_spec(w[3].mul_spec(t[3])));
    assert(weighted_sum(w, t, 5) == weighted_sum(w, t, 4).add_spec(w[4].mul_spec(t[4])));
    assert(weighted_sum(w, t, 6) == weighted_sum(w, t, 5).add_spec(w[5].mul_spec(t[5])));
    assert(weighted_sum(w, t, 7) == weighted_sum(w, t, 6).add_spec(w[6].mul_spec(t[6])));
    assert(weighted_sum(w, t, 8) == weighted_sum(w, t, 7).add_spec(w[7].mul_spec(t[7])));
}

/// The direction: the row where the cost of the column compares as no less than that of the row,
/// the column in all other cases, unordered costs among them.
pub proof fn law_direction_in_order<T: Sample>(
    raw: Image<T>,
    cfa: Mosaic,
    gh: Image<T>,
    gv: Image<T>,
    before: Image<u16>,
    y: int,
    x: int,
)
    requires
        raw.contains(y, x),
    ensures
        direction_plane(raw, cfa, gh, gv, before).px(y, x) == if cfa(y, x) == CFA_COLOR_G {
            before.px(y, x)
        } else if cost_in_order(raw, cfa, gv, true, y, x).is_ge(
            &cost_in_order(raw, cfa, gh, false, y, x),
        ) {
            1u16
        } else {
            0u16
        },
{
    if cfa(y, x) != CFA_COLOR_G {
        lemma_cost_in_order(raw, cfa, gh, false, y, x);
        lemma_cost_in_order(raw, cfa, gv, true, y, x);
    }
}

/// Red and blue at a green pixel: green, then half of what is measured above green behind the
/// pixel, then half of that ahead of it. At the other pixels, what is measured, and nothing else.
pub proof fn law_neighbours_in_order<T: Sample>(
    raw: Image<T>,
    cfa: Mosaic,
    rgb: Image<[T; 3]>,
    y: int,
    x: int,
)
    requires
        bayer(cfa),
        raw.contains(y, x),
    ensures
        ({
            let two = num::<T>(2);
            let green = CFA_COLOR_G as int;
            let p = rgb.px(y, x);
            let q = colors_at_green(raw, cfa, rgb).px(y, x);
            let half = |vertical: bool, d: int|
                stepped(raw, vertical, y, x, d).sub_spec(
                    stepped(rgb, vertical, y, x, d)[green],
                ).div_spec(two);
            let g = p[green];
            if cfa(y, x) == CFA_COLOR_G {
                &&& q[green] == g
                &&& q[cfa(y, x + 1) as int] == g.add_spec(half(false, -1)).add_spec(half(false, 1))
                &&& q[cfa(y + 1, x) as int] == g.add_spec(half(true, -1)).add_spec(half(true, 1))
            } else {
                only_channel(p, q, cfa(y, x), raw.px(y, x))
            }
        }),
{
    lemma_colors(cfa, y, x);
}

/// The missing one of red and blue: the measured one, then half of the difference behind the
/// pixel, then half of that ahead of it. Nothing else is changed.
pub proof fn law_missing_in_order<T: Sample>(
    cfa: Mosaic,
    dir: Image<u16>,
    rgb: Image<[T; 3]>,
    y: int,
    x: int,
)
    requires
        bayer(cfa),
        rgb.contains(y, x),
    ensures
        ({
            let two = num::<T>(2);
            let from = cfa(y, x) as int;
            let to = missing(cfa, y, x);
            let p = rgb.px(y, x);
            let vertical = dir.px(y, x) != 1;
            let q = colors_at_opposite(cfa, dir, rgb).px(y, x);
            let part = |d: int|
                stepped(rgb, vertical, y, x, d)[to as int].sub_spec(
                    stepped(rgb, vertical, y, x, d)[from],
                ).div_spec(two);
            if cfa(y, x) == CFA_COLOR_G {
                q == p
            } else {
                only_channel(p, q, to, p[from].add_spec(part(-1)).add_spec(part(1)))
            }
        }),
{
    lemma_colors(cfa, y, x);
}

/// What is refined at a red or blue pixel: the measured colour, then a third of the difference
/// behind the pixel, at it, and ahead of it. Nothing else is changed.
pub proof fn law_refined_in_order<T: Sample>(
    cfa: Mosaic,
    dir: Image<u16>,
    rgb: Image<[T; 3]>,
    y: int,
    x: int,
)
    requires
        bayer(cfa),
        rgb.contains(y, x),
    ensures
        ({
            let three = num::<T>(3);
            let from = cfa(y, x) as int;
            let to = missing(cfa, y, x);
            let p = rgb.px(y, x);
            let vertical = dir.px(y, x) != 1;
            let part = |to: usize, d: int|
                stepped(rgb, vertical, y, x, d)[to as int].sub_spec(
                    stepped(rgb, vertical, y, x, d)[from],
                ).div_spec(three);
            let sum = |to: usize|
                p[from].add_spec(part(to, -1)).add_spec(part(to, 0)).add_spec(part(to, 1));
            let q = refined_green(cfa, dir, rgb).px(y, x);
            let r = refined_at_opposite(cfa, dir, rgb).px(y, x);
            if cfa(y, x) == CFA_COLOR_G {
                q == p && r == p
            } else {
                &&& only_channel(p, q, CFA_COLOR_G, sum(CFA_COLOR_G))
                &&& only_channel(p, r, to, sum(to))
            }
        }),
{
    lemma_colors(cfa, y, x);
}

/// Red and blue refined at a green pixel: green, then half of what they lie above green behind the
/// pixel, then half of that ahead of it. Nothing else is changed.
pub proof fn law_refined_neighbours_in_order<T: Sample>(
    cfa: Mosaic,
    rgb: Image<[T; 3]>,
    y: int,
    x: int,
)
    requires
        bayer(cfa),
        rgb.contains(y, x),
    ensures
        ({
            let two = num::<T>(2);
            let green = CFA_COLOR_G as int;
            let h = cfa(y, x + 1);
            let w = cfa(y + 1, x);
            let q = refined_at_green(cfa, rgb).px(y, x);
            let half = |vertical: bool, c: usize, d: int|
                stepped(rgb, vertical, y, x, d)[c as int].sub_spec(
                    stepped(rgb, vertical, y, x, d)[green],
                ).div_spec(two);
            let g = rgb.px(y, x)[green];
            if cfa(y, x) == CFA_COLOR_G {
                &&& q[green] == g
                &&& q[h as int] == g.add_spec(half(false, h, -1)).add_spec(half(false, h, 1))
                &&& q[w as int] == g.add_spec(half(true, w, -1)).add_spec(half(true, w, 1))
            } else {
                q == rgb.px(y, x)
            }
        }),
{
    lemma_colors(cfa, y, x);
}

/// The steps follow each other: each works on what the one before it has left, starting from zeros.
pub proof fn law_steps_in_order<T: Sample>(raw: Image<T>, cfa: Mosaic)
    ensures
        ({
            let zero = num::<T>(0);
            let blank = Image::constant(raw.width, raw.height, zero);
            let black = Image::constant(raw.width, raw.height, [zero, zero, zero]);
            let unset = Image::constant(raw.width, raw.height, 0u16);
            let gh = green_plane(raw, cfa, false, blank);
            let gv = green_plane(raw, cfa, true, blank);
            let dir = direction_plane(raw, cfa, gh, gv, unset);
            let green = filled_green(raw, cfa, gh, gv, dir, black);
            let partial = colors_at_green(raw, cfa, green);
            let full = colors_at_opposite(cfa, dir, partial);
            let first = refined_green(cfa, dir, full);
            let second = refined_at_green(cfa, first);
            menon(raw, cfa) == refined_at_opposite(cfa, dir, second)
        }),
{
}

} // verus!
