//! What the steps mean in exact arithmetic.
//!
//! A reading gives each sample the real number that it stands for. Where the operations on samples
//! are those on the numbers, the laws below say of each step how the numbers that come out lie to
//! the numbers that went in.

use crate::bayer::lemma_colors;
use crate::cfa::{bayer, Mosaic, CFA_COLOR_B, CFA_COLOR_G, CFA_COLOR_R};
use crate::image::{lemma_mirror_range, Image};
use crate::model::{
    across, along, colors_at_green, colors_at_opposite, cost_plane, cost_taps, cost_weights,
    difference, direction_plane, filled_green, gradient_plane, green_plane, green_taps,
    green_weights, refined_at_green, refined_at_opposite, refined_green,
};
use crate::sample::{magnitude, num, ratio, weighted_sum, Sample};
use vstd::prelude::*;
use vstd::std_specs::cmp::PartialOrdIs;
use vstd::std_specs::ops::{AddSpec, DivSpec, MulSpec, NegSpec, SubSpec};

verus! {

// Readings.

/// The two samples compare as their numbers do.
pub open spec fn same_order<T: Sample>(v: spec_fn(T) -> real, a: T, b: T) -> bool {
    &&& a.is_lt(&b) == (v(a) < v(b))
    &&& a.is_ge(&b) == (v(a) >= v(b))
}

/// The samples are exact: `v` reads a number from each of them, the operations on samples are
/// those on the numbers, and samples compare as the numbers do.
pub open spec fn exact<T: Sample>(v: spec_fn(T) -> real) -> bool {
    &&& forall|n: int| -128 <= n <= 127 ==> v(#[trigger] num::<T>(n)) == n as real
    &&& forall|a: T, b: T| v(#[trigger] a.add_spec(b)) == v(a) + v(b)
    &&& forall|a: T, b: T| v(#[trigger] a.sub_spec(b)) == v(a) - v(b)
    &&& forall|a: T| v(#[trigger] a.neg_spec()) == -v(a)
    &&& forall|a: T, b: T| v(#[trigger] a.mul_spec(b)) == v(a) * v(b)
    &&& forall|a: T, b: T|
        v(b) != 0 as real ==> v(#[trigger] a.div_spec(b)) == v(a) / v(b)
    &&& forall|a: T, b: T| #[trigger] same_order(v, a, b)
}

/// The number at `(y, x)` of the plane that the image fills by reflection at its edges, or that
/// many steps further along the column (`vertical`) or along the row.
pub open spec fn reading<T>(
    v: spec_fn(T) -> real,
    img: Image<T>,
    vertical: bool,
    y: int,
    x: int,
    d: int,
) -> real {
    if vertical {
        v(img.mirrored(y + d, x))
    } else {
        v(img.mirrored(y, x + d))
    }
}

/// The number of channel `c`, `d` steps from `(y, x)` in the given direction.
pub open spec fn channel<T>(
    v: spec_fn(T) -> real,
    img: Image<[T; 3]>,
    vertical: bool,
    y: int,
    x: int,
    d: int,
    c: usize,
) -> real {
    if vertical {
        v(img.mirrored(y + d, x)[c as int])
    } else {
        v(img.mirrored(y, x + d)[c as int])
    }
}

proof fn lemma_weights<T: Sample>(v: spec_fn(T) -> real)
    requires
        exact(v),
    ensures
        v(num::<T>(0)) == 0 as real,
        v(ratio::<T>(1, 2)) == 1 as real / 2 as real,
        v(ratio::<T>(-1, 4)) == -(1 as real) / 4 as real,
        forall|a: T| v(#[trigger] a.div_spec(num::<T>(2))) == v(a) / 2 as real,
        forall|a: T| v(#[trigger] a.div_spec(num::<T>(3))) == v(a) / 3 as real,
{
    assert(v(num::<T>(2)) == 2 as real);
    assert(v(num::<T>(3)) == 3 as real);
    assert(v(num::<T>(4)) == 4 as real);
    assert(v(num::<T>(1)) == 1 as real);
    assert(v(num::<T>(-1)) == -1 as real);
}

/// A product with one of the weights.
proof fn lemma_product<T: Sample>(v: spec_fn(T) -> real, a: T)
    requires
        exact(v),
    ensures
        v(ratio::<T>(1, 2).mul_spec(a)) == v(a) / 2 as real,
        v(ratio::<T>(-1, 4).mul_spec(a)) == -v(a) / 4 as real,
        v(num::<T>(1).mul_spec(a)) == v(a),
        v(num::<T>(3).mul_spec(a)) == 3 as real * v(a),
{
    lemma_weights(v);
    let x = v(a);
    assert((1 as real / 2 as real) * x == x / 2 as real) by (nonlinear_arith);
    assert((-(1 as real) / 4 as real) * x == -x / 4 as real) by (nonlinear_arith);
    assert(v(num::<T>(1)) == 1 as real);
    assert(v(num::<T>(3)) == 3 as real);
    assert((1 as real) * x == x) by (nonlinear_arith);
}

// What is said of one pixel.

/// Where green is not measured, it is the mean of the two greens beside the pixel, raised by a
/// quarter of what the colour of the pixel lies above the same colour two steps back and above
/// that two steps ahead.
pub open spec fn between_greens<T>(
    v: spec_fn(T) -> real,
    raw: Image<T>,
    cfa: Mosaic,
    vertical: bool,
    green: Image<T>,
    y: int,
    x: int,
) -> bool {
    let at = |d: int| reading(v, raw, vertical, y, x, d);
    cfa(y, x) != CFA_COLOR_G ==> v(green.px(y, x)) == (at(-1) + at(1)) / 2 as real + ((at(0) - at(
        -2,
    )) + (at(0) - at(2))) / 4 as real
}

/// How much the difference between what is measured and green changes from `(y, x)` to two steps
/// further, where green is not measured; zero elsewhere, and outside the image.
pub open spec fn jump<T>(
    v: spec_fn(T) -> real,
    raw: Image<T>,
    cfa: Mosaic,
    green: Image<T>,
    vertical: bool,
    y: int,
    x: int,
) -> real {
    let here = reading(v, raw, vertical, y, x, 0) - reading(v, green, vertical, y, x, 0);
    let there = reading(v, raw, vertical, y, x, 2) - reading(v, green, vertical, y, x, 2);
    if !raw.contains(y, x) || cfa(y, x) == CFA_COLOR_G {
        0 as real
    } else if here < there {
        there - here
    } else {
        here - there
    }
}

/// The jumps around `(y, x)` in the given direction: those that start or end at the pixel count
/// three times, those of the six like pixels to either side once.
pub open spec fn unevenness<T>(
    v: spec_fn(T) -> real,
    raw: Image<T>,
    cfa: Mosaic,
    green: Image<T>,
    vertical: bool,
    y: int,
    x: int,
) -> real {
    let j = |a: int, b: int|
        if vertical {
            jump(v, raw, cfa, green, true, y + a, x + b)
        } else {
            jump(v, raw, cfa, green, false, y + b, x + a)
        };
    3 as real * (j(0, 0) + j(-2, 0)) + j(-1, -1) + j(-1, 1) + j(0, -2) + j(0, 2) + j(-2, -2) + j(
        -2,
        2,
    )
}

/// Where green is not measured, the column is chosen (0) if it is less uneven than the row, and
/// else the row (1).
pub open spec fn smoother_chosen<T>(
    v: spec_fn(T) -> real,
    raw: Image<T>,
    cfa: Mosaic,
    gh: Image<T>,
    gv: Image<T>,
    dir: Image<u16>,
    y: int,
    x: int,
) -> bool {
    cfa(y, x) != CFA_COLOR_G ==> dir.px(y, x) == if unevenness(v, raw, cfa, gv, true, y, x)
        < unevenness(v, raw, cfa, gh, false, y, x) {
        0u16
    } else {
        1u16
    }
}

/// Green is what is measured, or what is interpolated in the direction chosen; red and blue are as
/// before.
pub open spec fn green_chosen<T>(
    raw: Image<T>,
    cfa: Mosaic,
    gh: Image<T>,
    gv: Image<T>,
    dir: Image<u16>,
    before: Image<[T; 3]>,
    after: Image<[T; 3]>,
    y: int,
    x: int,
) -> bool {
    let p = before.px(y, x);
    let q = after.px(y, x);
    &&& q[CFA_COLOR_R as int] == p[CFA_COLOR_R as int]
    &&& q[CFA_COLOR_B as int] == p[CFA_COLOR_B as int]
    &&& cfa(y, x) == CFA_COLOR_G ==> q[CFA_COLOR_G as int] == raw.px(y, x)
    &&& cfa(y, x) != CFA_COLOR_G && dir.px(y, x) == 1 ==> q[CFA_COLOR_G as int] == gh.px(y, x)
    &&& cfa(y, x) != CFA_COLOR_G && dir.px(y, x) != 1 ==> q[CFA_COLOR_G as int] == gv.px(y, x)
}

/// Where green is measured, the colour of the filters beside it in either direction lies above
/// green by the mean of what the two neighbours there measure above their green. Elsewhere the
/// measured colour is filled in. The other channels are as before.
pub open spec fn neighbours_over_green<T>(
    v: spec_fn(T) -> real,
    raw: Image<T>,
    cfa: Mosaic,
    before: Image<[T; 3]>,
    after: Image<[T; 3]>,
    y: int,
    x: int,
) -> bool {
    let p = before.px(y, x);
    let q = after.px(y, x);
    let over = |vertical: bool, d: int|
        reading(v, raw, vertical, y, x, d) - channel(v, before, vertical, y, x, d, CFA_COLOR_G);
    if cfa(y, x) == CFA_COLOR_G {
        &&& q[CFA_COLOR_G as int] == p[CFA_COLOR_G as int]
        &&& v(q[cfa(y, x + 1) as int]) - v(p[CFA_COLOR_G as int]) == (over(false, -1) + over(
            false,
            1,
        )) / 2 as real
        &&& v(q[cfa(y + 1, x) as int]) - v(p[CFA_COLOR_G as int]) == (over(true, -1) + over(
            true,
            1,
        )) / 2 as real
    } else {
        &&& q[cfa(y, x) as int] == raw.px(y, x)
        &&& forall|c: int| 0 <= c < 3 && c != cfa(y, x) ==> #[trigger] q[c] == p[c]
    }
}

/// Of red and blue, the one that is not measured at the red or blue pixel `(y, x)`.
pub open spec fn missing(cfa: Mosaic, y: int, x: int) -> usize {
    if cfa(y, x) == CFA_COLOR_B {
        CFA_COLOR_R
    } else {
        CFA_COLOR_B
    }
}

/// Where green is not measured, channel `to` lies above the measured colour by the mean of the
/// difference of the two channels at the two neighbours in the direction chosen, and at the pixel
/// itself if `centre`. All else is as before.
pub open spec fn mean_difference<T>(
    v: spec_fn(T) -> real,
    cfa: Mosaic,
    dir: Image<u16>,
    centre: bool,
    to: usize,
    before: Image<[T; 3]>,
    after: Image<[T; 3]>,
    y: int,
    x: int,
) -> bool {
    let p = before.px(y, x);
    let q = after.px(y, x);
    let from = cfa(y, x);
    let vertical = dir.px(y, x) != 1;
    let diff = |d: int|
        channel(v, before, vertical, y, x, d, to) - channel(v, before, vertical, y, x, d, from);
    if cfa(y, x) == CFA_COLOR_G {
        q == p
    } else {
        &&& v(q[to as int]) - v(p[from as int]) == if centre {
            (diff(-1) + diff(0) + diff(1)) / 3 as real
        } else {
            (diff(-1) + diff(1)) / 2 as real
        }
        &&& forall|c: int| 0 <= c < 3 && c != to ==> #[trigger] q[c] == p[c]
    }
}

/// Where green is measured, the colour of the filters beside it in either direction lies above
/// green by the mean of what it lies above green at the two neighbours there. All else is as
/// before.
pub open spec fn neighbours_refined<T>(
    v: spec_fn(T) -> real,
    cfa: Mosaic,
    before: Image<[T; 3]>,
    after: Image<[T; 3]>,
    y: int,
    x: int,
) -> bool {
    let p = before.px(y, x);
    let q = after.px(y, x);
    let over = |vertical: bool, c: usize, d: int|
        channel(v, before, vertical, y, x, d, c) - channel(
            v,
            before,
            vertical,
            y,
            x,
            d,
            CFA_COLOR_G,
        );
    let h = cfa(y, x + 1);
    let w = cfa(y + 1, x);
    if cfa(y, x) == CFA_COLOR_G {
        &&& q[CFA_COLOR_G as int] == p[CFA_COLOR_G as int]
        &&& v(q[h as int]) - v(p[CFA_COLOR_G as int]) == (over(false, h, -1) + over(false, h, 1))
            / 2 as real
        &&& v(q[w as int]) - v(p[CFA_COLOR_G as int]) == (over(true, w, -1) + over(true, w, 1))
            / 2 as real
    } else {
        q == p
    }
}

// Green along one direction.

/// Interpolated green is the mean of the two greens beside the pixel, raised by a quarter of what
/// the colour of the pixel lies above the same colour two steps back and two steps ahead.
pub proof fn law_green_between_greens<T: Sample>(
    raw: Image<T>,
    cfa: Mosaic,
    vertical: bool,
    before: Image<T>,
    y: int,
    x: int,
    v: spec_fn(T) -> real,
)
    requires
        exact(v),
        raw.contains(y, x),
    ensures
        between_greens(
            v,
            raw,
            cfa,
            vertical,
            green_plane(raw, cfa, vertical, before),
            y,
            x,
        ),
        cfa(y, x) == CFA_COLOR_G ==> green_plane(raw, cfa, vertical, before).px(y, x)
            == before.px(y, x),
{
    if cfa(y, x) != CFA_COLOR_G {
        let taps = green_taps(raw, vertical, y, x);
        let w = green_weights::<T>();
        lemma_weights(v);
        lemma_product(v, taps[0]);
        lemma_product(v, taps[1]);
        lemma_product(v, taps[2]);
        lemma_product(v, taps[3]);
        lemma_product(v, taps[4]);
        assert(weighted_sum(w, taps, 0) == num::<T>(0));
        assert(weighted_sum(w, taps, 1) == weighted_sum(w, taps, 0).add_spec(
            w[0].mul_spec(taps[0]),
        ));
        assert(weighted_sum(w, taps, 2) == weighted_sum(w, taps, 1).add_spec(
            w[1].mul_spec(taps[1]),
        ));
        assert(weighted_sum(w, taps, 3) == weighted_sum(w, taps, 2).add_spec(
            w[2].mul_spec(taps[2]),
        ));
        assert(weighted_sum(w, taps, 4) == weighted_sum(w, taps, 3).add_spec(
            w[3].mul_spec(taps[3]),
        ));
        assert(weighted_sum(w, taps, 5) == weighted_sum(w, taps, 4).add_spec(
            w[4].mul_spec(taps[4]),
        ));
    }
}

/// Where the two greens beside a pixel are the same, and so is the colour of the pixel and of the
/// two pixels two steps away, interpolated green is that green, whatever the colour is.
pub proof fn law_even_color_leaves_green<T: Sample>(
    raw: Image<T>,
    cfa: Mosaic,
    vertical: bool,
    before: Image<T>,
    y: int,
    x: int,
    green: real,
    color: real,
    v: spec_fn(T) -> real,
)
    requires
        exact(v),
        raw.contains(y, x),
        cfa(y, x) != CFA_COLOR_G,
        reading(v, raw, vertical, y, x, -1) == green,
        reading(v, raw, vertical, y, x, 1) == green,
        reading(v, raw, vertical, y, x, -2) == color,
        reading(v, raw, vertical, y, x, 0) == color,
        reading(v, raw, vertical, y, x, 2) == color,
    ensures
        v(green_plane(raw, cfa, vertical, before).px(y, x)) == green,
{
    law_green_between_greens(raw, cfa, vertical, before, y, x, v);
}

// The direction of interpolation.

/// A gradient is the number that `jump` says.
proof fn lemma_gradient<T: Sample>(
    raw: Image<T>,
    cfa: Mosaic,
    green: Image<T>,
    vertical: bool,
    y: int,
    x: int,
    v: spec_fn(T) -> real,
)
    requires
        exact(v),
        green.width == raw.width,
        green.height == raw.height,
    ensures
        v(gradient_plane(raw, cfa, green, vertical).padded(y, x, num::<T>(0))) == jump(
            v,
            raw,
            cfa,
            green,
            vertical,
            y,
            x,
        ),
{
    lemma_weights(v);
    let a = difference(raw, green, vertical, y, x, 0);
    let b = difference(raw, green, vertical, y, x, 2);
    assert(same_order(v, a.sub_spec(b), num::<T>(0)));
}

/// A cost is the number that `unevenness` says.
proof fn lemma_cost<T: Sample>(
    raw: Image<T>,
    cfa: Mosaic,
    green: Image<T>,
    vertical: bool,
    y: int,
    x: int,
    v: spec_fn(T) -> real,
)
    requires
        exact(v),
        raw.contains(y, x),
        green.width == raw.width,
        green.height == raw.height,
        cfa(y, x) != CFA_COLOR_G,
    ensures
        v(cost_plane(gradient_plane(raw, cfa, green, vertical), cfa, vertical).px(y, x))
            == unevenness(v, raw, cfa, green, vertical, y, x),
{
    let g = gradient_plane(raw, cfa, green, vertical);
    let t = cost_taps(g, vertical, y, x);
    let w = cost_weights::<T>();
    lemma_weights(v);
    assert forall|i: int| 0 <= i < 8 implies v(#[trigger] t[i]) == if vertical {
        jump(v, raw, cfa, green, vertical, y + along()[i], x + across()[i])
    } else {
        jump(v, raw, cfa, green, vertical, y + across()[i], x + along()[i])
    } by {
        if vertical {
            lemma_gradient(raw, cfa, green, vertical, y + along()[i], x + across()[i], v);
        } else {
            lemma_gradient(raw, cfa, green, vertical, y + across()[i], x + along()[i], v);
        }
    }
    lemma_product(v, t[0]);
    lemma_product(v, t[1]);
    lemma_product(v, t[2]);
    lemma_product(v, t[3]);
    lemma_product(v, t[4]);
    lemma_product(v, t[5]);
    lemma_product(v, t[6]);
    lemma_product(v, t[7]);
    assert(weighted_sum(w, t, 0) == num::<T>(0));
    assert(weighted_sum(w, t, 1) == weighted_sum(w, t, 0).add_spec(w[0].mul_spec(t[0])));
    assert(weighted_sum(w, t, 2) == weighted_sum(w, t, 1).add_spec(w[1].mul_spec(t[1])));
    assert(weighted_sum(w, t, 3) == weighted_sum(w, t, 2).add_spec(w[2].mul_spec(t[2])));
    assert(weighted_sum(w, t, 4) == weighted_sum(w, t, 3).add_spec(w[3].mul_spec(t[3])));
    assert(weighted_sum(w, t, 5) == weighted_sum(w, t, 4).add_spec(w[4].mul_spec(t[4])));
    assert(weighted_sum(w, t, 6) == weighted_sum(w, t, 5).add_spec(w[5].mul_spec(t[5])));
    assert(weighted_sum(w, t, 7) == weighted_sum(w, t, 6).add_spec(w[6].mul_spec(t[6])));
    assert(weighted_sum(w, t, 8) == weighted_sum(w, t, 7).add_spec(w[7].mul_spec(t[7])));
}

/// At a red or blue pixel, the direction chosen is the column if the column is less uneven than the
/// row, and else the row.
pub proof fn law_smoother_direction<T: Sample>(
    raw: Image<T>,
    cfa: Mosaic,
    gh: Image<T>,
    gv: Image<T>,
    before: Image<u16>,
    y: int,
    x: int,
    v: spec_fn(T) -> real,
)
    requires
        exact(v),
        raw.contains(y, x),
        gh.width == raw.width,
        gh.height == raw.height,
        gv.width == raw.width,
        gv.height == raw.height,
    ensures
        smoother_chosen(
            v,
            raw,
            cfa,
            gh,
            gv,
            direction_plane(raw, cfa, gh, gv, before),
            y,
            x,
        ),
        cfa(y, x) == CFA_COLOR_G ==> direction_plane(raw, cfa, gh, gv, before).px(y, x)
            == before.px(y, x),
{
    if cfa(y, x) != CFA_COLOR_G {
        lemma_cost(raw, cfa, gh, false, y, x, v);
        lemma_cost(raw, cfa, gv, true, y, x, v);
        let dh = cost_plane(gradient_plane(raw, cfa, gh, false), cfa, false);
        let dv = cost_plane(gradient_plane(raw, cfa, gv, true), cfa, true);
        assert(same_order(v, dv.px(y, x), dh.px(y, x)));
    }
}

// Colours.

/// Green is what is measured, or what is interpolated in the direction chosen.
pub proof fn law_green_is_chosen<T: Sample>(
    raw: Image<T>,
    cfa: Mosaic,
    gh: Image<T>,
    gv: Image<T>,
    dir: Image<u16>,
    before: Image<[T; 3]>,
    y: int,
    x: int,
)
    requires
        raw.contains(y, x),
    ensures
        green_chosen(
            raw,
            cfa,
            gh,
            gv,
            dir,
            before,
            filled_green(raw, cfa, gh, gv, dir, before),
            y,
            x,
        ),
{
}

/// At a green pixel, the colour beside it lies above green by the mean of what is measured above
/// green at the two neighbours.
pub proof fn law_color_over_green<T: Sample>(
    raw: Image<T>,
    cfa: Mosaic,
    rgb: Image<[T; 3]>,
    y: int,
    x: int,
    v: spec_fn(T) -> real,
)
    requires
        exact(v),
        bayer(cfa),
        raw.contains(y, x),
    ensures
        neighbours_over_green(v, raw, cfa, rgb, colors_at_green(raw, cfa, rgb), y, x),
{
    lemma_weights(v);
    lemma_colors(cfa, y, x);
}

/// At a green pixel whose green is that of both neighbours in a direction, and both of which
/// measure the same, the colour of these neighbours is what they measure.
pub proof fn law_even_neighbours_give_their_color<T: Sample>(
    raw: Image<T>,
    cfa: Mosaic,
    rgb: Image<[T; 3]>,
    vertical: bool,
    y: int,
    x: int,
    green: real,
    color: real,
    v: spec_fn(T) -> real,
)
    requires
        exact(v),
        bayer(cfa),
        raw.contains(y, x),
        cfa(y, x) == CFA_COLOR_G,
        v(rgb.px(y, x)[CFA_COLOR_G as int]) == green,
        channel(v, rgb, vertical, y, x, -1, CFA_COLOR_G) == green,
        channel(v, rgb, vertical, y, x, 1, CFA_COLOR_G) == green,
        reading(v, raw, vertical, y, x, -1) == color,
        reading(v, raw, vertical, y, x, 1) == color,
    ensures
        v(
            colors_at_green(raw, cfa, rgb).px(y, x)[if vertical {
                cfa(y + 1, x)
            } else {
                cfa(y, x + 1)
            } as int],
        ) == color,
{
    law_color_over_green(raw, cfa, rgb, y, x, v);
}

/// At a red or blue pixel, the missing one of red and blue lies above the measured one by the mean
/// of the difference of the two at the neighbours in the direction chosen.
pub proof fn law_missing_color<T: Sample>(
    cfa: Mosaic,
    dir: Image<u16>,
    rgb: Image<[T; 3]>,
    y: int,
    x: int,
    v: spec_fn(T) -> real,
)
    requires
        exact(v),
        bayer(cfa),
        rgb.contains(y, x),
    ensures
        mean_difference(
            v,
            cfa,
            dir,
            false,
            missing(cfa, y, x),
            rgb,
            colors_at_opposite(cfa, dir, rgb),
            y,
            x,
        ),
{
    lemma_weights(v);
    lemma_colors(cfa, y, x);
}

/// At a red or blue pixel, refined green lies above the measured colour by the mean of the
/// difference of the two at the pixel and its neighbours in the direction chosen.
pub proof fn law_refined_green<T: Sample>(
    cfa: Mosaic,
    dir: Image<u16>,
    rgb: Image<[T; 3]>,
    y: int,
    x: int,
    v: spec_fn(T) -> real,
)
    requires
        exact(v),
        bayer(cfa),
        rgb.contains(y, x),
    ensures
        mean_difference(
            v,
            cfa,
            dir,
            true,
            CFA_COLOR_G,
            rgb,
            refined_green(cfa, dir, rgb),
            y,
            x,
        ),
{
    lemma_weights(v);
    lemma_colors(cfa, y, x);
}

/// At a green pixel, refined red and blue lie above green by the mean of what they lie above green
/// at the two neighbours where they are measured.
pub proof fn law_refined_at_green<T: Sample>(
    cfa: Mosaic,
    rgb: Image<[T; 3]>,
    y: int,
    x: int,
    v: spec_fn(T) -> real,
)
    requires
        exact(v),
        bayer(cfa),
        rgb.contains(y, x),
    ensures
        neighbours_refined(v, cfa, rgb, refined_at_green(cfa, rgb), y, x),
{
    lemma_weights(v);
    lemma_colors(cfa, y, x);
}

/// At a red or blue pixel, the refined missing colour lies above the measured one by the mean of
/// the difference of the two at the pixel and its neighbours in the direction chosen.
pub proof fn law_refined_missing_color<T: Sample>(
    cfa: Mosaic,
    dir: Image<u16>,
    rgb: Image<[T; 3]>,
    y: int,
    x: int,
    v: spec_fn(T) -> real,
)
    requires
        exact(v),
        bayer(cfa),
        rgb.contains(y, x),
    ensures
        mean_difference(
            v,
            cfa,
            dir,
            true,
            missing(cfa, y, x),
            rgb,
            refined_at_opposite(cfa, dir, rgb),
            y,
            x,
        ),
{
    lemma_weights(v);
    lemma_colors(cfa, y, x);
}

/// At a red or blue pixel whose neighbours in the direction chosen have its own red or blue, and the
/// same missing colour, the missing colour is theirs, whatever green is around.
pub proof fn law_even_neighbours_give_missing_color<T: Sample>(
    cfa: Mosaic,
    dir: Image<u16>,
    rgb: Image<[T; 3]>,
    y: int,
    x: int,
    measured: real,
    missed: real,
    v: spec_fn(T) -> real,
)
    requires
        exact(v),
        bayer(cfa),
        rgb.contains(y, x),
        cfa(y, x) != CFA_COLOR_G,
        ({
            let vertical = dir.px(y, x) != 1;
            let from = cfa(y, x);
            let to = missing(cfa, y, x);
            &&& v(rgb.px(y, x)[from as int]) == measured
            &&& channel(v, rgb, vertical, y, x, -1, from) == measured
            &&& channel(v, rgb, vertical, y, x, 1, from) == measured
            &&& channel(v, rgb, vertical, y, x, -1, to) == missed
            &&& channel(v, rgb, vertical, y, x, 1, to) == missed
        }),
    ensures
        v(colors_at_opposite(cfa, dir, rgb).px(y, x)[missing(cfa, y, x) as int]) == missed,
{
    law_missing_color(cfa, dir, rgb, y, x, v);
}

/// At a red or blue pixel whose neighbours in the direction chosen have its own red and blue, the
/// missing colour is left as it is by refinement, whatever green is around.
pub proof fn law_even_neighbours_keep_missing_color<T: Sample>(
    cfa: Mosaic,
    dir: Image<u16>,
    rgb: Image<[T; 3]>,
    y: int,
    x: int,
    measured: real,
    missed: real,
    v: spec_fn(T) -> real,
)
    requires
        exact(v),
        bayer(cfa),
        rgb.contains(y, x),
        cfa(y, x) != CFA_COLOR_G,
        ({
            let vertical = dir.px(y, x) != 1;
            let from = cfa(y, x);
            let to = missing(cfa, y, x);
            &&& v(rgb.px(y, x)[from as int]) == measured
            &&& channel(v, rgb, vertical, y, x, -1, from) == measured
            &&& channel(v, rgb, vertical, y, x, 1, from) == measured
            &&& channel(v, rgb, vertical, y, x, -1, to) == missed
            &&& channel(v, rgb, vertical, y, x, 1, to) == missed
            &&& v(rgb.px(y, x)[to as int]) == missed
        }),
    ensures
        v(refined_at_opposite(cfa, dir, rgb).px(y, x)[missing(cfa, y, x) as int]) == missed,
{
    law_refined_missing_color(cfa, dir, rgb, y, x, v);
    lemma_mirror_range(y, rgb.height as int);
    lemma_mirror_range(x, rgb.width as int);
}

/// The absolute value is the number without its sign.
pub proof fn law_absolute_value<T: Sample>(a: T, v: spec_fn(T) -> real)
    requires
        exact(v),
    ensures
        v(magnitude(a)) >= 0 as real,
        v(magnitude(a)) == v(a) || v(magnitude(a)) == -v(a),
{
    lemma_weights(v);
    assert(same_order(v, a, num::<T>(0)));
}

} // verus!
