//! What becomes of the colours when all that is measured is scaled.

use crate::bayer::lemma_colors;
use crate::cfa::{bayer, law_bayer_from_anywhere, shifted, Mosaic, CFA_COLOR_G};
use crate::geometry::Area;
use crate::image::{lemma_image_equal, lemma_mirror_range, mirror, Image};
use crate::model::{
    across, along, beside, colors_at_green, colors_at_opposite, cost_plane, cost_taps,
    cost_weights, difference, direction_plane, excess, filled_green, gradient, gradient_plane,
    green_plane, green_taps, green_weights, half_chroma, is_green, menon, neighbour_color,
    opposite, raised_by_three, raised_by_two, refined_at_green, refined_at_opposite,
    refined_green, with_channel,
};
use crate::sample::{num, ratio, weighted_sum, Sample};
use vstd::prelude::*;
use vstd::std_specs::cmp::PartialOrdIs;
use vstd::std_specs::ops::{AddSpec, DivSpec, MulSpec, NegSpec, SubSpec};

verus! {

// Scales.

/// Scaling a sum is adding what is scaled.
pub open spec fn keeps_sum<T: Sample>(scale: spec_fn(T) -> T, a: T, b: T) -> bool {
    scale(a.add_spec(b)) == scale(a).add_spec(scale(b))
}

/// Scaling a difference is subtracting what is scaled.
pub open spec fn keeps_difference<T: Sample>(scale: spec_fn(T) -> T, a: T, b: T) -> bool {
    scale(a.sub_spec(b)) == scale(a).sub_spec(scale(b))
}

/// Scaling a negative is negating what is scaled.
pub open spec fn keeps_negative<T: Sample>(scale: spec_fn(T) -> T, a: T) -> bool {
    scale(a.neg_spec()) == scale(a).neg_spec()
}

/// Scaling what is weighted is weighting what is scaled.
pub open spec fn keeps_weighted<T: Sample>(scale: spec_fn(T) -> T, w: T, a: T) -> bool {
    scale(w.mul_spec(a)) == w.mul_spec(scale(a))
}

/// Scaling the `n`-th part is taking the `n`-th part of what is scaled.
pub open spec fn keeps_part<T: Sample>(scale: spec_fn(T) -> T, a: T, n: int) -> bool {
    scale(a.div_spec(num::<T>(n))) == scale(a).div_spec(num::<T>(n))
}

/// What is scaled compares as it did.
pub open spec fn keeps_order<T: Sample>(scale: spec_fn(T) -> T, a: T, b: T) -> bool {
    &&& scale(a).is_lt(&scale(b)) == a.is_lt(&b)
    &&& scale(a).is_ge(&scale(b)) == a.is_ge(&b)
}

/// `w` is one of the weights that pixels and gradients are multiplied by.
pub open spec fn is_weight<T: Sample>(w: T) -> bool {
    w == ratio::<T>(-1, 4) || w == ratio::<T>(1, 2) || w == num::<T>(1) || w == num::<T>(3)
}

/// `scale` keeps zero and the order, and commutes with the operations of the algorithm, as long as
/// operands and result are `ok`. Doubling is such a scale for floating point, if the numbers that
/// are `ok` are zero and those that are neither subnormal nor too large to be doubled.
pub open spec fn is_scale<T: Sample>(scale: spec_fn(T) -> T, ok: spec_fn(T) -> bool) -> bool {
    &&& ok(num::<T>(0))
    &&& scale(num::<T>(0)) == num::<T>(0)
    &&& forall|a: T, b: T|
        ok(a) && ok(b) && ok(a.add_spec(b)) ==> #[trigger] keeps_sum(scale, a, b)
    &&& forall|a: T, b: T|
        ok(a) && ok(b) && ok(a.sub_spec(b)) ==> #[trigger] keeps_difference(scale, a, b)
    &&& forall|a: T| ok(a) && ok(a.neg_spec()) ==> #[trigger] keeps_negative(scale, a)
    &&& forall|w: T, a: T|
        is_weight(w) && ok(a) && ok(w.mul_spec(a)) ==> #[trigger] keeps_weighted(scale, w, a)
    &&& forall|a: T, n: int|
        2 <= n <= 3 && ok(a) && ok(a.div_spec(num::<T>(n))) ==> #[trigger] keeps_part(scale, a, n)
    &&& forall|a: T, b: T| ok(a) && ok(b) ==> #[trigger] keeps_order(scale, a, b)
}

/// The image with `f` applied to all its pixels.
pub open spec fn mapped<P>(img: Image<P>, f: spec_fn(P) -> P) -> Image<P> {
    Image::tabulate(img.width, img.height, |y: int, x: int| f(img.px(y, x)))
}

/// All pixels of the image are `ok`.
pub open spec fn all_ok<P>(img: Image<P>, ok: spec_fn(P) -> bool) -> bool {
    forall|y: int, x: int| #[trigger] img.contains(y, x) ==> ok(img.px(y, x))
}

/// The scale, applied to the three colours of a pixel.
pub open spec fn on_colors<T>(scale: spec_fn(T) -> T) -> spec_fn([T; 3]) -> [T; 3] {
    |p: [T; 3]| [scale(p[0]), scale(p[1]), scale(p[2])]
}

/// The three colours of a pixel are `ok`.
pub open spec fn ok_colors<T>(ok: spec_fn(T) -> bool) -> spec_fn([T; 3]) -> bool {
    |p: [T; 3]| ok(p[0]) && ok(p[1]) && ok(p[2])
}

// What the steps of the algorithm compute on the way to their results.

/// The terms and the partial sums of a weighted sum are `ok`.
pub open spec fn sum_ok<T: Sample>(w: Seq<T>, v: Seq<T>, n: nat, ok: spec_fn(T) -> bool) -> bool
    decreases n,
{
    n > 0 ==> {
        &&& sum_ok(w, v, (n - 1) as nat, ok)
        &&& ok(w[n - 1].mul_spec(v[n - 1]))
        &&& ok(weighted_sum(w, v, n))
    }
}

/// What `green_plane` computes is `ok`.
pub open spec fn green_plane_ok<T: Sample>(
    raw: Image<T>,
    cfa: Mosaic,
    vertical: bool,
    ok: spec_fn(T) -> bool,
) -> bool {
    forall|y: int, x: int| #[trigger]
        raw.contains(y, x) && !is_green(cfa, y, x) ==> sum_ok(
            green_weights::<T>(),
            green_taps(raw, vertical, y, x),
            5,
            ok,
        )
}

/// What a gradient is computed from is `ok`, and so is the gradient.
pub open spec fn gradient_ok<T: Sample>(
    raw: Image<T>,
    green: Image<T>,
    vertical: bool,
    y: int,
    x: int,
    ok: spec_fn(T) -> bool,
) -> bool {
    let a = difference(raw, green, vertical, y, x, 0);
    let b = difference(raw, green, vertical, y, x, 2);
    &&& ok(a)
    &&& ok(b)
    &&& ok(a.sub_spec(b))
    &&& ok(gradient(raw, green, vertical, y, x))
}

/// What `gradient_plane` computes is `ok`.
pub open spec fn gradient_plane_ok<T: Sample>(
    raw: Image<T>,
    cfa: Mosaic,
    green: Image<T>,
    vertical: bool,
    ok: spec_fn(T) -> bool,
) -> bool {
    forall|y: int, x: int| #[trigger]
        raw.contains(y, x) && !is_green(cfa, y, x) ==> gradient_ok(
            raw,
            green,
            vertical,
            y,
            x,
            ok,
        )
}

/// What `cost_plane` computes is `ok`.
pub open spec fn cost_plane_ok<T: Sample>(
    gradients: Image<T>,
    cfa: Mosaic,
    vertical: bool,
    ok: spec_fn(T) -> bool,
) -> bool {
    forall|y: int, x: int| #[trigger]
        gradients.contains(y, x) && !is_green(cfa, y, x) ==> sum_ok(
            cost_weights::<T>(),
            cost_taps(gradients, vertical, y, x),
            8,
            ok,
        )
}

/// What a colour beside a green pixel is computed from is `ok`, and so is the colour.
pub open spec fn neighbour_ok<T: Sample>(
    raw: Image<T>,
    rgb: Image<[T; 3]>,
    vertical: bool,
    y: int,
    x: int,
    ok: spec_fn(T) -> bool,
) -> bool {
    let green = CFA_COLOR_G as int;
    let back = half_chroma(raw, rgb, vertical, y, x, -1);
    let ahead = half_chroma(raw, rgb, vertical, y, x, 1);
    &&& ok(
        beside(raw, vertical, y, x, -1).sub_spec(beside(rgb, vertical, y, x, -1)[green]),
    )
    &&& ok(back)
    &&& ok(beside(raw, vertical, y, x, 1).sub_spec(beside(rgb, vertical, y, x, 1)[green]))
    &&& ok(ahead)
    &&& ok(rgb.px(y, x)[green].add_spec(back))
    &&& ok(neighbour_color(raw, rgb, vertical, y, x))
}

/// What `colors_at_green` computes is `ok`.
pub open spec fn colors_at_green_ok<T: Sample>(
    raw: Image<T>,
    cfa: Mosaic,
    rgb: Image<[T; 3]>,
    ok: spec_fn(T) -> bool,
) -> bool {
    forall|y: int, x: int| #[trigger]
        raw.contains(y, x) && is_green(cfa, y, x) ==> neighbour_ok(raw, rgb, false, y, x, ok)
            && neighbour_ok(raw, rgb, true, y, x, ok)
}

/// The excess of channel `to` over channel `from` is `ok`, and so is its `n`-th part.
pub open spec fn excess_ok<T: Sample>(
    rgb: Image<[T; 3]>,
    vertical: bool,
    y: int,
    x: int,
    d: int,
    to: usize,
    from: usize,
    n: int,
    ok: spec_fn(T) -> bool,
) -> bool {
    let e = excess(rgb, vertical, y, x, d, to, from);
    ok(e) && ok(e.div_spec(num::<T>(n)))
}

/// What a colour is computed from by a mean over two pixels is `ok`, and so is the colour.
pub open spec fn two_ok<T: Sample>(
    rgb: Image<[T; 3]>,
    vertical: bool,
    y: int,
    x: int,
    to: usize,
    from: usize,
    ok: spec_fn(T) -> bool,
) -> bool {
    &&& excess_ok(rgb, vertical, y, x, -1, to, from, 2, ok)
    &&& excess_ok(rgb, vertical, y, x, 1, to, from, 2, ok)
    &&& ok(
        rgb.px(y, x)[from as int].add_spec(
            excess(rgb, vertical, y, x, -1, to, from).div_spec(num::<T>(2)),
        ),
    )
    &&& ok(raised_by_two(rgb, vertical, y, x, to, from))
}

/// What a colour is computed from by a mean over three pixels is `ok`, and so is the colour.
pub open spec fn three_ok<T: Sample>(
    rgb: Image<[T; 3]>,
    vertical: bool,
    y: int,
    x: int,
    to: usize,
    from: usize,
    ok: spec_fn(T) -> bool,
) -> bool {
    let three = num::<T>(3);
    let first = rgb.px(y, x)[from as int].add_spec(
        excess(rgb, vertical, y, x, -1, to, from).div_spec(three),
    );
    &&& excess_ok(rgb, vertical, y, x, -1, to, from, 3, ok)
    &&& excess_ok(rgb, vertical, y, x, 0, to, from, 3, ok)
    &&& excess_ok(rgb, vertical, y, x, 1, to, from, 3, ok)
    &&& ok(first)
    &&& ok(first.add_spec(excess(rgb, vertical, y, x, 0, to, from).div_spec(three)))
    &&& ok(raised_by_three(rgb, vertical, y, x, to, from))
}

/// What `colors_at_opposite` computes is `ok`.
pub open spec fn colors_at_opposite_ok<T: Sample>(
    cfa: Mosaic,
    dir: Image<u16>,
    rgb: Image<[T; 3]>,
    ok: spec_fn(T) -> bool,
) -> bool {
    forall|y: int, x: int| #[trigger]
        rgb.contains(y, x) && !is_green(cfa, y, x) ==> two_ok(
            rgb,
            dir.px(y, x) != 1,
            y,
            x,
            opposite(cfa(y, x)),
            cfa(y, x),
            ok,
        )
}

/// What `refined_green` computes is `ok`.
pub open spec fn refined_green_ok<T: Sample>(
    cfa: Mosaic,
    dir: Image<u16>,
    rgb: Image<[T; 3]>,
    ok: spec_fn(T) -> bool,
) -> bool {
    forall|y: int, x: int| #[trigger]
        rgb.contains(y, x) && !is_green(cfa, y, x) ==> three_ok(
            rgb,
            dir.px(y, x) != 1,
            y,
            x,
            CFA_COLOR_G,
            cfa(y, x),
            ok,
        )
}

/// What `refined_at_green` computes is `ok`.
pub open spec fn refined_at_green_ok<T: Sample>(
    cfa: Mosaic,
    rgb: Image<[T; 3]>,
    ok: spec_fn(T) -> bool,
) -> bool {
    forall|y: int, x: int| #[trigger]
        rgb.contains(y, x) && is_green(cfa, y, x) ==> two_ok(
            rgb,
            false,
            y,
            x,
            cfa(y, x + 1),
            CFA_COLOR_G,
            ok,
        ) && two_ok(rgb, true, y, x, cfa(y + 1, x), CFA_COLOR_G, ok)
}

/// What `refined_at_opposite` computes is `ok`.
pub open spec fn refined_at_opposite_ok<T: Sample>(
    cfa: Mosaic,
    dir: Image<u16>,
    rgb: Image<[T; 3]>,
    ok: spec_fn(T) -> bool,
) -> bool {
    forall|y: int, x: int| #[trigger]
        rgb.contains(y, x) && !is_green(cfa, y, x) ==> three_ok(
            rgb,
            dir.px(y, x) != 1,
            y,
            x,
            opposite(cfa(y, x)),
            cfa(y, x),
            ok,
        )
}

/// What is measured is `ok`, and so is all that `menon` computes from it.
pub open spec fn menon_ok<T: Sample>(
    raw: Image<T>,
    cfa: Mosaic,
    ok: spec_fn(T) -> bool,
) -> bool {
    let zero = num::<T>(0);
    let blank = Image::constant(raw.width, raw.height, zero);
    let black = Image::constant(raw.width, raw.height, [zero, zero, zero]);
    let unset = Image::constant(raw.width, raw.height, 0u16);
    let gh = green_plane(raw, cfa, false, blank);
    let gv = green_plane(raw, cfa, true, blank);
    let dir = direction_plane(raw, cfa, gh, gv, unset);
    let a = filled_green(raw, cfa, gh, gv, dir, black);
    let b = colors_at_green(raw, cfa, a);
    let c = colors_at_opposite(cfa, dir, b);
    let d = refined_green(cfa, dir, c);
    let e = refined_at_green(cfa, d);
    &&& all_ok(raw, ok)
    &&& green_plane_ok(raw, cfa, false, ok)
    &&& green_plane_ok(raw, cfa, true, ok)
    &&& gradient_plane_ok(raw, cfa, gh, false, ok)
    &&& gradient_plane_ok(raw, cfa, gv, true, ok)
    &&& cost_plane_ok(gradient_plane(raw, cfa, gh, false), cfa, false, ok)
    &&& cost_plane_ok(gradient_plane(raw, cfa, gv, true), cfa, true, ok)
    &&& colors_at_green_ok(raw, cfa, a, ok)
    &&& colors_at_opposite_ok(cfa, dir, b, ok)
    &&& refined_green_ok(cfa, dir, c, ok)
    &&& refined_at_green_ok(cfa, d, ok)
    &&& refined_at_opposite_ok(cfa, dir, e, ok)
}

// Step by step.

/// A pixel beside one of the image is mapped with the image.
proof fn lemma_beside<P>(
    img: Image<P>,
    f: spec_fn(P) -> P,
    ok: spec_fn(P) -> bool,
    vertical: bool,
    y: int,
    x: int,
    d: int,
)
    requires
        img.contains(y, x),
        all_ok(img, ok),
    ensures
        beside(mapped(img, f), vertical, y, x, d) == f(beside(img, vertical, y, x, d)),
        ok(beside(img, vertical, y, x, d)),
{
    let (v, u) = if vertical {
        (y + d, x)
    } else {
        (y, x + d)
    };
    lemma_mirror_range(v, img.height as int);
    lemma_mirror_range(u, img.width as int);
    assert(img.contains(
        mirror(v, img.height as int),
        mirror(u, img.width as int),
    ));
}

/// A weighted sum is scaled with its terms.
proof fn lemma_sum<T: Sample>(
    w: Seq<T>,
    v: Seq<T>,
    scaled: Seq<T>,
    n: nat,
    scale: spec_fn(T) -> T,
    ok: spec_fn(T) -> bool,
)
    requires
        is_scale(scale, ok),
        sum_ok(w, v, n, ok),
        forall|i: int| 0 <= i < n ==> is_weight(#[trigger] w[i]),
        forall|i: int| 0 <= i < n ==> ok(#[trigger] v[i]) && scaled[i] == scale(v[i]),
    ensures
        weighted_sum(w, scaled, n) == scale(weighted_sum(w, v, n)),
        ok(weighted_sum(w, v, n)),
    decreases n,
{
    if n > 0 {
        let k = (n - 1) as nat;
        lemma_sum(w, v, scaled, k, scale, ok);
        let term = w[n - 1].mul_spec(v[n - 1]);
        assert(is_weight(w[n - 1]) && ok(v[n - 1]));
        assert(keeps_weighted(scale, w[n - 1], v[n - 1]));
        assert(keeps_sum(scale, weighted_sum(w, v, k), term));
    }
}

/// Interpolated green is scaled with what is measured.
proof fn lemma_green_plane<T: Sample>(
    raw: Image<T>,
    cfa: Mosaic,
    vertical: bool,
    before: Image<T>,
    scale: spec_fn(T) -> T,
    ok: spec_fn(T) -> bool,
)
    requires
        is_scale(scale, ok),
        all_ok(raw, ok),
        all_ok(before, ok),
        before.width == raw.width,
        before.height == raw.height,
        green_plane_ok(raw, cfa, vertical, ok),
    ensures
        all_ok(green_plane(raw, cfa, vertical, before), ok),
        green_plane(mapped(raw, scale), cfa, vertical, mapped(before, scale)) == mapped(
            green_plane(raw, cfa, vertical, before),
            scale,
        ),
{
    let plain = green_plane(raw, cfa, vertical, before);
    let s = green_plane(mapped(raw, scale), cfa, vertical, mapped(before, scale));
    let w = green_weights::<T>();
    assert forall|y: int, x: int| #[trigger] plain.contains(y, x) implies ok(plain.px(y, x))
        && s.px(y, x) == scale(plain.px(y, x)) by {
        assert(raw.contains(y, x) && before.contains(y, x));
        if !is_green(cfa, y, x) {
            let taps = green_taps(raw, vertical, y, x);
            let scaled = green_taps(mapped(raw, scale), vertical, y, x);
            assert forall|i: int| 0 <= i < 5 implies ok(#[trigger] taps[i]) && scaled[i] == scale(
                taps[i],
            ) by {
                lemma_beside(raw, scale, ok, vertical, y, x, i - 2);
            }
            lemma_sum(w, taps, scaled, 5, scale, ok);
        }
    }
    assert forall|y: int, x: int| #[trigger] s.contains(y, x) implies s.px(y, x) == mapped(
        plain,
        scale,
    ).px(y, x) by {
        assert(plain.contains(y, x));
    }
    lemma_image_equal(s, mapped(plain, scale));
}

/// Gradients are scaled with the image.
proof fn lemma_gradient_plane<T: Sample>(
    raw: Image<T>,
    cfa: Mosaic,
    green: Image<T>,
    vertical: bool,
    scale: spec_fn(T) -> T,
    ok: spec_fn(T) -> bool,
)
    requires
        is_scale(scale, ok),
        all_ok(raw, ok),
        all_ok(green, ok),
        green.width == raw.width,
        green.height == raw.height,
        gradient_plane_ok(raw, cfa, green, vertical, ok),
    ensures
        all_ok(gradient_plane(raw, cfa, green, vertical), ok),
        gradient_plane(mapped(raw, scale), cfa, mapped(green, scale), vertical) == mapped(
            gradient_plane(raw, cfa, green, vertical),
            scale,
        ),
{
    let plain = gradient_plane(raw, cfa, green, vertical);
    let s = gradient_plane(mapped(raw, scale), cfa, mapped(green, scale), vertical);
    assert forall|y: int, x: int| #[trigger] plain.contains(y, x) implies ok(plain.px(y, x))
        && s.px(y, x) == scale(plain.px(y, x)) by {
        assert(raw.contains(y, x) && green.contains(y, x));
        if !is_green(cfa, y, x) {
            lemma_beside(raw, scale, ok, vertical, y, x, 0);
            lemma_beside(raw, scale, ok, vertical, y, x, 2);
            lemma_beside(green, scale, ok, vertical, y, x, 0);
            lemma_beside(green, scale, ok, vertical, y, x, 2);
            let a = difference(raw, green, vertical, y, x, 0);
            let b = difference(raw, green, vertical, y, x, 2);
            assert(keeps_difference(
                scale,
                beside(raw, vertical, y, x, 0),
                beside(green, vertical, y, x, 0),
            ));
            assert(keeps_difference(
                scale,
                beside(raw, vertical, y, x, 2),
                beside(green, vertical, y, x, 2),
            ));
            assert(keeps_difference(scale, a, b));
            assert(keeps_order(scale, a.sub_spec(b), num::<T>(0)));
            if a.sub_spec(b).is_lt(&num::<T>(0)) {
                assert(keeps_negative(scale, a.sub_spec(b)));
            }
        }
    }
    assert forall|y: int, x: int| #[trigger] s.contains(y, x) implies s.px(y, x) == mapped(
        plain,
        scale,
    ).px(y, x) by {
        assert(plain.contains(y, x));
    }
    lemma_image_equal(s, mapped(plain, scale));
}

/// Costs are scaled with the gradients.
proof fn lemma_cost_plane<T: Sample>(
    gradients: Image<T>,
    cfa: Mosaic,
    vertical: bool,
    scale: spec_fn(T) -> T,
    ok: spec_fn(T) -> bool,
)
    requires
        is_scale(scale, ok),
        all_ok(gradients, ok),
        cost_plane_ok(gradients, cfa, vertical, ok),
    ensures
        all_ok(cost_plane(gradients, cfa, vertical), ok),
        cost_plane(mapped(gradients, scale), cfa, vertical) == mapped(
            cost_plane(gradients, cfa, vertical),
            scale,
        ),
{
    let plain = cost_plane(gradients, cfa, vertical);
    let s = cost_plane(mapped(gradients, scale), cfa, vertical);
    let w = cost_weights::<T>();
    assert forall|y: int, x: int| #[trigger] plain.contains(y, x) implies ok(plain.px(y, x))
        && s.px(y, x) == scale(plain.px(y, x)) by {
        assert(gradients.contains(y, x));
        if !is_green(cfa, y, x) {
            let taps = cost_taps(gradients, vertical, y, x);
            let scaled = cost_taps(mapped(gradients, scale), vertical, y, x);
            assert forall|i: int| 0 <= i < 8 implies ok(#[trigger] taps[i]) && scaled[i] == scale(
                taps[i],
            ) by {
                let p = along()[i];
                let q = across()[i];
                if vertical {
                    assert(gradients.contains(y + p, x + q) ==> ok(gradients.px(y + p, x + q)));
                } else {
                    assert(gradients.contains(y + q, x + p) ==> ok(gradients.px(y + q, x + p)));
                }
            }
            lemma_sum(w, taps, scaled, 8, scale, ok);
        }
    }
    assert forall|y: int, x: int| #[trigger] s.contains(y, x) implies s.px(y, x) == mapped(
        plain,
        scale,
    ).px(y, x) by {
        assert(plain.contains(y, x));
    }
    lemma_image_equal(s, mapped(plain, scale));
}

/// A scale does not change the direction that is chosen.
proof fn lemma_direction_plane<T: Sample>(
    raw: Image<T>,
    cfa: Mosaic,
    gh: Image<T>,
    gv: Image<T>,
    before: Image<u16>,
    scale: spec_fn(T) -> T,
    ok: spec_fn(T) -> bool,
)
    requires
        is_scale(scale, ok),
        all_ok(raw, ok),
        all_ok(gh, ok),
        all_ok(gv, ok),
        gh.width == raw.width,
        gh.height == raw.height,
        gv.width == raw.width,
        gv.height == raw.height,
        gradient_plane_ok(raw, cfa, gh, false, ok),
        gradient_plane_ok(raw, cfa, gv, true, ok),
        cost_plane_ok(gradient_plane(raw, cfa, gh, false), cfa, false, ok),
        cost_plane_ok(gradient_plane(raw, cfa, gv, true), cfa, true, ok),
    ensures
        direction_plane(mapped(raw, scale), cfa, mapped(gh, scale), mapped(gv, scale), before)
            == direction_plane(raw, cfa, gh, gv, before),
{
    let plain = direction_plane(raw, cfa, gh, gv, before);
    let s = direction_plane(
        mapped(raw, scale),
        cfa,
        mapped(gh, scale),
        mapped(gv, scale),
        before,
    );
    lemma_gradient_plane(raw, cfa, gh, false, scale, ok);
    lemma_gradient_plane(raw, cfa, gv, true, scale, ok);
    lemma_cost_plane(gradient_plane(raw, cfa, gh, false), cfa, false, scale, ok);
    lemma_cost_plane(gradient_plane(raw, cfa, gv, true), cfa, true, scale, ok);
    let dh = cost_plane(gradient_plane(raw, cfa, gh, false), cfa, false);
    let dv = cost_plane(gradient_plane(raw, cfa, gv, true), cfa, true);
    assert forall|y: int, x: int| #[trigger] s.contains(y, x) implies s.px(y, x) == plain.px(
        y,
        x,
    ) by {
        assert(dh.contains(y, x) && dv.contains(y, x));
        assert(keeps_order(scale, dv.px(y, x), dh.px(y, x)));
    }
    lemma_image_equal(s, plain);
}

/// A channel is scaled with the pixel.
proof fn lemma_channel<T>(
    p: [T; 3],
    c: usize,
    value: T,
    scale: spec_fn(T) -> T,
    ok: spec_fn(T) -> bool,
)
    requires
        ok_colors(ok)(p),
        ok(value),
    ensures
        ok_colors(ok)(with_channel(p, c, value)),
        on_colors(scale)(with_channel(p, c, value)) == with_channel(
            on_colors(scale)(p),
            c,
            scale(value),
        ),
        forall|i: int| 0 <= i < 3 ==> #[trigger] on_colors(scale)(p)[i] == scale(p[i]) && ok(p[i]),
{
    assert(on_colors(scale)(with_channel(p, c, value)) =~= with_channel(
        on_colors(scale)(p),
        c,
        scale(value),
    ));
}

/// Filled green is scaled with what is measured and interpolated.
proof fn lemma_filled_green<T: Sample>(
    raw: Image<T>,
    cfa: Mosaic,
    gh: Image<T>,
    gv: Image<T>,
    dir: Image<u16>,
    before: Image<[T; 3]>,
    scale: spec_fn(T) -> T,
    ok: spec_fn(T) -> bool,
)
    requires
        is_scale(scale, ok),
        all_ok(raw, ok),
        all_ok(gh, ok),
        all_ok(gv, ok),
        all_ok(before, ok_colors(ok)),
        gh.width == raw.width,
        gh.height == raw.height,
        gv.width == raw.width,
        gv.height == raw.height,
        before.width == raw.width,
        before.height == raw.height,
    ensures
        all_ok(filled_green(raw, cfa, gh, gv, dir, before), ok_colors(ok)),
        filled_green(
            mapped(raw, scale),
            cfa,
            mapped(gh, scale),
            mapped(gv, scale),
            dir,
            mapped(before, on_colors(scale)),
        ) == mapped(
            filled_green(raw, cfa, gh, gv, dir, before),
            on_colors(scale),
        ),
{
    let plain = filled_green(raw, cfa, gh, gv, dir, before);
    let s = filled_green(
        mapped(raw, scale),
        cfa,
        mapped(gh, scale),
        mapped(gv, scale),
        dir,
        mapped(before, on_colors(scale)),
    );
    assert forall|y: int, x: int| #[trigger] plain.contains(y, x) implies ok_colors(ok)(
        plain.px(y, x),
    ) && s.px(y, x) == on_colors(scale)(plain.px(y, x)) by {
        assert(raw.contains(y, x) && gh.contains(y, x) && gv.contains(y, x));
        assert(before.contains(y, x));
        let value = if is_green(cfa, y, x) {
            raw.px(y, x)
        } else if dir.px(y, x) == 1 {
            gh.px(y, x)
        } else {
            gv.px(y, x)
        };
        lemma_channel(before.px(y, x), CFA_COLOR_G, value, scale, ok);
    }
    assert forall|y: int, x: int| #[trigger] s.contains(y, x) implies s.px(y, x) == mapped(
        plain,
        on_colors(scale),
    ).px(y, x) by {
        assert(plain.contains(y, x));
    }
    lemma_image_equal(s, mapped(plain, on_colors(scale)));
}

/// The colour beside a green pixel is scaled with the image.
proof fn lemma_neighbour<T: Sample>(
    raw: Image<T>,
    rgb: Image<[T; 3]>,
    vertical: bool,
    y: int,
    x: int,
    scale: spec_fn(T) -> T,
    ok: spec_fn(T) -> bool,
)
    requires
        is_scale(scale, ok),
        all_ok(raw, ok),
        all_ok(rgb, ok_colors(ok)),
        raw.contains(y, x),
        rgb.contains(y, x),
        neighbour_ok(raw, rgb, vertical, y, x, ok),
    ensures
        ok(neighbour_color(raw, rgb, vertical, y, x)),
        neighbour_color(mapped(raw, scale), mapped(rgb, on_colors(scale)), vertical, y, x) == scale(
            neighbour_color(raw, rgb, vertical, y, x),
        ),
{
    let green = CFA_COLOR_G as int;
    let f = on_colors(scale);
    assert forall|d: int| d == -1 || d == 1 implies #[trigger] half_chroma(
        mapped(raw, scale),
        mapped(rgb, f),
        vertical,
        y,
        x,
        d,
    ) == scale(half_chroma(raw, rgb, vertical, y, x, d)) by {
        lemma_beside(raw, scale, ok, vertical, y, x, d);
        lemma_beside(rgb, f, ok_colors(ok), vertical, y, x, d);
        let a = beside(raw, vertical, y, x, d);
        let p = beside(rgb, vertical, y, x, d);
        assert(f(p)[green] == scale(p[green]));
        assert(keeps_difference(scale, a, p[green]));
        assert(keeps_part(scale, a.sub_spec(p[green]), 2));
    }
    let p = rgb.px(y, x);
    assert(ok_colors(ok)(p));
    assert(f(p)[green] == scale(p[green]));
    let back = half_chroma(raw, rgb, vertical, y, x, -1);
    let ahead = half_chroma(raw, rgb, vertical, y, x, 1);
    assert(half_chroma(mapped(raw, scale), mapped(rgb, f), vertical, y, x, -1) == scale(back));
    assert(half_chroma(mapped(raw, scale), mapped(rgb, f), vertical, y, x, 1) == scale(ahead));
    assert(keeps_sum(scale, p[green], back));
    assert(keeps_sum(scale, p[green].add_spec(back), ahead));
}

/// Red and blue at green pixels are scaled with the image.
proof fn lemma_colors_at_green<T: Sample>(
    raw: Image<T>,
    cfa: Mosaic,
    rgb: Image<[T; 3]>,
    scale: spec_fn(T) -> T,
    ok: spec_fn(T) -> bool,
)
    requires
        is_scale(scale, ok),
        all_ok(raw, ok),
        all_ok(rgb, ok_colors(ok)),
        rgb.width == raw.width,
        rgb.height == raw.height,
        colors_at_green_ok(raw, cfa, rgb, ok),
    ensures
        all_ok(colors_at_green(raw, cfa, rgb), ok_colors(ok)),
        colors_at_green(mapped(raw, scale), cfa, mapped(rgb, on_colors(scale))) == mapped(
            colors_at_green(raw, cfa, rgb),
            on_colors(scale),
        ),
{
    let plain = colors_at_green(raw, cfa, rgb);
    let s = colors_at_green(mapped(raw, scale), cfa, mapped(rgb, on_colors(scale)));
    assert forall|y: int, x: int| #[trigger] plain.contains(y, x) implies ok_colors(ok)(
        plain.px(y, x),
    ) && s.px(y, x) == on_colors(scale)(plain.px(y, x)) by {
        assert(raw.contains(y, x) && rgb.contains(y, x));
        let p = rgb.px(y, x);
        if is_green(cfa, y, x) {
            lemma_neighbour(raw, rgb, false, y, x, scale, ok);
            lemma_neighbour(raw, rgb, true, y, x, scale, ok);
            let h = neighbour_color(raw, rgb, false, y, x);
            let v = neighbour_color(raw, rgb, true, y, x);
            lemma_channel(p, cfa(y, x + 1), h, scale, ok);
            lemma_channel(with_channel(p, cfa(y, x + 1), h), cfa(y + 1, x), v, scale, ok);
        } else {
            lemma_channel(p, cfa(y, x), raw.px(y, x), scale, ok);
        }
    }
    assert forall|y: int, x: int| #[trigger] s.contains(y, x) implies s.px(y, x) == mapped(
        plain,
        on_colors(scale),
    ).px(y, x) by {
        assert(plain.contains(y, x));
    }
    lemma_image_equal(s, mapped(plain, on_colors(scale)));
}

/// An excess is scaled with the image, and so is its `n`-th part.
proof fn lemma_excess<T: Sample>(
    rgb: Image<[T; 3]>,
    vertical: bool,
    y: int,
    x: int,
    d: int,
    to: usize,
    from: usize,
    n: int,
    scale: spec_fn(T) -> T,
    ok: spec_fn(T) -> bool,
)
    requires
        is_scale(scale, ok),
        all_ok(rgb, ok_colors(ok)),
        rgb.contains(y, x),
        to < 3,
        from < 3,
        2 <= n <= 3,
        excess_ok(rgb, vertical, y, x, d, to, from, n, ok),
    ensures
        excess(mapped(rgb, on_colors(scale)), vertical, y, x, d, to, from).div_spec(num::<T>(n))
            == scale(excess(rgb, vertical, y, x, d, to, from).div_spec(num::<T>(n))),
{
    let f = on_colors(scale);
    lemma_beside(rgb, f, ok_colors(ok), vertical, y, x, d);
    let p = beside(rgb, vertical, y, x, d);
    assert(f(p)[to as int] == scale(p[to as int]) && f(p)[from as int] == scale(p[from as int]));
    assert(ok(p[to as int]) && ok(p[from as int]));
    assert(keeps_difference(scale, p[to as int], p[from as int]));
    assert(keeps_part(scale, excess(rgb, vertical, y, x, d, to, from), n));
}

/// A mean over two pixels is scaled with the image.
proof fn lemma_two<T: Sample>(
    rgb: Image<[T; 3]>,
    vertical: bool,
    y: int,
    x: int,
    to: usize,
    from: usize,
    scale: spec_fn(T) -> T,
    ok: spec_fn(T) -> bool,
)
    requires
        is_scale(scale, ok),
        all_ok(rgb, ok_colors(ok)),
        rgb.contains(y, x),
        to < 3,
        from < 3,
        two_ok(rgb, vertical, y, x, to, from, ok),
    ensures
        ok(raised_by_two(rgb, vertical, y, x, to, from)),
        raised_by_two(mapped(rgb, on_colors(scale)), vertical, y, x, to, from) == scale(
            raised_by_two(rgb, vertical, y, x, to, from),
        ),
{
    let two = num::<T>(2);
    lemma_excess(rgb, vertical, y, x, -1, to, from, 2, scale, ok);
    lemma_excess(rgb, vertical, y, x, 1, to, from, 2, scale, ok);
    let p = rgb.px(y, x);
    assert(ok_colors(ok)(p));
    assert(on_colors(scale)(p)[from as int] == scale(p[from as int]) && ok(p[from as int]));
    let back = excess(rgb, vertical, y, x, -1, to, from).div_spec(two);
    let ahead = excess(rgb, vertical, y, x, 1, to, from).div_spec(two);
    assert(keeps_sum(scale, p[from as int], back));
    assert(keeps_sum(scale, p[from as int].add_spec(back), ahead));
}

/// A mean over three pixels is scaled with the image.
proof fn lemma_three<T: Sample>(
    rgb: Image<[T; 3]>,
    vertical: bool,
    y: int,
    x: int,
    to: usize,
    from: usize,
    scale: spec_fn(T) -> T,
    ok: spec_fn(T) -> bool,
)
    requires
        is_scale(scale, ok),
        all_ok(rgb, ok_colors(ok)),
        rgb.contains(y, x),
        to < 3,
        from < 3,
        three_ok(rgb, vertical, y, x, to, from, ok),
    ensures
        ok(raised_by_three(rgb, vertical, y, x, to, from)),
        raised_by_three(mapped(rgb, on_colors(scale)), vertical, y, x, to, from) == scale(
            raised_by_three(rgb, vertical, y, x, to, from),
        ),
{
    let three = num::<T>(3);
    lemma_excess(rgb, vertical, y, x, -1, to, from, 3, scale, ok);
    lemma_excess(rgb, vertical, y, x, 0, to, from, 3, scale, ok);
    lemma_excess(rgb, vertical, y, x, 1, to, from, 3, scale, ok);
    let p = rgb.px(y, x);
    assert(ok_colors(ok)(p));
    assert(on_colors(scale)(p)[from as int] == scale(p[from as int]) && ok(p[from as int]));
    let back = excess(rgb, vertical, y, x, -1, to, from).div_spec(three);
    let here = excess(rgb, vertical, y, x, 0, to, from).div_spec(three);
    let ahead = excess(rgb, vertical, y, x, 1, to, from).div_spec(three);
    assert(keeps_sum(scale, p[from as int], back));
    assert(keeps_sum(scale, p[from as int].add_spec(back), here));
    assert(keeps_sum(scale, p[from as int].add_spec(back).add_spec(here), ahead));
}

/// Blue at red pixels, and red at blue ones, are scaled with the image.
proof fn lemma_colors_at_opposite<T: Sample>(
    cfa: Mosaic,
    dir: Image<u16>,
    rgb: Image<[T; 3]>,
    scale: spec_fn(T) -> T,
    ok: spec_fn(T) -> bool,
)
    requires
        is_scale(scale, ok),
        bayer(cfa),
        all_ok(rgb, ok_colors(ok)),
        colors_at_opposite_ok(cfa, dir, rgb, ok),
    ensures
        all_ok(colors_at_opposite(cfa, dir, rgb), ok_colors(ok)),
        colors_at_opposite(cfa, dir, mapped(rgb, on_colors(scale))) == mapped(
            colors_at_opposite(cfa, dir, rgb),
            on_colors(scale),
        ),
{
    let plain = colors_at_opposite(cfa, dir, rgb);
    let s = colors_at_opposite(cfa, dir, mapped(rgb, on_colors(scale)));
    assert forall|y: int, x: int| #[trigger] plain.contains(y, x) implies ok_colors(ok)(
        plain.px(y, x),
    ) && s.px(y, x) == on_colors(scale)(plain.px(y, x)) by {
        assert(rgb.contains(y, x));
        if !is_green(cfa, y, x) {
            lemma_colors(cfa, y, x);
            let from = cfa(y, x);
            let to = opposite(from);
            let vertical = dir.px(y, x) != 1;
            lemma_two(rgb, vertical, y, x, to, from, scale, ok);
            let value = raised_by_two(rgb, vertical, y, x, to, from);
            lemma_channel(rgb.px(y, x), to, value, scale, ok);
        }
    }
    assert forall|y: int, x: int| #[trigger] s.contains(y, x) implies s.px(y, x) == mapped(
        plain,
        on_colors(scale),
    ).px(y, x) by {
        assert(plain.contains(y, x));
    }
    lemma_image_equal(s, mapped(plain, on_colors(scale)));
}

/// Refined green is scaled with the image.
proof fn lemma_refined_green<T: Sample>(
    cfa: Mosaic,
    dir: Image<u16>,
    rgb: Image<[T; 3]>,
    scale: spec_fn(T) -> T,
    ok: spec_fn(T) -> bool,
)
    requires
        is_scale(scale, ok),
        bayer(cfa),
        all_ok(rgb, ok_colors(ok)),
        refined_green_ok(cfa, dir, rgb, ok),
    ensures
        all_ok(refined_green(cfa, dir, rgb), ok_colors(ok)),
        refined_green(cfa, dir, mapped(rgb, on_colors(scale))) == mapped(
            refined_green(cfa, dir, rgb),
            on_colors(scale),
        ),
{
    let plain = refined_green(cfa, dir, rgb);
    let s = refined_green(cfa, dir, mapped(rgb, on_colors(scale)));
    assert forall|y: int, x: int| #[trigger] plain.contains(y, x) implies ok_colors(ok)(
        plain.px(y, x),
    ) && s.px(y, x) == on_colors(scale)(plain.px(y, x)) by {
        assert(rgb.contains(y, x));
        if !is_green(cfa, y, x) {
            lemma_colors(cfa, y, x);
            let from = cfa(y, x);
            let vertical = dir.px(y, x) != 1;
            lemma_three(rgb, vertical, y, x, CFA_COLOR_G, from, scale, ok);
            let value = raised_by_three(rgb, vertical, y, x, CFA_COLOR_G, from);
            lemma_channel(rgb.px(y, x), CFA_COLOR_G, value, scale, ok);
        }
    }
    assert forall|y: int, x: int| #[trigger] s.contains(y, x) implies s.px(y, x) == mapped(
        plain,
        on_colors(scale),
    ).px(y, x) by {
        assert(plain.contains(y, x));
    }
    lemma_image_equal(s, mapped(plain, on_colors(scale)));
}

/// Refined red and blue at green pixels are scaled with the image.
proof fn lemma_refined_at_green<T: Sample>(
    cfa: Mosaic,
    rgb: Image<[T; 3]>,
    scale: spec_fn(T) -> T,
    ok: spec_fn(T) -> bool,
)
    requires
        is_scale(scale, ok),
        bayer(cfa),
        all_ok(rgb, ok_colors(ok)),
        refined_at_green_ok(cfa, rgb, ok),
    ensures
        all_ok(refined_at_green(cfa, rgb), ok_colors(ok)),
        refined_at_green(cfa, mapped(rgb, on_colors(scale))) == mapped(
            refined_at_green(cfa, rgb),
            on_colors(scale),
        ),
{
    let plain = refined_at_green(cfa, rgb);
    let s = refined_at_green(cfa, mapped(rgb, on_colors(scale)));
    assert forall|y: int, x: int| #[trigger] plain.contains(y, x) implies ok_colors(ok)(
        plain.px(y, x),
    ) && s.px(y, x) == on_colors(scale)(plain.px(y, x)) by {
        assert(rgb.contains(y, x));
        if is_green(cfa, y, x) {
            lemma_colors(cfa, y, x);
            let p = rgb.px(y, x);
            let to_h = cfa(y, x + 1);
            let to_v = cfa(y + 1, x);
            lemma_two(rgb, false, y, x, to_h, CFA_COLOR_G, scale, ok);
            lemma_two(rgb, true, y, x, to_v, CFA_COLOR_G, scale, ok);
            let h = raised_by_two(rgb, false, y, x, to_h, CFA_COLOR_G);
            let v = raised_by_two(rgb, true, y, x, to_v, CFA_COLOR_G);
            lemma_channel(p, to_h, h, scale, ok);
            lemma_channel(with_channel(p, to_h, h), to_v, v, scale, ok);
        }
    }
    assert forall|y: int, x: int| #[trigger] s.contains(y, x) implies s.px(y, x) == mapped(
        plain,
        on_colors(scale),
    ).px(y, x) by {
        assert(plain.contains(y, x));
    }
    lemma_image_equal(s, mapped(plain, on_colors(scale)));
}

/// Refined blue at red pixels, and red at blue ones, are scaled with the image.
proof fn lemma_refined_at_opposite<T: Sample>(
    cfa: Mosaic,
    dir: Image<u16>,
    rgb: Image<[T; 3]>,
    scale: spec_fn(T) -> T,
    ok: spec_fn(T) -> bool,
)
    requires
        is_scale(scale, ok),
        bayer(cfa),
        all_ok(rgb, ok_colors(ok)),
        refined_at_opposite_ok(cfa, dir, rgb, ok),
    ensures
        all_ok(refined_at_opposite(cfa, dir, rgb), ok_colors(ok)),
        refined_at_opposite(cfa, dir, mapped(rgb, on_colors(scale))) == mapped(
            refined_at_opposite(cfa, dir, rgb),
            on_colors(scale),
        ),
{
    let plain = refined_at_opposite(cfa, dir, rgb);
    let s = refined_at_opposite(cfa, dir, mapped(rgb, on_colors(scale)));
    assert forall|y: int, x: int| #[trigger] plain.contains(y, x) implies ok_colors(ok)(
        plain.px(y, x),
    ) && s.px(y, x) == on_colors(scale)(plain.px(y, x)) by {
        assert(rgb.contains(y, x));
        if !is_green(cfa, y, x) {
            lemma_colors(cfa, y, x);
            let from = cfa(y, x);
            let to = opposite(from);
            let vertical = dir.px(y, x) != 1;
            lemma_three(rgb, vertical, y, x, to, from, scale, ok);
            let value = raised_by_three(rgb, vertical, y, x, to, from);
            lemma_channel(rgb.px(y, x), to, value, scale, ok);
        }
    }
    assert forall|y: int, x: int| #[trigger] s.contains(y, x) implies s.px(y, x) == mapped(
        plain,
        on_colors(scale),
    ).px(y, x) by {
        assert(plain.contains(y, x));
    }
    lemma_image_equal(s, mapped(plain, on_colors(scale)));
}

/// The colours of a scaled mosaic are the scaled colours of the mosaic.
pub proof fn law_scaled_mosaic<T: Sample>(
    raw: Image<T>,
    cfa: Mosaic,
    scale: spec_fn(T) -> T,
    ok: spec_fn(T) -> bool,
)
    requires
        bayer(cfa),
        is_scale(scale, ok),
        menon_ok(raw, cfa, ok),
    ensures
        menon(mapped(raw, scale), cfa) == mapped(menon(raw, cfa), on_colors(scale)),
{
    let zero = num::<T>(0);
    let f = on_colors(scale);
    let blank = Image::constant(raw.width, raw.height, zero);
    let black = Image::constant(raw.width, raw.height, [zero, zero, zero]);
    let unset = Image::constant(raw.width, raw.height, 0u16);
    assert(f([zero, zero, zero]) =~= [zero, zero, zero]);
    lemma_image_equal(mapped(blank, scale), blank);
    lemma_image_equal(mapped(black, f), black);
    let gh = green_plane(raw, cfa, false, blank);
    let gv = green_plane(raw, cfa, true, blank);
    lemma_green_plane(raw, cfa, false, blank, scale, ok);
    lemma_green_plane(raw, cfa, true, blank, scale, ok);
    let dir = direction_plane(raw, cfa, gh, gv, unset);
    lemma_direction_plane(raw, cfa, gh, gv, unset, scale, ok);
    let a = filled_green(raw, cfa, gh, gv, dir, black);
    lemma_filled_green(raw, cfa, gh, gv, dir, black, scale, ok);
    let b = colors_at_green(raw, cfa, a);
    lemma_colors_at_green(raw, cfa, a, scale, ok);
    let c = colors_at_opposite(cfa, dir, b);
    lemma_colors_at_opposite(cfa, dir, b, scale, ok);
    let d = refined_green(cfa, dir, c);
    lemma_refined_green(cfa, dir, c, scale, ok);
    let e = refined_at_green(cfa, d);
    lemma_refined_at_green(cfa, d, scale, ok);
    lemma_refined_at_opposite(cfa, dir, e, scale, ok);
}

/// Where one image is another one scaled, so are the colours of that region.
pub proof fn law_scaled_region<T: Sample>(
    p: Image<T>,
    q: Image<T>,
    cfa: Mosaic,
    area: Area,
    scale: spec_fn(T) -> T,
    ok: spec_fn(T) -> bool,
)
    requires
        bayer(cfa),
        p.covers(area),
        q.covers(area),
        forall|y: int, x: int| #[trigger] area.contains(y, x) ==> q.px(y, x) == scale(p.px(y, x)),
        is_scale(scale, ok),
        menon_ok(p.crop(area), shifted(cfa, area.x, area.y), ok),
    ensures
        menon(q.crop(area), shifted(cfa, area.x, area.y)) == mapped(
            menon(p.crop(area), shifted(cfa, area.x, area.y)),
            on_colors(scale),
        ),
{
    let raw = p.crop(area);
    assert forall|y: int, x: int| #[trigger] q.crop(area).contains(y, x) implies q.crop(area).px(
        y,
        x,
    ) == mapped(raw, scale).px(y, x) by {
        assert(area.contains(area.y + y, area.x + x));
    }
    lemma_image_equal(q.crop(area), mapped(raw, scale));
    law_bayer_from_anywhere(cfa, area.x, area.y);
    law_scaled_mosaic(raw, shifted(cfa, area.x, area.y), scale, ok);
}

} // verus!
