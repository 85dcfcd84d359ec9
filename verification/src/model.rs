//! What each step of the algorithm computes, image by image.
//!
//! Menon D, Andriani S, Calvagno G. Demosaicing with directional filtering and a posteriori
//! decision. IEEE Trans Image Process. 2007 Jan;16(1):132-41.

use crate::cfa::{Mosaic, CFA_COLOR_B, CFA_COLOR_G, CFA_COLOR_R};
use crate::image::Image;
use crate::sample::{magnitude, num, ratio, weighted_sum, Sample};
use vstd::prelude::*;
use vstd::std_specs::cmp::PartialOrdIs;
use vstd::std_specs::ops::{AddSpec, DivSpec, SubSpec};

verus! {

/// The filter over the pixel in row `y` and column `x` is green.
pub open spec fn is_green(cfa: Mosaic, y: int, x: int) -> bool {
    cfa(y, x) == CFA_COLOR_G
}

/// Of red and blue, the one that `color` is not.
pub open spec fn opposite(color: usize) -> usize {
    if color == CFA_COLOR_R {
        CFA_COLOR_B
    } else {
        CFA_COLOR_R
    }
}

/// The pixel with another value in channel `c`.
pub open spec fn with_channel<T>(p: [T; 3], c: usize, value: T) -> [T; 3] {
    [
        if c == 0 {
            value
        } else {
            p[0]
        },
        if c == 1 {
            value
        } else {
            p[1]
        },
        if c == 2 {
            value
        } else {
            p[2]
        },
    ]
}

/// The pixel `d` steps along the column (`vertical`) or along the row.
pub open spec fn beside<P>(img: Image<P>, vertical: bool, y: int, x: int, d: int) -> P {
    if vertical {
        img.mirrored(y + d, x)
    } else {
        img.mirrored(y, x + d)
    }
}

// Green along one direction.

/// The weights of the five pixels that green is interpolated from.
pub open spec fn green_weights<T: Sample>() -> Seq<T> {
    seq![ratio::<T>(-1, 4), ratio(1, 2), ratio(1, 2), ratio(1, 2), ratio(-1, 4)]
}

/// The five pixels around `(y, x)` in the given direction.
pub open spec fn green_taps<T: Sample>(raw: Image<T>, vertical: bool, y: int, x: int) -> Seq<T> {
    Seq::new(5, |i: int| beside(raw, vertical, y, x, i - 2))
}

/// Green at `(y, x)`, interpolated in the given direction.
pub open spec fn directional_green<T: Sample>(
    raw: Image<T>,
    vertical: bool,
    y: int,
    x: int,
) -> T {
    weighted_sum(green_weights::<T>(), green_taps(raw, vertical, y, x), 5)
}

/// `before`, with green interpolated in the given direction wherever the filter is not green.
pub open spec fn green_plane<T: Sample>(
    raw: Image<T>,
    cfa: Mosaic,
    vertical: bool,
    before: Image<T>,
) -> Image<T> {
    Image::tabulate(
        raw.width,
        raw.height,
        |y: int, x: int|
            if is_green(cfa, y, x) {
                before.px(y, x)
            } else {
                directional_green(raw, vertical, y, x)
            },
    )
}

// The direction of interpolation.

/// What is measured less the interpolated green, `d` steps away.
pub open spec fn difference<T: Sample>(
    raw: Image<T>,
    green: Image<T>,
    vertical: bool,
    y: int,
    x: int,
    d: int,
) -> T {
    beside(raw, vertical, y, x, d).sub_spec(beside(green, vertical, y, x, d))
}

/// How much the difference of colours changes over two steps.
pub open spec fn gradient<T: Sample>(
    raw: Image<T>,
    green: Image<T>,
    vertical: bool,
    y: int,
    x: int,
) -> T {
    magnitude(
        difference(raw, green, vertical, y, x, 0).sub_spec(
            difference(raw, green, vertical, y, x, 2),
        ),
    )
}

/// The gradient wherever the filter is not green, and zero elsewhere.
pub open spec fn gradient_plane<T: Sample>(
    raw: Image<T>,
    cfa: Mosaic,
    green: Image<T>,
    vertical: bool,
) -> Image<T> {
    Image::tabulate(
        raw.width,
        raw.height,
        |y: int, x: int|
            if is_green(cfa, y, x) {
                num::<T>(0)
            } else {
                gradient(raw, green, vertical, y, x)
            },
    )
}

/// The offsets, in the direction of interpolation, of the eight gradients that are compared.
pub open spec fn along() -> Seq<int> {
    seq![0int, -2, -1, 0, -2, -1, 0, -2]
}

/// The offsets of the same gradients at right angles to it.
pub open spec fn across() -> Seq<int> {
    seq![2int, 2, 1, 0, 0, -1, -2, -2]
}

/// The weights of the eight gradients.
pub open spec fn cost_weights<T: Sample>() -> Seq<T> {
    seq![num::<T>(1), num(1), num(1), num(3), num(3), num(1), num(1), num(1)]
}

/// The eight gradients around `(y, x)`.
pub open spec fn cost_taps<T: Sample>(
    gradients: Image<T>,
    vertical: bool,
    y: int,
    x: int,
) -> Seq<T> {
    Seq::new(
        8,
        |i: int|
            if vertical {
                gradients.padded(y + along()[i], x + across()[i], num::<T>(0))
            } else {
                gradients.padded(y + across()[i], x + along()[i], num::<T>(0))
            },
    )
}

/// How uneven the surroundings of `(y, x)` are in the given direction.
pub open spec fn cost<T: Sample>(gradients: Image<T>, vertical: bool, y: int, x: int) -> T {
    weighted_sum(cost_weights::<T>(), cost_taps(gradients, vertical, y, x), 8)
}

/// The cost wherever the filter is not green, and zero elsewhere.
pub open spec fn cost_plane<T: Sample>(
    gradients: Image<T>,
    cfa: Mosaic,
    vertical: bool,
) -> Image<T> {
    Image::tabulate(
        gradients.width,
        gradients.height,
        |y: int, x: int|
            if is_green(cfa, y, x) {
                num::<T>(0)
            } else {
                cost(gradients, vertical, y, x)
            },
    )
}

/// `before`, with 1 (interpolate along the row) or 0 (along the column) wherever the filter is not
/// green: 1 where the column is at least as uneven as the row.
pub open spec fn direction_plane<T: Sample>(
    raw: Image<T>,
    cfa: Mosaic,
    gh: Image<T>,
    gv: Image<T>,
    before: Image<u16>,
) -> Image<u16> {
    let dh = cost_plane(gradient_plane(raw, cfa, gh, false), cfa, false);
    let dv = cost_plane(gradient_plane(raw, cfa, gv, true), cfa, true);
    Image::tabulate(
        raw.width,
        raw.height,
        |y: int, x: int|
            if is_green(cfa, y, x) {
                before.px(y, x)
            } else if dv.px(y, x).is_ge(&dh.px(y, x)) {
                1
            } else {
                0
            },
    )
}

// Colours from the direction.

/// `before`, with the green channel filled: measured, or interpolated in the direction chosen.
pub open spec fn filled_green<T: Sample>(
    raw: Image<T>,
    cfa: Mosaic,
    gh: Image<T>,
    gv: Image<T>,
    dir: Image<u16>,
    before: Image<[T; 3]>,
) -> Image<[T; 3]> {
    Image::tabulate(
        raw.width,
        raw.height,
        |y: int, x: int|
            with_channel(
                before.px(y, x),
                CFA_COLOR_G,
                if is_green(cfa, y, x) {
                    raw.px(y, x)
                } else if dir.px(y, x) == 1 {
                    gh.px(y, x)
                } else {
                    gv.px(y, x)
                },
            ),
    )
}

/// Half of what is measured `d` steps away less the green there.
pub open spec fn half_chroma<T: Sample>(
    raw: Image<T>,
    rgb: Image<[T; 3]>,
    vertical: bool,
    y: int,
    x: int,
    d: int,
) -> T {
    beside(raw, vertical, y, x, d).sub_spec(
        beside(rgb, vertical, y, x, d)[CFA_COLOR_G as int],
    ).div_spec(num::<T>(2))
}

/// The colour that is measured beside the green pixel `(y, x)` in the given direction.
pub open spec fn neighbour_color<T: Sample>(
    raw: Image<T>,
    rgb: Image<[T; 3]>,
    vertical: bool,
    y: int,
    x: int,
) -> T {
    rgb.px(y, x)[CFA_COLOR_G as int].add_spec(
        half_chroma(raw, rgb, vertical, y, x, -1),
    ).add_spec(half_chroma(raw, rgb, vertical, y, x, 1))
}

/// `rgb`, with red and blue where green is measured, and with the measured colour elsewhere.
pub open spec fn colors_at_green<T: Sample>(
    raw: Image<T>,
    cfa: Mosaic,
    rgb: Image<[T; 3]>,
) -> Image<[T; 3]> {
    Image::tabulate(
        raw.width,
        raw.height,
        |y: int, x: int|
            if is_green(cfa, y, x) {
                with_channel(
                    with_channel(
                        rgb.px(y, x),
                        cfa(y, x + 1),
                        neighbour_color(raw, rgb, false, y, x),
                    ),
                    cfa(y + 1, x),
                    neighbour_color(raw, rgb, true, y, x),
                )
            } else {
                with_channel(rgb.px(y, x), cfa(y, x), raw.px(y, x))
            },
    )
}

/// How far channel `to` lies above channel `from`, `d` steps away.
pub open spec fn excess<T: Sample>(
    rgb: Image<[T; 3]>,
    vertical: bool,
    y: int,
    x: int,
    d: int,
    to: usize,
    from: usize,
) -> T {
    let p = beside(rgb, vertical, y, x, d);
    p[to as int].sub_spec(p[from as int])
}

/// Channel `from` at `(y, x)`, raised by the mean excess of `to` over the two pixels beside it.
pub open spec fn raised_by_two<T: Sample>(
    rgb: Image<[T; 3]>,
    vertical: bool,
    y: int,
    x: int,
    to: usize,
    from: usize,
) -> T {
    rgb.px(y, x)[from as int].add_spec(
        excess(rgb, vertical, y, x, -1, to, from).div_spec(num::<T>(2)),
    ).add_spec(excess(rgb, vertical, y, x, 1, to, from).div_spec(num::<T>(2)))
}

/// Channel `from` at `(y, x)`, raised by the mean excess of `to` over the pixel and the two
/// beside it.
pub open spec fn raised_by_three<T: Sample>(
    rgb: Image<[T; 3]>,
    vertical: bool,
    y: int,
    x: int,
    to: usize,
    from: usize,
) -> T {
    rgb.px(y, x)[from as int].add_spec(
        excess(rgb, vertical, y, x, -1, to, from).div_spec(num::<T>(3)),
    ).add_spec(excess(rgb, vertical, y, x, 0, to, from).div_spec(num::<T>(3))).add_spec(
        excess(rgb, vertical, y, x, 1, to, from).div_spec(num::<T>(3)),
    )
}

/// `rgb`, with blue where red is measured and red where blue is, in the direction chosen.
pub open spec fn colors_at_opposite<T: Sample>(
    cfa: Mosaic,
    dir: Image<u16>,
    rgb: Image<[T; 3]>,
) -> Image<[T; 3]> {
    Image::tabulate(
        rgb.width,
        rgb.height,
        |y: int, x: int|
            if is_green(cfa, y, x) {
                rgb.px(y, x)
            } else {
                let source = cfa(y, x);
                let target = opposite(source);
                with_channel(
                    rgb.px(y, x),
                    target,
                    raised_by_two(rgb, dir.px(y, x) != 1, y, x, target, source),
                )
            },
    )
}

/// Red and blue everywhere, from what is measured and from the green channel of `rgb`.
pub open spec fn filled_chroma<T: Sample>(
    raw: Image<T>,
    cfa: Mosaic,
    dir: Image<u16>,
    rgb: Image<[T; 3]>,
) -> Image<[T; 3]> {
    colors_at_opposite(cfa, dir, colors_at_green(raw, cfa, rgb))
}

// Refinement.

/// `rgb`, with green smoothed where it is not measured.
pub open spec fn refined_green<T: Sample>(
    cfa: Mosaic,
    dir: Image<u16>,
    rgb: Image<[T; 3]>,
) -> Image<[T; 3]> {
    Image::tabulate(
        rgb.width,
        rgb.height,
        |y: int, x: int|
            if is_green(cfa, y, x) {
                rgb.px(y, x)
            } else {
                with_channel(
                    rgb.px(y, x),
                    CFA_COLOR_G,
                    raised_by_three(rgb, dir.px(y, x) != 1, y, x, CFA_COLOR_G, cfa(y, x)),
                )
            },
    )
}

/// `rgb`, with red and blue smoothed where green is measured.
pub open spec fn refined_at_green<T: Sample>(cfa: Mosaic, rgb: Image<[T; 3]>) -> Image<[T; 3]> {
    Image::tabulate(
        rgb.width,
        rgb.height,
        |y: int, x: int|
            if is_green(cfa, y, x) {
                with_channel(
                    with_channel(
                        rgb.px(y, x),
                        cfa(y, x + 1),
                        raised_by_two(rgb, false, y, x, cfa(y, x + 1), CFA_COLOR_G),
                    ),
                    cfa(y + 1, x),
                    raised_by_two(rgb, true, y, x, cfa(y + 1, x), CFA_COLOR_G),
                )
            } else {
                rgb.px(y, x)
            },
    )
}

/// `rgb`, with blue smoothed where red is measured and red where blue is.
pub open spec fn refined_at_opposite<T: Sample>(
    cfa: Mosaic,
    dir: Image<u16>,
    rgb: Image<[T; 3]>,
) -> Image<[T; 3]> {
    Image::tabulate(
        rgb.width,
        rgb.height,
        |y: int, x: int|
            if is_green(cfa, y, x) {
                rgb.px(y, x)
            } else {
                let source = cfa(y, x);
                let target = opposite(source);
                with_channel(
                    rgb.px(y, x),
                    target,
                    raised_by_three(rgb, dir.px(y, x) != 1, y, x, target, source),
                )
            },
    )
}

/// All three refinements, one after the other.
pub open spec fn refined<T: Sample>(
    cfa: Mosaic,
    dir: Image<u16>,
    rgb: Image<[T; 3]>,
) -> Image<[T; 3]> {
    refined_at_opposite(cfa, dir, refined_at_green(cfa, refined_green(cfa, dir, rgb)))
}

/// The whole algorithm: the colours of an image of which each pixel was measured through the
/// filter that `cfa` has over it.
pub open spec fn menon<T: Sample>(raw: Image<T>, cfa: Mosaic) -> Image<[T; 3]> {
    let zero = num::<T>(0);
    let blank = Image::constant(raw.width, raw.height, zero);
    let black = Image::constant(raw.width, raw.height, [zero, zero, zero]);
    let gh = green_plane(raw, cfa, false, blank);
    let gv = green_plane(raw, cfa, true, blank);
    let dir = direction_plane(
        raw,
        cfa,
        gh,
        gv,
        Image::constant(raw.width, raw.height, 0u16),
    );
    let green = filled_green(raw, cfa, gh, gv, dir, black);
    refined(cfa, dir, filled_chroma(raw, cfa, dir, green))
}

/// The result is an image of the size of the mosaic.
pub proof fn lemma_menon_size<T: Sample>(raw: Image<T>, cfa: Mosaic)
    ensures
        menon(raw, cfa).width == raw.width,
        menon(raw, cfa).height == raw.height,
        menon(raw, cfa).rectangular(),
{
}

} // verus!
