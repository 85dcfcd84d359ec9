//! What becomes of scenes whose colours are known, in exact arithmetic.

use crate::bayer::{
    law_reflection_keeps_color, lemma_checkerboard, lemma_colors, lemma_mirror_neighbour,
    lemma_mirror_parity, lemma_period,
};
use crate::cfa::{bayer, Mosaic, CFA_COLOR_G, CFA_COLOR_R};
use crate::exact::{
    between_greens, channel, exact, green_chosen, jump, law_color_over_green,
    law_even_color_leaves_green, law_green_between_greens, law_green_is_chosen, law_missing_color,
    law_refined_at_green, law_refined_green, law_refined_missing_color, law_smoother_direction,
    mean_difference, missing, neighbours_over_green, neighbours_refined, reading, smoother_chosen,
    unevenness,
};
use crate::image::{lemma_mirror_range, mirror, Image};
use crate::model::{
    colors_at_green, colors_at_opposite, direction_plane, filled_green, green_plane, menon,
    refined, refined_at_green, refined_at_opposite, refined_green,
};
use crate::sample::{num, Sample};
use vstd::prelude::*;

verus! {

// The whole algorithm.

/// `result` comes from `raw` by way of the other images: green in both directions, the direction
/// chosen, the colours filled in with it, and three refinements.
pub open spec fn explained_by<T>(
    v: spec_fn(T) -> real,
    raw: Image<T>,
    cfa: Mosaic,
    gh: Image<T>,
    gv: Image<T>,
    dir: Image<u16>,
    black: Image<[T; 3]>,
    green: Image<[T; 3]>,
    beside: Image<[T; 3]>,
    full: Image<[T; 3]>,
    first: Image<[T; 3]>,
    second: Image<[T; 3]>,
    result: Image<[T; 3]>,
) -> bool {
    &&& gh.width == gv.width == dir.width == black.width == green.width == raw.width
    &&& gh.height == gv.height == dir.height == black.height == green.height == raw.height
    &&& beside.width == full.width == first.width == second.width == result.width == raw.width
    &&& beside.height == full.height == first.height == second.height == result.height
        == raw.height
    &&& forall|y: int, x: int| #[trigger]
        raw.contains(y, x) ==> {
            &&& between_greens(v, raw, cfa, false, gh, y, x)
            &&& between_greens(v, raw, cfa, true, gv, y, x)
            &&& smoother_chosen(v, raw, cfa, gh, gv, dir, y, x)
            &&& green_chosen(raw, cfa, gh, gv, dir, black, green, y, x)
            &&& neighbours_over_green(v, raw, cfa, green, beside, y, x)
            &&& mean_difference(v, cfa, dir, false, missing(cfa, y, x), beside, full, y, x)
            &&& mean_difference(v, cfa, dir, true, CFA_COLOR_G, full, first, y, x)
            &&& neighbours_refined(v, cfa, first, second, y, x)
            &&& mean_difference(v, cfa, dir, true, missing(cfa, y, x), second, result, y, x)
        }
}

/// Every result comes from the mosaic step by step: green between the greens beside it, in the
/// smoother direction, then red and blue over green, then the missing one of red and blue, then
/// green, red and blue, and the missing one again, refined.
pub proof fn law_result_is_explained<T: Sample>(raw: Image<T>, cfa: Mosaic, v: spec_fn(T) -> real)
    requires
        exact(v),
        bayer(cfa),
    ensures
        exists|
            gh: Image<T>,
            gv: Image<T>,
            dir: Image<u16>,
            black: Image<[T; 3]>,
            green: Image<[T; 3]>,
            beside: Image<[T; 3]>,
            full: Image<[T; 3]>,
            first: Image<[T; 3]>,
            second: Image<[T; 3]>,
        | #[trigger]
            explained_by(
                v,
                raw,
                cfa,
                gh,
                gv,
                dir,
                black,
                green,
                beside,
                full,
                first,
                second,
                menon(raw, cfa),
            ),
{
    let zero = num::<T>(0);
    let blank = Image::constant(raw.width, raw.height, zero);
    let black = Image::constant(raw.width, raw.height, [zero, zero, zero]);
    let unset = Image::constant(raw.width, raw.height, 0u16);
    let gh = green_plane(raw, cfa, false, blank);
    let gv = green_plane(raw, cfa, true, blank);
    let dir = direction_plane(raw, cfa, gh, gv, unset);
    let a = filled_green(raw, cfa, gh, gv, dir, black);
    let b = colors_at_green(raw, cfa, a);
    let c = colors_at_opposite(cfa, dir, b);
    let d = refined_green(cfa, dir, c);
    let e = refined_at_green(cfa, d);
    let z = refined_at_opposite(cfa, dir, e);
    assert forall|y: int, x: int| #[trigger] raw.contains(y, x) implies {
        &&& between_greens(v, raw, cfa, false, gh, y, x)
        &&& between_greens(v, raw, cfa, true, gv, y, x)
        &&& smoother_chosen(v, raw, cfa, gh, gv, dir, y, x)
        &&& green_chosen(raw, cfa, gh, gv, dir, black, a, y, x)
        &&& neighbours_over_green(v, raw, cfa, a, b, y, x)
        &&& mean_difference(v, cfa, dir, false, missing(cfa, y, x), b, c, y, x)
        &&& mean_difference(v, cfa, dir, true, CFA_COLOR_G, c, d, y, x)
        &&& neighbours_refined(v, cfa, d, e, y, x)
        &&& mean_difference(v, cfa, dir, true, missing(cfa, y, x), e, z, y, x)
    } by {
        law_green_between_greens(raw, cfa, false, blank, y, x, v);
        law_green_between_greens(raw, cfa, true, blank, y, x, v);
        law_smoother_direction(raw, cfa, gh, gv, unset, y, x, v);
        law_green_is_chosen(raw, cfa, gh, gv, dir, black, y, x);
        law_color_over_green(raw, cfa, a, y, x, v);
        law_missing_color(cfa, dir, b, y, x, v);
        law_refined_green(cfa, dir, c, y, x, v);
        law_refined_at_green(cfa, d, y, x, v);
        law_refined_missing_color(cfa, dir, e, y, x, v);
    }
    assert(z == menon(raw, cfa));
    assert(explained_by(v, raw, cfa, gh, gv, dir, black, a, b, c, d, e, menon(raw, cfa)));
}

// Images that show known numbers.

/// A pixel beside one of the image is a pixel of the image.
proof fn lemma_pixel_beside<P>(img: Image<P>, y: int, x: int)
    requires
        0 < img.width,
        0 < img.height,
    ensures
        img.contains(mirror(y, img.height as int), mirror(x, img.width as int)),
        img.contains(y, x) ==> img.mirrored(y, x) == img.px(y, x),
{
    lemma_mirror_range(y, img.height as int);
    lemma_mirror_range(x, img.width as int);
}

/// The one of the colours red, green and blue that channel `c` is.
pub open spec fn scene_color(r: real, g: real, b: real, c: usize) -> real {
    if c == CFA_COLOR_R {
        r
    } else if c == CFA_COLOR_G {
        g
    } else {
        b
    }
}

/// Every pixel of the image shows the colours `r`, `g` and `b`.
pub open spec fn even<T>(
    v: spec_fn(T) -> real,
    img: Image<[T; 3]>,
    r: real,
    g: real,
    b: real,
) -> bool {
    forall|y: int, x: int| #[trigger]
        img.contains(y, x) ==> {
            &&& v(img.px(y, x)[0]) == r
            &&& v(img.px(y, x)[1]) == g
            &&& v(img.px(y, x)[2]) == b
        }
}

/// A pixel beside one of an even image shows the same colours.
proof fn lemma_even_beside<T>(
    v: spec_fn(T) -> real,
    img: Image<[T; 3]>,
    r: real,
    g: real,
    b: real,
    vertical: bool,
    y: int,
    x: int,
    d: int,
    c: usize,
)
    requires
        even(v, img, r, g, b),
        img.contains(y, x),
        c < 3,
    ensures
        channel(v, img, vertical, y, x, d, c) == scene_color(r, g, b, c),
{
    if vertical {
        lemma_pixel_beside(img, y + d, x);
    } else {
        lemma_pixel_beside(img, y, x + d);
    }
}

/// What has the mean difference of an even image is even.
proof fn lemma_even_mean<T>(
    v: spec_fn(T) -> real,
    cfa: Mosaic,
    dir: Image<u16>,
    to: spec_fn(int, int) -> usize,
    before: Image<[T; 3]>,
    after: Image<[T; 3]>,
    r: real,
    g: real,
    b: real,
)
    requires
        bayer(cfa),
        even(v, before, r, g, b),
        after.width == before.width,
        after.height == before.height,
        forall|y: int, x: int| #[trigger]
            before.contains(y, x) ==> to(y, x) < 3 && mean_difference(
                v,
                cfa,
                dir,
                true,
                to(y, x),
                before,
                after,
                y,
                x,
            ),
    ensures
        even(v, after, r, g, b),
{
    assert forall|y: int, x: int| #[trigger] after.contains(y, x) implies {
        &&& v(after.px(y, x)[0]) == r
        &&& v(after.px(y, x)[1]) == g
        &&& v(after.px(y, x)[2]) == b
    } by {
        assert(before.contains(y, x));
        lemma_colors(cfa, y, x);
        let vertical = dir.px(y, x) != 1;
        let from = cfa(y, x);
        lemma_even_beside(v, before, r, g, b, vertical, y, x, -1, to(y, x));
        lemma_even_beside(v, before, r, g, b, vertical, y, x, 0, to(y, x));
        lemma_even_beside(v, before, r, g, b, vertical, y, x, 1, to(y, x));
        lemma_even_beside(v, before, r, g, b, vertical, y, x, -1, from);
        lemma_even_beside(v, before, r, g, b, vertical, y, x, 0, from);
        lemma_even_beside(v, before, r, g, b, vertical, y, x, 1, from);
        let p = before.px(y, x);
        let q = after.px(y, x);
        assert(forall|c: int| 0 <= c < 3 && c != to(y, x) ==> #[trigger] q[c] == p[c]);
    }
}

/// What is refined at green pixels of an even image is even.
proof fn lemma_even_neighbours<T>(
    v: spec_fn(T) -> real,
    cfa: Mosaic,
    before: Image<[T; 3]>,
    after: Image<[T; 3]>,
    r: real,
    g: real,
    b: real,
)
    requires
        bayer(cfa),
        even(v, before, r, g, b),
        after.width == before.width,
        after.height == before.height,
        forall|y: int, x: int| #[trigger]
            before.contains(y, x) ==> neighbours_refined(v, cfa, before, after, y, x),
    ensures
        even(v, after, r, g, b),
{
    assert forall|y: int, x: int| #[trigger] after.contains(y, x) implies {
        &&& v(after.px(y, x)[0]) == r
        &&& v(after.px(y, x)[1]) == g
        &&& v(after.px(y, x)[2]) == b
    } by {
        assert(before.contains(y, x));
        lemma_colors(cfa, y, x);
        if cfa(y, x) == CFA_COLOR_G {
            let h = cfa(y, x + 1);
            let w = cfa(y + 1, x);
            lemma_even_beside(v, before, r, g, b, false, y, x, -1, h);
            lemma_even_beside(v, before, r, g, b, false, y, x, 1, h);
            lemma_even_beside(v, before, r, g, b, false, y, x, -1, CFA_COLOR_G);
            lemma_even_beside(v, before, r, g, b, false, y, x, 1, CFA_COLOR_G);
            lemma_even_beside(v, before, r, g, b, true, y, x, -1, w);
            lemma_even_beside(v, before, r, g, b, true, y, x, 1, w);
            lemma_even_beside(v, before, r, g, b, true, y, x, -1, CFA_COLOR_G);
            lemma_even_beside(v, before, r, g, b, true, y, x, 1, CFA_COLOR_G);
        }
    }
}

/// Refinement leaves an even image as it is, whatever the directions are.
pub proof fn law_refinement_keeps_even<T: Sample>(
    cfa: Mosaic,
    dir: Image<u16>,
    rgb: Image<[T; 3]>,
    r: real,
    g: real,
    b: real,
    v: spec_fn(T) -> real,
)
    requires
        exact(v),
        bayer(cfa),
        even(v, rgb, r, g, b),
    ensures
        even(v, refined(cfa, dir, rgb), r, g, b),
{
    let one = refined_green(cfa, dir, rgb);
    let two = refined_at_green(cfa, one);
    let three = refined_at_opposite(cfa, dir, two);
    let green = |y: int, x: int| CFA_COLOR_G;
    let other = |y: int, x: int| missing(cfa, y, x);
    assert forall|y: int, x: int| #[trigger] rgb.contains(y, x) implies green(y, x) < 3
        && mean_difference(v, cfa, dir, true, green(y, x), rgb, one, y, x) by {
        law_refined_green(cfa, dir, rgb, y, x, v);
    }
    lemma_even_mean(v, cfa, dir, green, rgb, one, r, g, b);
    assert forall|y: int, x: int| #[trigger] one.contains(y, x) implies neighbours_refined(
        v,
        cfa,
        one,
        two,
        y,
        x,
    ) by {
        law_refined_at_green(cfa, one, y, x, v);
    }
    lemma_even_neighbours(v, cfa, one, two, r, g, b);
    assert forall|y: int, x: int| #[trigger] two.contains(y, x) implies other(y, x) < 3
        && mean_difference(v, cfa, dir, true, other(y, x), two, three, y, x) by {
        law_refined_missing_color(cfa, dir, two, y, x, v);
    }
    lemma_even_mean(v, cfa, dir, other, two, three, r, g, b);
}

// An evenly coloured scene.

/// The mosaic is that of a scene whose every point has the colours `r`, `g` and `b`.
pub open spec fn mosaic_of<T>(
    v: spec_fn(T) -> real,
    raw: Image<T>,
    cfa: Mosaic,
    r: real,
    g: real,
    b: real,
) -> bool {
    forall|y: int, x: int| #[trigger]
        raw.contains(y, x) ==> v(raw.px(y, x)) == scene_color(r, g, b, cfa(y, x))
}

/// The filters around a pixel.
proof fn lemma_around(cfa: Mosaic, y: int, x: int)
    requires
        bayer(cfa),
    ensures
        cfa(y, x - 1) == cfa(y, x + 1),
        cfa(y - 1, x) == cfa(y + 1, x),
        cfa(y, x - 2) == cfa(y, x) == cfa(y, x + 2),
        cfa(y - 2, x) == cfa(y, x) == cfa(y + 2, x),
        cfa(y, x) != CFA_COLOR_G ==> cfa(y, x + 1) == CFA_COLOR_G && cfa(y + 1, x) == CFA_COLOR_G,
{
    lemma_period(cfa, y, x - 1);
    lemma_period(cfa, y - 1, x);
    lemma_period(cfa, y, x - 2);
    lemma_period(cfa, y - 2, x);
    lemma_period(cfa, y, x);
    lemma_checkerboard(cfa, y, x, y, x + 1);
    lemma_checkerboard(cfa, y, x, y + 1, x);
}

/// The mosaic of an even scene, reflected at its edges, is still that of the scene.
proof fn lemma_scene_beside<T>(
    v: spec_fn(T) -> real,
    raw: Image<T>,
    cfa: Mosaic,
    r: real,
    g: real,
    b: real,
    y: int,
    x: int,
)
    requires
        bayer(cfa),
        mosaic_of(v, raw, cfa, r, g, b),
        1 < raw.width,
        1 < raw.height,
    ensures
        v(raw.mirrored(y, x)) == scene_color(r, g, b, cfa(y, x)),
{
    lemma_pixel_beside(raw, y, x);
    law_reflection_keeps_color(cfa, y, x, raw.height as int, raw.width as int);
}

/// The pixels beside a red or blue one in an image with more than one pixel in that direction are
/// green ones.
proof fn lemma_green_beside<P>(img: Image<P>, cfa: Mosaic, vertical: bool, y: int, x: int, d: int)
    requires
        bayer(cfa),
        img.contains(y, x),
        cfa(y, x) != CFA_COLOR_G,
        d == -1 || d == 1,
        vertical ==> 1 < img.height,
        !vertical ==> 1 < img.width,
    ensures
        ({
            let u = mirror(if vertical { y + d } else { y }, img.height as int);
            let w = mirror(if vertical { x } else { x + d }, img.width as int);
            img.contains(u, w) && cfa(u, w) == CFA_COLOR_G
        }),
{
    lemma_mirror_range(y, img.height as int);
    lemma_mirror_range(x, img.width as int);
    if vertical {
        lemma_mirror_neighbour(y, d, img.height as int);
        lemma_checkerboard(cfa, y, x, mirror(y + d, img.height as int), x);
    } else {
        lemma_mirror_neighbour(x, d, img.width as int);
        lemma_checkerboard(cfa, y, x, y, mirror(x + d, img.width as int));
    }
}

/// Green is even in the mosaic of an even scene, interpolated in either direction.
proof fn lemma_scene_green<T: Sample>(
    raw: Image<T>,
    cfa: Mosaic,
    vertical: bool,
    before: Image<T>,
    r: real,
    g: real,
    b: real,
    y: int,
    x: int,
    v: spec_fn(T) -> real,
)
    requires
        exact(v),
        bayer(cfa),
        mosaic_of(v, raw, cfa, r, g, b),
        1 < raw.width,
        1 < raw.height,
        raw.contains(y, x),
        cfa(y, x) != CFA_COLOR_G,
    ensures
        v(green_plane(raw, cfa, vertical, before).px(y, x)) == g,
{
    lemma_around(cfa, y, x);
    let at = |d: int|
        if vertical {
            cfa(y + d, x)
        } else {
            cfa(y, x + d)
        };
    assert forall|d: int| #[trigger] reading(v, raw, vertical, y, x, d) == scene_color(
        r,
        g,
        b,
        at(d),
    ) by {
        if vertical {
            lemma_scene_beside(v, raw, cfa, r, g, b, y + d, x);
        } else {
            lemma_scene_beside(v, raw, cfa, r, g, b, y, x + d);
        }
    }
    let color = scene_color(r, g, b, cfa(y, x));
    law_even_color_leaves_green(raw, cfa, vertical, before, y, x, g, color, v);
}

/// Red and blue come out even where green is.
proof fn lemma_scene_chroma<T: Sample>(
    raw: Image<T>,
    cfa: Mosaic,
    dir: Image<u16>,
    rgb: Image<[T; 3]>,
    r: real,
    g: real,
    b: real,
    v: spec_fn(T) -> real,
)
    requires
        exact(v),
        bayer(cfa),
        mosaic_of(v, raw, cfa, r, g, b),
        1 < raw.width,
        1 < raw.height,
        rgb.width == raw.width,
        rgb.height == raw.height,
        forall|y: int, x: int| #[trigger]
            rgb.contains(y, x) ==> v(rgb.px(y, x)[CFA_COLOR_G as int]) == g,
    ensures
        even(v, colors_at_opposite(cfa, dir, colors_at_green(raw, cfa, rgb)), r, g, b),
{
    let mid = colors_at_green(raw, cfa, rgb);
    let out = colors_at_opposite(cfa, dir, mid);
    assert forall|y: int, x: int| #[trigger] mid.contains(y, x) implies {
        &&& v(mid.px(y, x)[1]) == g
        &&& v(mid.px(y, x)[cfa(y, x) as int]) == scene_color(r, g, b, cfa(y, x))
        &&& cfa(y, x) == CFA_COLOR_G ==> v(mid.px(y, x)[0]) == r && v(mid.px(y, x)[2]) == b
    } by {
        assert(raw.contains(y, x) && rgb.contains(y, x));
        lemma_colors(cfa, y, x);
        lemma_around(cfa, y, x);
        law_color_over_green(raw, cfa, rgb, y, x, v);
        assert forall|vertical: bool, d: int| #[trigger]
            channel(v, rgb, vertical, y, x, d, CFA_COLOR_G) == g by {
            if vertical {
                lemma_pixel_beside(rgb, y + d, x);
            } else {
                lemma_pixel_beside(rgb, y, x + d);
            }
        }
        lemma_scene_beside(v, raw, cfa, r, g, b, y, x - 1);
        lemma_scene_beside(v, raw, cfa, r, g, b, y, x + 1);
        lemma_scene_beside(v, raw, cfa, r, g, b, y - 1, x);
        lemma_scene_beside(v, raw, cfa, r, g, b, y + 1, x);
    }
    assert forall|y: int, x: int| #[trigger] out.contains(y, x) implies {
        &&& v(out.px(y, x)[0]) == r
        &&& v(out.px(y, x)[1]) == g
        &&& v(out.px(y, x)[2]) == b
    } by {
        assert(mid.contains(y, x));
        lemma_colors(cfa, y, x);
        law_missing_color(cfa, dir, mid, y, x, v);
        if cfa(y, x) != CFA_COLOR_G {
            let vertical = dir.px(y, x) != 1;
            lemma_green_beside(mid, cfa, vertical, y, x, -1);
            lemma_green_beside(mid, cfa, vertical, y, x, 1);
            lemma_mirror_range(y, mid.height as int);
            lemma_mirror_range(x, mid.width as int);
            let p = mid.px(y, x);
            let q = out.px(y, x);
            let to = missing(cfa, y, x);
            assert(forall|c: int| 0 <= c < 3 && c != to ==> #[trigger] q[c] == p[c]);
        }
    }
}

/// The mosaic of an evenly coloured scene is demosaiced to the colours of the scene, at every
/// pixel.
pub proof fn law_even_scene<T: Sample>(
    raw: Image<T>,
    cfa: Mosaic,
    r: real,
    g: real,
    b: real,
    v: spec_fn(T) -> real,
)
    requires
        exact(v),
        bayer(cfa),
        mosaic_of(v, raw, cfa, r, g, b),
        1 < raw.width,
        1 < raw.height,
    ensures
        even(v, menon(raw, cfa), r, g, b),
{
    let zero = num::<T>(0);
    let blank = Image::constant(raw.width, raw.height, zero);
    let black = Image::constant(raw.width, raw.height, [zero, zero, zero]);
    let unset = Image::constant(raw.width, raw.height, 0u16);
    let gh = green_plane(raw, cfa, false, blank);
    let gv = green_plane(raw, cfa, true, blank);
    let dir = direction_plane(raw, cfa, gh, gv, unset);
    let a = filled_green(raw, cfa, gh, gv, dir, black);
    assert forall|y: int, x: int| #[trigger] a.contains(y, x) implies v(
        a.px(y, x)[CFA_COLOR_G as int],
    ) == g by {
        assert(raw.contains(y, x));
        law_green_is_chosen(raw, cfa, gh, gv, dir, black, y, x);
        if cfa(y, x) != CFA_COLOR_G {
            lemma_scene_green(raw, cfa, false, blank, r, g, b, y, x, v);
            lemma_scene_green(raw, cfa, true, blank, r, g, b, y, x, v);
        }
    }
    lemma_scene_chroma(raw, cfa, dir, a, r, g, b, v);
    let c = colors_at_opposite(cfa, dir, colors_at_green(raw, cfa, a));
    law_refinement_keeps_even(cfa, dir, c, r, g, b, v);
    assert(menon(raw, cfa) == refined(cfa, dir, c));
}

// Scenes without colour.

/// Every pixel is grey, and as bright as what is measured there.
pub open spec fn grey<T>(v: spec_fn(T) -> real, img: Image<[T; 3]>, raw: Image<T>) -> bool {
    forall|y: int, x: int| #[trigger]
        img.contains(y, x) ==> {
            &&& v(img.px(y, x)[0]) == v(raw.px(y, x))
            &&& v(img.px(y, x)[1]) == v(raw.px(y, x))
            &&& v(img.px(y, x)[2]) == v(raw.px(y, x))
        }
}

/// Beside a pixel of a grey image all channels are the same.
proof fn lemma_grey_beside<T>(
    v: spec_fn(T) -> real,
    img: Image<[T; 3]>,
    raw: Image<T>,
    vertical: bool,
    y: int,
    x: int,
    d: int,
    c: usize,
    k: usize,
)
    requires
        grey(v, img, raw),
        img.contains(y, x),
        c < 3,
        k < 3,
    ensures
        channel(v, img, vertical, y, x, d, c) == channel(v, img, vertical, y, x, d, k),
{
    if vertical {
        lemma_pixel_beside(img, y + d, x);
    } else {
        lemma_pixel_beside(img, y, x + d);
    }
}

/// Refinement leaves a grey image as it is, whatever the directions are.
pub proof fn law_refinement_keeps_grey<T: Sample>(
    raw: Image<T>,
    cfa: Mosaic,
    dir: Image<u16>,
    rgb: Image<[T; 3]>,
    v: spec_fn(T) -> real,
)
    requires
        exact(v),
        bayer(cfa),
        grey(v, rgb, raw),
    ensures
        grey(v, refined(cfa, dir, rgb), raw),
{
    let one = refined_green(cfa, dir, rgb);
    let two = refined_at_green(cfa, one);
    let three = refined_at_opposite(cfa, dir, two);
    assert forall|y: int, x: int| #[trigger] one.contains(y, x) implies {
        &&& v(one.px(y, x)[0]) == v(raw.px(y, x))
        &&& v(one.px(y, x)[1]) == v(raw.px(y, x))
        &&& v(one.px(y, x)[2]) == v(raw.px(y, x))
    } by {
        assert(rgb.contains(y, x));
        lemma_colors(cfa, y, x);
        law_refined_green(cfa, dir, rgb, y, x, v);
        let vertical = dir.px(y, x) != 1;
        let from = cfa(y, x);
        lemma_grey_beside(v, rgb, raw, vertical, y, x, -1, CFA_COLOR_G, from);
        lemma_grey_beside(v, rgb, raw, vertical, y, x, 0, CFA_COLOR_G, from);
        lemma_grey_beside(v, rgb, raw, vertical, y, x, 1, CFA_COLOR_G, from);
        let p = rgb.px(y, x);
        let q = one.px(y, x);
        assert(from != CFA_COLOR_G ==> q[0] == p[0] && q[2] == p[2]);
    }
    assert forall|y: int, x: int| #[trigger] two.contains(y, x) implies {
        &&& v(two.px(y, x)[0]) == v(raw.px(y, x))
        &&& v(two.px(y, x)[1]) == v(raw.px(y, x))
        &&& v(two.px(y, x)[2]) == v(raw.px(y, x))
    } by {
        assert(one.contains(y, x));
        lemma_colors(cfa, y, x);
        law_refined_at_green(cfa, one, y, x, v);
        if cfa(y, x) == CFA_COLOR_G {
            let h = cfa(y, x + 1);
            let w = cfa(y + 1, x);
            lemma_grey_beside(v, one, raw, false, y, x, -1, h, CFA_COLOR_G);
            lemma_grey_beside(v, one, raw, false, y, x, 1, h, CFA_COLOR_G);
            lemma_grey_beside(v, one, raw, true, y, x, -1, w, CFA_COLOR_G);
            lemma_grey_beside(v, one, raw, true, y, x, 1, w, CFA_COLOR_G);
        }
    }
    assert forall|y: int, x: int| #[trigger] three.contains(y, x) implies {
        &&& v(three.px(y, x)[0]) == v(raw.px(y, x))
        &&& v(three.px(y, x)[1]) == v(raw.px(y, x))
        &&& v(three.px(y, x)[2]) == v(raw.px(y, x))
    } by {
        assert(two.contains(y, x));
        lemma_colors(cfa, y, x);
        law_refined_missing_color(cfa, dir, two, y, x, v);
        let vertical = dir.px(y, x) != 1;
        let from = cfa(y, x);
        let to = missing(cfa, y, x);
        lemma_grey_beside(v, two, raw, vertical, y, x, -1, to, from);
        lemma_grey_beside(v, two, raw, vertical, y, x, 0, to, from);
        lemma_grey_beside(v, two, raw, vertical, y, x, 1, to, from);
        let p = two.px(y, x);
        let q = three.px(y, x);
        if from != CFA_COLOR_G {
            assert(forall|c: int| 0 <= c < 3 && c != to ==> #[trigger] q[c] == p[c]);
        }
    }
}

/// Where green is everywhere what is measured, so are red and blue.
proof fn lemma_grey_chroma<T: Sample>(
    raw: Image<T>,
    cfa: Mosaic,
    dir: Image<u16>,
    rgb: Image<[T; 3]>,
    v: spec_fn(T) -> real,
)
    requires
        exact(v),
        bayer(cfa),
        rgb.width == raw.width,
        rgb.height == raw.height,
        forall|y: int, x: int| #[trigger]
            rgb.contains(y, x) ==> v(rgb.px(y, x)[CFA_COLOR_G as int]) == v(raw.px(y, x)),
        forall|y: int, x: int| #[trigger]
            rgb.contains(y, x) && cfa(y, x) != CFA_COLOR_G ==> if dir.px(y, x) == 1 {
                1 < raw.width
            } else {
                1 < raw.height
            },
    ensures
        grey(v, colors_at_opposite(cfa, dir, colors_at_green(raw, cfa, rgb)), raw),
{
    let mid = colors_at_green(raw, cfa, rgb);
    let out = colors_at_opposite(cfa, dir, mid);
    assert forall|y: int, x: int| #[trigger] mid.contains(y, x) implies {
        &&& v(mid.px(y, x)[1]) == v(raw.px(y, x))
        &&& v(mid.px(y, x)[cfa(y, x) as int]) == v(raw.px(y, x))
        &&& cfa(y, x) == CFA_COLOR_G ==> v(mid.px(y, x)[0]) == v(raw.px(y, x)) && v(
            mid.px(y, x)[2],
        ) == v(raw.px(y, x))
    } by {
        assert(raw.contains(y, x) && rgb.contains(y, x));
        lemma_colors(cfa, y, x);
        law_color_over_green(raw, cfa, rgb, y, x, v);
        assert forall|vertical: bool, d: int| #[trigger]
            channel(v, rgb, vertical, y, x, d, CFA_COLOR_G) == reading(
                v,
                raw,
                vertical,
                y,
                x,
                d,
            ) by {
            if vertical {
                lemma_pixel_beside(rgb, y + d, x);
            } else {
                lemma_pixel_beside(rgb, y, x + d);
            }
        }
    }
    assert forall|y: int, x: int| #[trigger] out.contains(y, x) implies {
        &&& v(out.px(y, x)[0]) == v(raw.px(y, x))
        &&& v(out.px(y, x)[1]) == v(raw.px(y, x))
        &&& v(out.px(y, x)[2]) == v(raw.px(y, x))
    } by {
        assert(mid.contains(y, x) && rgb.contains(y, x));
        lemma_colors(cfa, y, x);
        law_missing_color(cfa, dir, mid, y, x, v);
        if cfa(y, x) != CFA_COLOR_G {
            let vertical = dir.px(y, x) != 1;
            lemma_green_beside(mid, cfa, vertical, y, x, -1);
            lemma_green_beside(mid, cfa, vertical, y, x, 1);
            lemma_mirror_range(y, mid.height as int);
            lemma_mirror_range(x, mid.width as int);
            let p = mid.px(y, x);
            let q = out.px(y, x);
            let to = missing(cfa, y, x);
            assert(forall|c: int| 0 <= c < 3 && c != to ==> #[trigger] q[c] == p[c]);
        }
    }
}

/// Where the interpolated green is everywhere what is measured, there are no jumps.
proof fn lemma_no_jump<T: Sample>(
    raw: Image<T>,
    cfa: Mosaic,
    green: Image<T>,
    vertical: bool,
    y: int,
    x: int,
    v: spec_fn(T) -> real,
)
    requires
        exact(v),
        bayer(cfa),
        green.width == raw.width,
        green.height == raw.height,
        forall|a: int, b: int| #[trigger]
            raw.contains(a, b) && cfa(a, b) != CFA_COLOR_G ==> v(green.px(a, b)) == v(
                raw.px(a, b),
            ),
    ensures
        jump(v, raw, cfa, green, vertical, y, x) == 0 as real,
{
    if raw.contains(y, x) && cfa(y, x) != CFA_COLOR_G {
        let h = raw.height as int;
        let w = raw.width as int;
        lemma_mirror_range(y, h);
        lemma_mirror_range(x, w);
        if vertical {
            lemma_mirror_range(y + 2, h);
            if 1 < h {
                lemma_mirror_parity(y + 2, h);
                lemma_checkerboard(cfa, y, x, mirror(y + 2, h), x);
            }
            assert(raw.contains(mirror(y + 2, h), x));
        } else {
            lemma_mirror_range(x + 2, w);
            if 1 < w {
                lemma_mirror_parity(x + 2, w);
                lemma_checkerboard(cfa, y, x, y, mirror(x + 2, w));
            }
            assert(raw.contains(y, mirror(x + 2, w)));
        }
    }
}

/// A direction in which green is everywhere what is measured is as even as can be.
proof fn lemma_unevenness<T: Sample>(
    raw: Image<T>,
    cfa: Mosaic,
    green: Image<T>,
    vertical: bool,
    y: int,
    x: int,
    v: spec_fn(T) -> real,
)
    requires
        exact(v),
        bayer(cfa),
        green.width == raw.width,
        green.height == raw.height,
    ensures
        unevenness(v, raw, cfa, green, vertical, y, x) >= 0 as real,
        (forall|a: int, b: int| #[trigger]
            raw.contains(a, b) && cfa(a, b) != CFA_COLOR_G ==> v(green.px(a, b)) == v(
                raw.px(a, b),
            )) ==> unevenness(v, raw, cfa, green, vertical, y, x) == 0 as real,
{
    if (forall|a: int, b: int| #[trigger]
        raw.contains(a, b) && cfa(a, b) != CFA_COLOR_G ==> v(green.px(a, b)) == v(raw.px(a, b))) {
        assert forall|a: int, b: int| #[trigger] jump(v, raw, cfa, green, vertical, a, b)
            == 0 as real by {
            lemma_no_jump(raw, cfa, green, vertical, a, b, v);
        }
    }
}

/// Green is what is measured where that is the same along the direction of interpolation.
proof fn lemma_same_along<T: Sample>(
    raw: Image<T>,
    cfa: Mosaic,
    vertical: bool,
    before: Image<T>,
    u: spec_fn(int) -> real,
    v: spec_fn(T) -> real,
)
    requires
        exact(v),
        forall|y: int, x: int| #[trigger]
            raw.contains(y, x) ==> v(raw.px(y, x)) == u(if vertical {
                x
            } else {
                y
            }),
    ensures
        forall|y: int, x: int| #[trigger]
            raw.contains(y, x) && cfa(y, x) != CFA_COLOR_G ==> v(
                green_plane(raw, cfa, vertical, before).px(y, x),
            ) == v(raw.px(y, x)),
{
    assert forall|y: int, x: int| #[trigger]
        raw.contains(y, x) && cfa(y, x) != CFA_COLOR_G implies v(
        green_plane(raw, cfa, vertical, before).px(y, x),
    ) == v(raw.px(y, x)) by {
        law_green_between_greens(raw, cfa, vertical, before, y, x, v);
        lemma_mirror_range(y, raw.height as int);
        lemma_mirror_range(x, raw.width as int);
        assert forall|d: int| #[trigger] reading(v, raw, vertical, y, x, d) == v(
            raw.px(y, x),
        ) by {
            if vertical {
                lemma_pixel_beside(raw, y + d, x);
            } else {
                lemma_pixel_beside(raw, y, x + d);
            }
        }
    }
}

/// Horizontal bars: a mosaic all of whose columns are the same is demosaiced to grey, as bright as
/// what is measured.
pub proof fn law_horizontal_bars<T: Sample>(
    raw: Image<T>,
    cfa: Mosaic,
    u: spec_fn(int) -> real,
    v: spec_fn(T) -> real,
)
    requires
        exact(v),
        bayer(cfa),
        1 < raw.width,
        forall|y: int, x: int| #[trigger] raw.contains(y, x) ==> v(raw.px(y, x)) == u(y),
    ensures
        grey(v, menon(raw, cfa), raw),
{
    let zero = num::<T>(0);
    let blank = Image::constant(raw.width, raw.height, zero);
    let black = Image::constant(raw.width, raw.height, [zero, zero, zero]);
    let unset = Image::constant(raw.width, raw.height, 0u16);
    let gh = green_plane(raw, cfa, false, blank);
    let gv = green_plane(raw, cfa, true, blank);
    let dir = direction_plane(raw, cfa, gh, gv, unset);
    let a = filled_green(raw, cfa, gh, gv, dir, black);
    lemma_same_along(raw, cfa, false, blank, u, v);
    assert forall|y: int, x: int| #[trigger] a.contains(y, x) implies {
        &&& v(a.px(y, x)[CFA_COLOR_G as int]) == v(raw.px(y, x))
        &&& cfa(y, x) != CFA_COLOR_G ==> dir.px(y, x) == 1
    } by {
        assert(raw.contains(y, x));
        lemma_unevenness(raw, cfa, gh, false, y, x, v);
        lemma_unevenness(raw, cfa, gv, true, y, x, v);
        law_smoother_direction(raw, cfa, gh, gv, unset, y, x, v);
        law_green_is_chosen(raw, cfa, gh, gv, dir, black, y, x);
    }
    lemma_grey_chroma(raw, cfa, dir, a, v);
    let c = colors_at_opposite(cfa, dir, colors_at_green(raw, cfa, a));
    law_refinement_keeps_grey(raw, cfa, dir, c, v);
    assert(menon(raw, cfa) == refined(cfa, dir, c));
}

/// Vertical bars: in a mosaic all of whose rows are the same, green before refinement is as bright
/// as what is measured wherever the row is uneven.
pub proof fn law_vertical_bars_green<T: Sample>(
    raw: Image<T>,
    cfa: Mosaic,
    blank: Image<T>,
    unset: Image<u16>,
    black: Image<[T; 3]>,
    u: spec_fn(int) -> real,
    y: int,
    x: int,
    v: spec_fn(T) -> real,
)
    requires
        exact(v),
        bayer(cfa),
        forall|y: int, x: int| #[trigger] raw.contains(y, x) ==> v(raw.px(y, x)) == u(x),
        raw.contains(y, x),
        cfa(y, x) != CFA_COLOR_G ==> unevenness(
            v,
            raw,
            cfa,
            green_plane(raw, cfa, false, blank),
            false,
            y,
            x,
        ) > 0 as real,
    ensures
        ({
            let gh = green_plane(raw, cfa, false, blank);
            let gv = green_plane(raw, cfa, true, blank);
            let dir = direction_plane(raw, cfa, gh, gv, unset);
            let rgb = filled_green(raw, cfa, gh, gv, dir, black);
            &&& v(rgb.px(y, x)[CFA_COLOR_G as int]) == u(x)
            &&& cfa(y, x) != CFA_COLOR_G ==> dir.px(y, x) == 0
        }),
{
    let gh = green_plane(raw, cfa, false, blank);
    let gv = green_plane(raw, cfa, true, blank);
    let dir = direction_plane(raw, cfa, gh, gv, unset);
    lemma_same_along(raw, cfa, true, blank, u, v);
    lemma_unevenness(raw, cfa, gv, true, y, x, v);
    law_smoother_direction(raw, cfa, gh, gv, unset, y, x, v);
    law_green_is_chosen(raw, cfa, gh, gv, dir, black, y, x);
}

/// Vertical bars: a mosaic all of whose rows are the same, and uneven at every red and blue pixel,
/// is demosaiced to grey, as bright as what is measured.
pub proof fn law_vertical_bars<T: Sample>(
    raw: Image<T>,
    cfa: Mosaic,
    u: spec_fn(int) -> real,
    v: spec_fn(T) -> real,
)
    requires
        exact(v),
        bayer(cfa),
        1 < raw.height,
        forall|y: int, x: int| #[trigger] raw.contains(y, x) ==> v(raw.px(y, x)) == u(x),
        ({
            let blank = Image::constant(raw.width, raw.height, num::<T>(0));
            let gh = green_plane(raw, cfa, false, blank);
            forall|y: int, x: int| #[trigger]
                raw.contains(y, x) && cfa(y, x) != CFA_COLOR_G ==> unevenness(
                    v,
                    raw,
                    cfa,
                    gh,
                    false,
                    y,
                    x,
                ) > 0 as real
        }),
    ensures
        grey(v, menon(raw, cfa), raw),
{
    let zero = num::<T>(0);
    let blank = Image::constant(raw.width, raw.height, zero);
    let black = Image::constant(raw.width, raw.height, [zero, zero, zero]);
    let unset = Image::constant(raw.width, raw.height, 0u16);
    let gh = green_plane(raw, cfa, false, blank);
    let gv = green_plane(raw, cfa, true, blank);
    let dir = direction_plane(raw, cfa, gh, gv, unset);
    let a = filled_green(raw, cfa, gh, gv, dir, black);
    assert forall|y: int, x: int| #[trigger] a.contains(y, x) implies {
        &&& v(a.px(y, x)[CFA_COLOR_G as int]) == v(raw.px(y, x))
        &&& cfa(y, x) != CFA_COLOR_G ==> dir.px(y, x) == 0
    } by {
        assert(raw.contains(y, x));
        law_vertical_bars_green(raw, cfa, blank, unset, black, u, y, x, v);
    }
    lemma_grey_chroma(raw, cfa, dir, a, v);
    let c = colors_at_opposite(cfa, dir, colors_at_green(raw, cfa, a));
    law_refinement_keeps_grey(raw, cfa, dir, c, v);
    assert(menon(raw, cfa) == refined(cfa, dir, c));
}

} // verus!
