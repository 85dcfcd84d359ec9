//! What may be exchanged: rows with columns, and red with blue.

use crate::bayer::lemma_colors;
use crate::cfa::{bayer, rggb, shifted, Mosaic, CFA_COLOR_B, CFA_COLOR_G, CFA_COLOR_R};
use crate::image::{lemma_image_equal, lemma_mirror_range, Image};
use crate::model::{
    beside, colors_at_green, colors_at_opposite, cost_plane, cost_taps, direction_plane,
    filled_green, gradient_plane, green_plane, green_taps, menon, neighbour_color, opposite,
    raised_by_three, raised_by_two, refined_at_green, refined_at_opposite, refined_green,
    with_channel,
};
use crate::sample::{num, Sample};
use vstd::prelude::*;
use vstd::std_specs::cmp::PartialOrdIs;

verus! {

// Rows and columns.

/// The image with rows and columns exchanged.
pub open spec fn transposed<P>(img: Image<P>) -> Image<P> {
    Image::tabulate(img.height, img.width, |y: int, x: int| img.px(x, y))
}

/// The filter array with rows and columns exchanged.
pub open spec fn transposed_cfa(cfa: Mosaic) -> Mosaic {
    |y: int, x: int| cfa(x, y)
}

/// With rows and columns exchanged, a Bayer array is one.
proof fn lemma_bayer_transposed(cfa: Mosaic)
    requires
        bayer(cfa),
    ensures
        bayer(transposed_cfa(cfa)),
{
    let (dx, dy) = choose|dx: int, dy: int| cfa == #[trigger] shifted(rggb(), dx, dy);
    let m = shifted(rggb(), dy, dx);
    assert forall|y: int, x: int| #[trigger] transposed_cfa(cfa)(y, x) == m(y, x) by {
        assert(cfa(x, y) == rggb()(x + dy, y + dx));
    }
    assert(transposed_cfa(cfa) =~= m);
}

/// A step along the row becomes one along the column.
proof fn lemma_beside<P>(img: Image<P>, vertical: bool, y: int, x: int, d: int)
    requires
        img.contains(y, x),
    ensures
        beside(transposed(img), !vertical, x, y, d) == beside(img, vertical, y, x, d),
{
    lemma_mirror_range(y, img.height as int);
    lemma_mirror_range(x, img.width as int);
    lemma_mirror_range(y + d, img.height as int);
    lemma_mirror_range(x + d, img.width as int);
}

/// Green along the rows becomes green along the columns.
proof fn lemma_green_plane<T: Sample>(
    raw: Image<T>,
    cfa: Mosaic,
    vertical: bool,
    before: Image<T>,
)
    requires
        before.width == raw.width,
        before.height == raw.height,
    ensures
        green_plane(transposed(raw), transposed_cfa(cfa), !vertical, transposed(before))
            == transposed(green_plane(raw, cfa, vertical, before)),
{
    let t = green_plane(transposed(raw), transposed_cfa(cfa), !vertical, transposed(before));
    let u = transposed(green_plane(raw, cfa, vertical, before));
    assert forall|y: int, x: int| #[trigger] t.contains(y, x) implies t.px(y, x) == u.px(y, x) by {
        let a = green_taps(transposed(raw), !vertical, y, x);
        let b = green_taps(raw, vertical, x, y);
        assert forall|i: int| 0 <= i < 5 implies a[i] == b[i] by {
            lemma_beside(raw, vertical, x, y, i - 2);
        }
        assert(a =~= b);
    }
    lemma_image_equal(t, u);
}

/// Costs of the rows become costs of the columns.
proof fn lemma_cost_plane<T: Sample>(
    raw: Image<T>,
    cfa: Mosaic,
    green: Image<T>,
    vertical: bool,
)
    requires
        green.width == raw.width,
        green.height == raw.height,
    ensures
        cost_plane(
            gradient_plane(transposed(raw), transposed_cfa(cfa), transposed(green), !vertical),
            transposed_cfa(cfa),
            !vertical,
        ) == transposed(cost_plane(gradient_plane(raw, cfa, green, vertical), cfa, vertical)),
{
    let m = transposed_cfa(cfa);
    let g = gradient_plane(raw, cfa, green, vertical);
    let h = gradient_plane(transposed(raw), m, transposed(green), !vertical);
    assert forall|y: int, x: int| #[trigger] h.contains(y, x) implies h.px(y, x) == transposed(
        g,
    ).px(y, x) by {
        lemma_beside(raw, vertical, x, y, 0);
        lemma_beside(raw, vertical, x, y, 2);
        lemma_beside(green, vertical, x, y, 0);
        lemma_beside(green, vertical, x, y, 2);
    }
    lemma_image_equal(h, transposed(g));
    let t = cost_plane(h, m, !vertical);
    let u = transposed(cost_plane(g, cfa, vertical));
    assert forall|y: int, x: int| #[trigger] t.contains(y, x) implies t.px(y, x) == u.px(y, x) by {
        let a = cost_taps(h, !vertical, y, x);
        let b = cost_taps(g, vertical, x, y);
        assert forall|i: int| 0 <= i < 8 implies a[i] == b[i] by {}
        assert(a =~= b);
    }
    lemma_image_equal(t, u);
}

/// The cost of a direction of interpolation at the pixel `(y, x)` of the mosaic.
pub open spec fn cost_of<T: Sample>(
    raw: Image<T>,
    cfa: Mosaic,
    vertical: bool,
    y: int,
    x: int,
) -> T {
    let blank = Image::constant(raw.width, raw.height, num::<T>(0));
    let green = green_plane(raw, cfa, vertical, blank);
    cost_plane(gradient_plane(raw, cfa, green, vertical), cfa, vertical).px(y, x)
}

/// At the pixel `(y, x)` one of the two directions is preferred.
pub open spec fn preferred<T: Sample>(raw: Image<T>, cfa: Mosaic, y: int, x: int) -> bool {
    let row = cost_of(raw, cfa, false, y, x);
    let column = cost_of(raw, cfa, true, y, x);
    column.is_ge(&row) != row.is_ge(&column)
}

/// At every red and blue pixel one of the two directions is preferred.
pub open spec fn decided<T: Sample>(raw: Image<T>, cfa: Mosaic) -> bool {
    forall|y: int, x: int| #[trigger]
        raw.contains(y, x) && cfa(y, x) != CFA_COLOR_G ==> preferred(raw, cfa, y, x)
}

/// The two images of directions choose different directions at each red and blue pixel, when rows
/// and columns are exchanged.
spec fn opposed(cfa: Mosaic, dir: Image<u16>, other: Image<u16>) -> bool {
    forall|y: int, x: int| #[trigger]
        dir.contains(y, x) && cfa(y, x) != CFA_COLOR_G ==> (dir.px(y, x) == 1) != (other.px(x, y)
            == 1)
}

/// Colours of neighbours along the rows become those along the columns.
proof fn lemma_colors_at_green<T: Sample>(raw: Image<T>, cfa: Mosaic, rgb: Image<[T; 3]>)
    requires
        bayer(cfa),
        rgb.width == raw.width,
        rgb.height == raw.height,
    ensures
        colors_at_green(transposed(raw), transposed_cfa(cfa), transposed(rgb)) == transposed(
            colors_at_green(raw, cfa, rgb),
        ),
{
    let t = colors_at_green(transposed(raw), transposed_cfa(cfa), transposed(rgb));
    let u = transposed(colors_at_green(raw, cfa, rgb));
    assert forall|y: int, x: int| #[trigger] t.contains(y, x) implies t.px(y, x) == u.px(y, x) by {
        lemma_colors(cfa, x, y);
        if cfa(x, y) == CFA_COLOR_G {
            assert forall|vertical: bool| #[trigger]
                neighbour_color(raw, rgb, vertical, x, y) == neighbour_color(
                    transposed(raw),
                    transposed(rgb),
                    !vertical,
                    y,
                    x,
                ) by {
                lemma_beside(raw, vertical, x, y, -1);
                lemma_beside(raw, vertical, x, y, 1);
                lemma_beside(rgb, vertical, x, y, -1);
                lemma_beside(rgb, vertical, x, y, 1);
            }
            assert(neighbour_color(raw, rgb, true, x, y) == neighbour_color(
                transposed(raw),
                transposed(rgb),
                false,
                y,
                x,
            ));
            assert(neighbour_color(raw, rgb, false, x, y) == neighbour_color(
                transposed(raw),
                transposed(rgb),
                true,
                y,
                x,
            ));
            assert(t.px(y, x) =~= u.px(y, x));
        }
    }
    lemma_image_equal(t, u);
}

/// Means over neighbours along the rows become those along the columns.
proof fn lemma_raised<T: Sample>(
    rgb: Image<[T; 3]>,
    vertical: bool,
    y: int,
    x: int,
    to: usize,
    from: usize,
)
    requires
        rgb.contains(y, x),
    ensures
        raised_by_two(transposed(rgb), !vertical, x, y, to, from) == raised_by_two(
            rgb,
            vertical,
            y,
            x,
            to,
            from,
        ),
        raised_by_three(transposed(rgb), !vertical, x, y, to, from) == raised_by_three(
            rgb,
            vertical,
            y,
            x,
            to,
            from,
        ),
{
    lemma_beside(rgb, vertical, y, x, -1);
    lemma_beside(rgb, vertical, y, x, 0);
    lemma_beside(rgb, vertical, y, x, 1);
}

/// The three steps in the direction chosen.
proof fn lemma_chosen<T: Sample>(
    cfa: Mosaic,
    dir: Image<u16>,
    other: Image<u16>,
    rgb: Image<[T; 3]>,
)
    requires
        dir.width == rgb.width,
        dir.height == rgb.height,
        opposed(cfa, dir, other),
    ensures
        colors_at_opposite(transposed_cfa(cfa), other, transposed(rgb)) == transposed(
            colors_at_opposite(cfa, dir, rgb),
        ),
        refined_green(transposed_cfa(cfa), other, transposed(rgb)) == transposed(
            refined_green(cfa, dir, rgb),
        ),
        refined_at_opposite(transposed_cfa(cfa), other, transposed(rgb)) == transposed(
            refined_at_opposite(cfa, dir, rgb),
        ),
{
    let m = transposed_cfa(cfa);
    let r = transposed(rgb);
    let a = colors_at_opposite(m, other, r);
    let b = refined_green(m, other, r);
    let c = refined_at_opposite(m, other, r);
    let ta = transposed(colors_at_opposite(cfa, dir, rgb));
    let tb = transposed(refined_green(cfa, dir, rgb));
    let tc = transposed(refined_at_opposite(cfa, dir, rgb));
    assert forall|y: int, x: int| #[trigger] r.contains(y, x) implies a.px(y, x) == ta.px(y, x)
        && b.px(y, x) == tb.px(y, x) && c.px(y, x) == tc.px(y, x) by {
        if cfa(x, y) != CFA_COLOR_G {
            assert(dir.contains(x, y));
            let vertical = dir.px(x, y) != 1;
            assert((other.px(y, x) != 1) == !vertical);
            lemma_raised(rgb, vertical, x, y, opposite(cfa(x, y)), cfa(x, y));
            lemma_raised(rgb, vertical, x, y, CFA_COLOR_G, cfa(x, y));
        }
    }
    assert forall|y: int, x: int| #[trigger] a.contains(y, x) implies a.px(y, x) == ta.px(y, x) by {
        assert(r.contains(y, x));
    }
    assert forall|y: int, x: int| #[trigger] b.contains(y, x) implies b.px(y, x) == tb.px(y, x) by {
        assert(r.contains(y, x));
    }
    assert forall|y: int, x: int| #[trigger] c.contains(y, x) implies c.px(y, x) == tc.px(y, x) by {
        assert(r.contains(y, x));
    }
    lemma_image_equal(a, ta);
    lemma_image_equal(b, tb);
    lemma_image_equal(c, tc);
}

/// Red and blue refined at green pixels.
proof fn lemma_refined_at_green<T: Sample>(cfa: Mosaic, rgb: Image<[T; 3]>)
    requires
        bayer(cfa),
    ensures
        refined_at_green(transposed_cfa(cfa), transposed(rgb)) == transposed(
            refined_at_green(cfa, rgb),
        ),
{
    let t = refined_at_green(transposed_cfa(cfa), transposed(rgb));
    let u = transposed(refined_at_green(cfa, rgb));
    assert forall|y: int, x: int| #[trigger] t.contains(y, x) implies t.px(y, x) == u.px(y, x) by {
        lemma_colors(cfa, x, y);
        if cfa(x, y) == CFA_COLOR_G {
            lemma_raised(rgb, false, x, y, cfa(x, y + 1), CFA_COLOR_G);
            lemma_raised(rgb, true, x, y, cfa(x + 1, y), CFA_COLOR_G);
            assert(t.px(y, x) =~= u.px(y, x));
        }
    }
    lemma_image_equal(t, u);
}

/// With rows and columns exchanged in the mosaic and in the filter array, they are exchanged in
/// the result, unless a direction had to be chosen where neither is preferred.
pub proof fn law_transposed<T: Sample>(raw: Image<T>, cfa: Mosaic)
    requires
        bayer(cfa),
        decided(raw, cfa),
    ensures
        bayer(transposed_cfa(cfa)),
        menon(transposed(raw), transposed_cfa(cfa)) == transposed(menon(raw, cfa)),
{
    let zero = num::<T>(0);
    let m = transposed_cfa(cfa);
    let traw = transposed(raw);
    let blank = Image::constant(raw.width, raw.height, zero);
    let black = Image::constant(raw.width, raw.height, [zero, zero, zero]);
    let unset = Image::constant(raw.width, raw.height, 0u16);
    let tblank = Image::constant(raw.height, raw.width, zero);
    let tblack = Image::constant(raw.height, raw.width, [zero, zero, zero]);
    let tunset = Image::constant(raw.height, raw.width, 0u16);
    lemma_image_equal(transposed(blank), tblank);
    lemma_image_equal(transposed(black), tblack);
    let gh = green_plane(raw, cfa, false, blank);
    let gv = green_plane(raw, cfa, true, blank);
    let th = green_plane(traw, m, false, tblank);
    let tv = green_plane(traw, m, true, tblank);
    lemma_green_plane(raw, cfa, false, blank);
    lemma_green_plane(raw, cfa, true, blank);
    assert(tv == transposed(gh) && th == transposed(gv));
    lemma_cost_plane(raw, cfa, gh, false);
    lemma_cost_plane(raw, cfa, gv, true);
    let dir = direction_plane(raw, cfa, gh, gv, unset);
    let tdir = direction_plane(traw, m, th, tv, tunset);
    assert forall|y: int, x: int| #[trigger]
        dir.contains(y, x) && cfa(y, x) != CFA_COLOR_G implies (dir.px(y, x) == 1) != (tdir.px(x, y)
        == 1) by {
        assert(raw.contains(y, x));
        assert(preferred(raw, cfa, y, x));
    }
    let a = filled_green(raw, cfa, gh, gv, dir, black);
    let ta = filled_green(traw, m, th, tv, tdir, tblack);
    assert forall|y: int, x: int| #[trigger] ta.contains(y, x) implies ta.px(y, x) == transposed(
        a,
    ).px(y, x) by {
        assert(dir.contains(x, y));
    }
    lemma_image_equal(ta, transposed(a));
    lemma_colors_at_green(raw, cfa, a);
    let b = colors_at_green(raw, cfa, a);
    lemma_chosen(cfa, dir, tdir, b);
    let c = colors_at_opposite(cfa, dir, b);
    lemma_chosen(cfa, dir, tdir, c);
    let d = refined_green(cfa, dir, c);
    lemma_refined_at_green(cfa, d);
    let e = refined_at_green(cfa, d);
    lemma_chosen(cfa, dir, tdir, e);
    lemma_bayer_transposed(cfa);
}

// Red and blue.

/// Red for blue, blue for red.
pub open spec fn exchange(color: usize) -> usize {
    if color == CFA_COLOR_R {
        CFA_COLOR_B
    } else if color == CFA_COLOR_B {
        CFA_COLOR_R
    } else {
        color
    }
}

/// The filter array with red and blue exchanged.
pub open spec fn exchanged_cfa(cfa: Mosaic) -> Mosaic {
    |y: int, x: int| exchange(cfa(y, x))
}

/// The pixel with red and blue exchanged.
pub open spec fn exchanged_pixel<T>(p: [T; 3]) -> [T; 3] {
    [p[2], p[1], p[0]]
}

/// The image with red and blue exchanged.
pub open spec fn exchanged<T>(img: Image<[T; 3]>) -> Image<[T; 3]> {
    Image::tabulate(img.width, img.height, |y: int, x: int| exchanged_pixel(img.px(y, x)))
}

/// With red and blue exchanged, a Bayer array is one.
proof fn lemma_bayer_exchanged(cfa: Mosaic)
    requires
        bayer(cfa),
    ensures
        bayer(exchanged_cfa(cfa)),
{
    let (dx, dy) = choose|dx: int, dy: int| cfa == #[trigger] shifted(rggb(), dx, dy);
    let m = shifted(rggb(), dx + 1, dy + 1);
    assert forall|y: int, x: int| #[trigger] exchanged_cfa(cfa)(y, x) == m(y, x) by {
        assert(cfa(y, x) == rggb()(y + dy, x + dx));
    }
    assert(exchanged_cfa(cfa) =~= m);
}

/// A channel is exchanged with its pixel.
proof fn lemma_channel<T>(p: [T; 3], c: usize, value: T)
    requires
        c < 3,
    ensures
        exchanged_pixel(with_channel(p, c, value)) == with_channel(
            exchanged_pixel(p),
            exchange(c),
            value,
        ),
{
    assert(exchanged_pixel(with_channel(p, c, value)) =~= with_channel(
        exchanged_pixel(p),
        exchange(c),
        value,
    ));
}

/// A pixel beside one of the image is exchanged with the image.
proof fn lemma_exchanged_beside<T>(
    rgb: Image<[T; 3]>,
    vertical: bool,
    y: int,
    x: int,
    d: int,
    c: usize,
)
    requires
        rgb.contains(y, x),
        c < 3,
    ensures
        beside(exchanged(rgb), vertical, y, x, d)[exchange(c) as int] == beside(
            rgb,
            vertical,
            y,
            x,
            d,
        )[c as int],
        exchanged(rgb).px(y, x)[exchange(c) as int] == rgb.px(y, x)[c as int],
{
    lemma_mirror_range(y, rgb.height as int);
    lemma_mirror_range(x, rgb.width as int);
    lemma_mirror_range(y + d, rgb.height as int);
    lemma_mirror_range(x + d, rgb.width as int);
}

/// Means over neighbours are exchanged with the image.
proof fn lemma_exchanged_raised<T: Sample>(
    rgb: Image<[T; 3]>,
    vertical: bool,
    y: int,
    x: int,
    to: usize,
    from: usize,
)
    requires
        rgb.contains(y, x),
        to < 3,
        from < 3,
    ensures
        raised_by_two(exchanged(rgb), vertical, y, x, exchange(to), exchange(from))
            == raised_by_two(rgb, vertical, y, x, to, from),
        raised_by_three(exchanged(rgb), vertical, y, x, exchange(to), exchange(from))
            == raised_by_three(rgb, vertical, y, x, to, from),
{
    lemma_exchanged_beside(rgb, vertical, y, x, -1, to);
    lemma_exchanged_beside(rgb, vertical, y, x, 0, to);
    lemma_exchanged_beside(rgb, vertical, y, x, 1, to);
    lemma_exchanged_beside(rgb, vertical, y, x, -1, from);
    lemma_exchanged_beside(rgb, vertical, y, x, 0, from);
    lemma_exchanged_beside(rgb, vertical, y, x, 1, from);
}

/// Green and the direction do not depend on which pixels are red and which are blue.
proof fn lemma_exchanged_directions<T: Sample>(
    raw: Image<T>,
    cfa: Mosaic,
    blank: Image<T>,
    unset: Image<u16>,
)
    ensures
        green_plane(raw, exchanged_cfa(cfa), false, blank) == green_plane(raw, cfa, false, blank),
        green_plane(raw, exchanged_cfa(cfa), true, blank) == green_plane(raw, cfa, true, blank),
        ({
            let gh = green_plane(raw, cfa, false, blank);
            let gv = green_plane(raw, cfa, true, blank);
            direction_plane(raw, exchanged_cfa(cfa), gh, gv, unset) == direction_plane(
                raw,
                cfa,
                gh,
                gv,
                unset,
            )
        }),
{
    let m = exchanged_cfa(cfa);
    let gh = green_plane(raw, cfa, false, blank);
    let gv = green_plane(raw, cfa, true, blank);
    lemma_image_equal(green_plane(raw, m, false, blank), gh);
    lemma_image_equal(green_plane(raw, m, true, blank), gv);
    let jh = gradient_plane(raw, cfa, gh, false);
    let jv = gradient_plane(raw, cfa, gv, true);
    lemma_image_equal(gradient_plane(raw, m, gh, false), jh);
    lemma_image_equal(gradient_plane(raw, m, gv, true), jv);
    lemma_image_equal(cost_plane(jh, m, false), cost_plane(jh, cfa, false));
    lemma_image_equal(cost_plane(jv, m, true), cost_plane(jv, cfa, true));
    lemma_image_equal(
        direction_plane(raw, m, gh, gv, unset),
        direction_plane(raw, cfa, gh, gv, unset),
    );
}

/// The colours that are filled in are exchanged with the image.
proof fn lemma_exchanged_chroma<T: Sample>(raw: Image<T>, cfa: Mosaic, rgb: Image<[T; 3]>)
    requires
        bayer(cfa),
        rgb.width == raw.width,
        rgb.height == raw.height,
    ensures
        colors_at_green(raw, exchanged_cfa(cfa), exchanged(rgb)) == exchanged(
            colors_at_green(raw, cfa, rgb),
        ),
        refined_at_green(exchanged_cfa(cfa), exchanged(rgb)) == exchanged(
            refined_at_green(cfa, rgb),
        ),
{
    let m = exchanged_cfa(cfa);
    let r = exchanged(rgb);
    let a = colors_at_green(raw, m, r);
    let b = refined_at_green(m, r);
    let ea = exchanged(colors_at_green(raw, cfa, rgb));
    let eb = exchanged(refined_at_green(cfa, rgb));
    assert forall|y: int, x: int| #[trigger] rgb.contains(y, x) implies a.px(y, x) == ea.px(y, x)
        && b.px(y, x) == eb.px(y, x) by {
        let p = rgb.px(y, x);
        lemma_colors(cfa, y, x);
        if cfa(y, x) == CFA_COLOR_G {
            let h = cfa(y, x + 1);
            let w = cfa(y + 1, x);
            assert forall|vertical: bool| #[trigger]
                neighbour_color(raw, r, vertical, y, x) == neighbour_color(
                    raw,
                    rgb,
                    vertical,
                    y,
                    x,
                ) by {
                lemma_exchanged_beside(rgb, vertical, y, x, -1, CFA_COLOR_G);
                lemma_exchanged_beside(rgb, vertical, y, x, 1, CFA_COLOR_G);
            }
            let nh = neighbour_color(raw, rgb, false, y, x);
            let nv = neighbour_color(raw, rgb, true, y, x);
            assert(neighbour_color(raw, r, false, y, x) == nh);
            assert(neighbour_color(raw, r, true, y, x) == nv);
            lemma_channel(p, h, nh);
            lemma_channel(with_channel(p, h, nh), w, nv);
            lemma_exchanged_raised(rgb, false, y, x, h, CFA_COLOR_G);
            lemma_exchanged_raised(rgb, true, y, x, w, CFA_COLOR_G);
            let rh = raised_by_two(rgb, false, y, x, h, CFA_COLOR_G);
            let rv = raised_by_two(rgb, true, y, x, w, CFA_COLOR_G);
            lemma_channel(p, h, rh);
            lemma_channel(with_channel(p, h, rh), w, rv);
        } else {
            lemma_channel(p, cfa(y, x), raw.px(y, x));
        }
    }
    assert forall|y: int, x: int| #[trigger] a.contains(y, x) implies a.px(y, x) == ea.px(y, x) by {
        assert(rgb.contains(y, x));
    }
    assert forall|y: int, x: int| #[trigger] b.contains(y, x) implies b.px(y, x) == eb.px(y, x) by {
        assert(rgb.contains(y, x));
    }
    lemma_image_equal(a, ea);
    lemma_image_equal(b, eb);
}

/// The steps in the direction chosen are exchanged with the image.
proof fn lemma_exchanged_chosen<T: Sample>(cfa: Mosaic, dir: Image<u16>, rgb: Image<[T; 3]>)
    requires
        bayer(cfa),
    ensures
        colors_at_opposite(exchanged_cfa(cfa), dir, exchanged(rgb)) == exchanged(
            colors_at_opposite(cfa, dir, rgb),
        ),
        refined_green(exchanged_cfa(cfa), dir, exchanged(rgb)) == exchanged(
            refined_green(cfa, dir, rgb),
        ),
        refined_at_opposite(exchanged_cfa(cfa), dir, exchanged(rgb)) == exchanged(
            refined_at_opposite(cfa, dir, rgb),
        ),
{
    let m = exchanged_cfa(cfa);
    let r = exchanged(rgb);
    let a = colors_at_opposite(m, dir, r);
    let b = refined_green(m, dir, r);
    let c = refined_at_opposite(m, dir, r);
    let ea = exchanged(colors_at_opposite(cfa, dir, rgb));
    let eb = exchanged(refined_green(cfa, dir, rgb));
    let ec = exchanged(refined_at_opposite(cfa, dir, rgb));
    assert forall|y: int, x: int| #[trigger] rgb.contains(y, x) implies a.px(y, x) == ea.px(y, x)
        && b.px(y, x) == eb.px(y, x) && c.px(y, x) == ec.px(y, x) by {
        lemma_colors(cfa, y, x);
        if cfa(y, x) != CFA_COLOR_G {
            let p = rgb.px(y, x);
            let vertical = dir.px(y, x) != 1;
            let from = cfa(y, x);
            let to = opposite(from);
            assert(opposite(exchange(from)) == exchange(to));
            lemma_exchanged_raised(rgb, vertical, y, x, to, from);
            lemma_exchanged_raised(rgb, vertical, y, x, CFA_COLOR_G, from);
            lemma_channel(p, to, raised_by_two(rgb, vertical, y, x, to, from));
            lemma_channel(p, CFA_COLOR_G, raised_by_three(rgb, vertical, y, x, CFA_COLOR_G, from));
            lemma_channel(p, to, raised_by_three(rgb, vertical, y, x, to, from));
        }
    }
    assert forall|y: int, x: int| #[trigger] a.contains(y, x) implies a.px(y, x) == ea.px(y, x) by {
        assert(rgb.contains(y, x));
    }
    assert forall|y: int, x: int| #[trigger] b.contains(y, x) implies b.px(y, x) == eb.px(y, x) by {
        assert(rgb.contains(y, x));
    }
    assert forall|y: int, x: int| #[trigger] c.contains(y, x) implies c.px(y, x) == ec.px(y, x) by {
        assert(rgb.contains(y, x));
    }
    lemma_image_equal(a, ea);
    lemma_image_equal(b, eb);
    lemma_image_equal(c, ec);
}

/// With red and blue exchanged in the filter array, they are exchanged in the result.
pub proof fn law_red_and_blue_exchanged<T: Sample>(raw: Image<T>, cfa: Mosaic)
    requires
        bayer(cfa),
    ensures
        bayer(exchanged_cfa(cfa)),
        menon(raw, exchanged_cfa(cfa)) == exchanged(menon(raw, cfa)),
{
    let zero = num::<T>(0);
    let m = exchanged_cfa(cfa);
    let blank = Image::constant(raw.width, raw.height, zero);
    let black = Image::constant(raw.width, raw.height, [zero, zero, zero]);
    let unset = Image::constant(raw.width, raw.height, 0u16);
    lemma_bayer_exchanged(cfa);
    lemma_exchanged_directions(raw, cfa, blank, unset);
    assert(exchanged_pixel([zero, zero, zero]) =~= [zero, zero, zero]);
    lemma_image_equal(exchanged(black), black);
    let gh = green_plane(raw, cfa, false, blank);
    let gv = green_plane(raw, cfa, true, blank);
    let dir = direction_plane(raw, cfa, gh, gv, unset);
    let a = filled_green(raw, cfa, gh, gv, dir, black);
    let ma = filled_green(raw, m, gh, gv, dir, black);
    assert forall|y: int, x: int| #[trigger] ma.contains(y, x) implies ma.px(y, x) == exchanged(
        a,
    ).px(y, x) by {
        let value = a.px(y, x)[CFA_COLOR_G as int];
        lemma_channel(black.px(y, x), CFA_COLOR_G, value);
        assert(a.px(y, x) == with_channel(black.px(y, x), CFA_COLOR_G, value));
        assert(ma.px(y, x) == with_channel(black.px(y, x), CFA_COLOR_G, value));
    }
    lemma_image_equal(ma, exchanged(a));
    lemma_exchanged_chroma(raw, cfa, a);
    let b = colors_at_green(raw, cfa, a);
    lemma_exchanged_chosen(cfa, dir, b);
    let c = colors_at_opposite(cfa, dir, b);
    lemma_exchanged_chosen(cfa, dir, c);
    let d = refined_green(cfa, dir, c);
    lemma_exchanged_chroma(raw, cfa, d);
    let e = refined_at_green(cfa, d);
    lemma_exchanged_chosen(cfa, dir, e);
}

} // verus!
