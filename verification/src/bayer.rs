//! How the colours of a Bayer mosaic lie side by side.

use crate::cfa::{bayer, rggb, shifted, Mosaic, CFA_COLOR_B, CFA_COLOR_G, CFA_COLOR_R};
use crate::image::{lemma_mirror_once, lemma_mirror_range, mirror, Image};
use crate::model::{beside, is_green};
use crate::raster::{lemma_pixel, lemma_size, partway};
use vstd::prelude::*;

verus! {

/// The colours around a pixel: greens and others alternate along rows and columns, and a green
/// pixel has one of red and blue beside it and the other one below.
pub proof fn lemma_colors(m: Mosaic, y: int, x: int)
    requires
        bayer(m),
    ensures
        m(y, x) == CFA_COLOR_R || m(y, x) == CFA_COLOR_G || m(y, x) == CFA_COLOR_B,
        is_green(m, y, x) ==> {
            &&& m(y, x + 1) == CFA_COLOR_R && m(y + 1, x) == CFA_COLOR_B || m(y, x + 1)
                == CFA_COLOR_B && m(y + 1, x) == CFA_COLOR_R
        },
{
    let (dx, dy) = choose|dx: int, dy: int| m == #[trigger] shifted(rggb(), dx, dy);
    assert(m(y, x) == rggb()(y + dy, x + dx));
    assert(m(y, x + 1) == rggb()(y + dy, x + 1 + dx));
    assert(m(y + 1, x) == rggb()(y + 1 + dy, x + dx));
}

/// A mosaic is the same two rows down and two columns on.
pub proof fn lemma_period(m: Mosaic, y: int, x: int)
    requires
        bayer(m),
    ensures
        m(y + 2, x) == m(y, x),
        m(y, x + 2) == m(y, x),
{
    let (dx, dy) = choose|dx: int, dy: int| m == #[trigger] shifted(rggb(), dx, dy);
    assert(m(y, x) == rggb()(y + dy, x + dx));
    assert(m(y + 2, x) == rggb()(y + 2 + dy, x + dx));
    assert(m(y, x + 2) == rggb()(y + dy, x + 2 + dx));
}

/// Two pixels are both green, or both not, when they are an even number of steps apart.
pub proof fn lemma_checkerboard(m: Mosaic, y: int, x: int, r: int, c: int)
    requires
        bayer(m),
    ensures
        (is_green(m, y, x) == is_green(m, r, c)) <==> (y + x) % 2 == (r + c) % 2,
{
    let (dx, dy) = choose|dx: int, dy: int| m == #[trigger] shifted(rggb(), dx, dy);
    assert(m(y, x) == rggb()(y + dy, x + dx));
    assert(m(r, c) == rggb()(r + dy, c + dx));
}

/// Reflection leaves a coordinate next to one of the axis at an odd distance from it, unless there
/// is no other.
pub proof fn lemma_mirror_neighbour(i: int, d: int, n: int)
    requires
        0 <= i < n,
        d == -1 || d == 1,
    ensures
        0 <= mirror(i + d, n) < n,
        n == 1 ==> mirror(i + d, n) == i,
        n > 1 ==> (mirror(i + d, n) + i) % 2 == 1,
{
    lemma_mirror_range(i + d, n);
    if n > 1 {
        lemma_mirror_once(i + d, n);
    }
}

/// While only pixels of one kind (green, or not green) are rewritten, a pixel of that kind that
/// has not been visited sees itself and its neighbours as they were.
pub proof fn lemma_neighbours<P>(
    m: Mosaic,
    cur: Image<P>,
    before: Image<P>,
    after: Image<P>,
    y: int,
    x: int,
    vertical: bool,
)
    requires
        bayer(m),
        partway(cur, before, after, y, x),
        cur.contains(y, x),
        forall|r: int, c: int| #[trigger]
            before.contains(r, c) && is_green(m, r, c) != is_green(m, y, x) ==> after.px(r, c)
                == before.px(r, c),
    ensures
        cur.px(y, x) == before.px(y, x),
        beside(cur, vertical, y, x, -1) == beside(before, vertical, y, x, -1),
        beside(cur, vertical, y, x, 0) == beside(before, vertical, y, x, 0),
        beside(cur, vertical, y, x, 1) == beside(before, vertical, y, x, 1),
{
    lemma_size(cur, before, after, y, x);
    lemma_pixel(cur, before, after, y, x, y, x);
    let h = cur.height as int;
    let w = cur.width as int;
    lemma_mirror_range(y, h);
    lemma_mirror_range(x, w);
    assert forall|d: int| d == -1 || d == 1 implies #[trigger] beside(cur, vertical, y, x, d)
        == beside(before, vertical, y, x, d) by {
        let (r, c) = if vertical {
            (mirror(y + d, h), x)
        } else {
            (y, mirror(x + d, w))
        };
        if vertical {
            lemma_mirror_neighbour(y, d, h);
        } else {
            lemma_mirror_neighbour(x, d, w);
        }
        lemma_checkerboard(m, y, x, r, c);
        assert(before.contains(r, c));
        lemma_pixel(cur, before, after, y, x, r, c);
    }
}

/// Reflection at the edges of an image leads from a filter to one of the same colour, as long as
/// there are two pixels in either direction.
pub proof fn law_reflection_keeps_color(m: Mosaic, y: int, x: int, height: int, width: int)
    requires
        bayer(m),
        1 < height,
        1 < width,
    ensures
        m(mirror(y, height), mirror(x, width)) == m(y, x),
{
    let (dx, dy) = choose|dx: int, dy: int| m == #[trigger] shifted(rggb(), dx, dy);
    let r = mirror(y, height);
    let c = mirror(x, width);
    lemma_mirror_parity(y, height);
    lemma_mirror_parity(x, width);
    assert(m(y, x) == rggb()(y + dy, x + dx));
    assert(m(r, c) == rggb()(r + dy, c + dx));
}

/// A coordinate is reflected over an even distance.
pub proof fn lemma_mirror_parity(i: int, n: int)
    requires
        1 < n,
    ensures
        mirror(i, n) % 2 == i % 2,
{
    let p = 2 * (n - 1);
    let q = i / p;
    vstd::arithmetic::div_mod::lemma_fundamental_div_mod(i, p);
    assert(p * q == 2 * ((n - 1) * q)) by (nonlinear_arith)
        requires
            p == 2 * (n - 1),
    ;
}

} // verus!
