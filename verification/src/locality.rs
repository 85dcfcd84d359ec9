//! How far the colours of a pixel depend on what is measured around it.

use crate::bayer::{lemma_checkerboard, lemma_mirror_neighbour};
use crate::cfa::{bayer, law_bayer_from_anywhere, shifted, Mosaic, CFA_COLOR_G};
use crate::geometry::Area;
use crate::image::{lemma_mirror_once, lemma_mirror_range, mirror, Image};
use crate::model::{
    across, along, beside, colors_at_green, colors_at_opposite, cost_plane, cost_taps,
    direction_plane, filled_green, gradient_plane, green_plane, green_taps, is_green, menon,
    neighbour_color, opposite, raised_by_three, raised_by_two, refined_at_green,
    refined_at_opposite, refined_green,
};
use crate::sample::{num, Sample};
use vstd::prelude::*;

verus! {

/// A stretch of `part` coordinates, from `off` on, of an axis of length `len`. What lies at the
/// coordinates `lo .. hi` of the stretch is known; they may go beyond its ends.
pub struct Stretch {
    pub len: int,
    pub off: int,
    pub part: int,
    pub lo: int,
    pub hi: int,
}

impl Stretch {
    /// The stretch is all of the axis, or long enough for reflection at one of its ends not to be
    /// seen from the other. The middle of what is known lies in the stretch.
    pub open spec fn roomy(self) -> bool {
        &&& 0 <= self.off
        &&& 0 < self.part
        &&& self.off + self.part <= self.len
        &&& self.part == self.len || 16 < self.part
        &&& 0 <= self.lo + self.hi - 1 <= 2 * (self.part - 1)
    }

    /// Coordinate `p` of the stretch has `before` coordinates of it on one side and `behind` on
    /// the other, unless it ends there with the axis; and as many that are known.
    pub open spec fn clear(self, p: int, before: int, behind: int) -> bool {
        &&& 0 <= p < self.part
        &&& self.off == 0 || before <= p
        &&& self.off + self.part == self.len || p + behind < self.part
        &&& self.lo + before <= p
        &&& p + behind < self.hi
    }
}

/// Reflection does not lead away from the axis: no further inside than the coordinate was outside.
proof fn lemma_mirror_closer(i: int, n: int)
    requires
        0 < n,
    ensures
        i < 0 ==> mirror(i, n) <= -i,
        i >= n ==> mirror(i, n) >= 2 * (n - 1) - i,
{
    lemma_mirror_range(i, n);
    if 1 < n && -n < i < 2 * n - 1 {
        lemma_mirror_once(i, n);
    }
}

/// A step that stays clear of the ends of a stretch leads to the same place in the stretch and on
/// the axis, and to where as much is known as was before the step.
proof fn lemma_step(s: Stretch, p: int, d: int, before: int, behind: int)
    requires
        s.roomy(),
        -2 <= d <= 2,
        0 <= before <= 8,
        0 <= behind <= 8,
        s.clear(p, before, behind),
        d < 0 ==> s.clear(p, before - d, behind),
        d > 0 ==> s.clear(p, before, behind + d),
    ensures
        s.off + mirror(p + d, s.part) == mirror(s.off + p + d, s.len),
        before == behind ==> s.clear(mirror(p + d, s.part), before, behind),
        (0 <= p + d < s.part) == (0 <= s.off + p + d < s.len),
        0 <= p + d < s.part ==> s.clear(p + d, before, behind),
{
    lemma_mirror_range(p + d, s.part);
    lemma_mirror_closer(p + d, s.part);
    if s.part == s.len {
        lemma_mirror_range(s.off + p + d, s.len);
    } else {
        lemma_mirror_once(p + d, s.part);
        lemma_mirror_once(s.off + p + d, s.len);
    }
}

/// A tile of an image, and the pixels that are known, counted from the first of the tile.
pub struct Frame {
    pub width: int,
    pub height: int,
    pub area: Area,
    pub known: Area,
}

impl Frame {
    /// A tile of which all is known.
    pub open spec fn tile(width: int, height: int, area: Area) -> Self {
        Frame {
            width,
            height,
            area,
            known: Area { x: -8, y: -8, w: area.w + 16, h: area.h + 16 },
        }
    }

    /// All of an image, of which eight pixels around `(y, x)` are known on all sides.
    pub open spec fn around(width: int, height: int, y: int, x: int) -> Self {
        Frame {
            width,
            height,
            area: Area { x: 0, y: 0, w: width, h: height },
            known: Area { x: x - 8, y: y - 8, w: 17, h: 17 },
        }
    }

    pub open spec fn xs(self) -> Stretch {
        Stretch {
            len: self.width,
            off: self.area.x,
            part: self.area.w,
            lo: self.known.x,
            hi: self.known.x + self.known.w,
        }
    }

    pub open spec fn ys(self) -> Stretch {
        Stretch {
            len: self.height,
            off: self.area.y,
            part: self.area.h,
            lo: self.known.y,
            hi: self.known.y + self.known.h,
        }
    }

    pub open spec fn roomy(self) -> bool {
        self.xs().roomy() && self.ys().roomy()
    }

    /// The pixel `(y, x)` of the tile has that many pixels of the tile to the left, to the right,
    /// above and below, unless the tile ends there with the image; and as many that are known.
    pub open spec fn clear(
        self,
        y: int,
        x: int,
        left: int,
        right: int,
        above: int,
        below: int,
    ) -> bool {
        self.xs().clear(x, left, right) && self.ys().clear(y, above, below)
    }

    /// `part` is of the size of the tile and `whole` of that of the image.
    pub open spec fn fits<P>(self, part: Image<P>, whole: Image<P>) -> bool {
        &&& part.width == self.area.w
        &&& part.height == self.area.h
        &&& whole.width == self.width
        &&& whole.height == self.height
    }

    /// `part` agrees with `whole` where the tile is that clear.
    pub open spec fn agree<P>(
        self,
        part: Image<P>,
        whole: Image<P>,
        left: int,
        right: int,
        above: int,
        below: int,
    ) -> bool {
        &&& self.fits(part, whole)
        &&& forall|y: int, x: int| #[trigger]
            self.clear(y, x, left, right, above, below) ==> part.px(y, x) == whole.px(
                self.area.y + y,
                self.area.x + x,
            )
    }

    /// The pixel has `k` pixels of the tile on all sides, unless the tile ends with the image.
    pub open spec fn inner(self, y: int, x: int, k: int) -> bool {
        self.clear(y, x, k, k, k, k)
    }

    /// `part` agrees with `whole` at the pixels that are green, or at those that are not, where
    /// the tile has `k` pixels on all sides.
    pub open spec fn agree_kind<P>(
        self,
        part: Image<P>,
        whole: Image<P>,
        cfa: Mosaic,
        green: bool,
        k: int,
    ) -> bool {
        &&& self.fits(part, whole)
        &&& forall|y: int, x: int|
            #![trigger self.inner(y, x, k)]
            self.inner(y, x, k) && is_green(cfa, y, x) == green ==> part.px(y, x) == whole.px(
                self.area.y + y,
                self.area.x + x,
            )
    }
}

/// A pixel `d` steps away is the same in the tile and in the image.
proof fn lemma_beside<P>(
    f: Frame,
    part: Image<P>,
    whole: Image<P>,
    vertical: bool,
    y: int,
    x: int,
    d: int,
    h: int,
    v: int,
)
    requires
        f.roomy(),
        f.agree(part, whole, h, h, v, v),
        -2 <= d <= 2,
        0 <= h <= 8,
        0 <= v <= 8,
        f.clear(y, x, h, h, v, v),
        !vertical && d < 0 ==> f.xs().clear(x, h - d, h),
        !vertical && d > 0 ==> f.xs().clear(x, h, h + d),
        vertical && d < 0 ==> f.ys().clear(y, v - d, v),
        vertical && d > 0 ==> f.ys().clear(y, v, v + d),
    ensures
        beside(part, vertical, y, x, d) == beside(
            whole,
            vertical,
            f.area.y + y,
            f.area.x + x,
            d,
        ),
{
    let dy = if vertical {
        d
    } else {
        0
    };
    let dx = if vertical {
        0
    } else {
        d
    };
    lemma_step(f.ys(), y, dy, v, v);
    lemma_step(f.xs(), x, dx, h, h);
    assert(f.clear(
        mirror(y + dy, part.height as int),
        mirror(x + dx, part.width as int),
        h,
        h,
        v,
        v,
    ));
}

/// Interpolated green depends on two pixels on either side, in the direction of interpolation.
proof fn lemma_green_plane<T: Sample>(
    f: Frame,
    raw_t: Image<T>,
    raw: Image<T>,
    cfa: Mosaic,
    vertical: bool,
    before_t: Image<T>,
    before: Image<T>,
)
    requires
        f.roomy(),
        f.agree(raw_t, raw, 0, 0, 0, 0),
        f.agree(before_t, before, 0, 0, 0, 0),
    ensures
        ({
            let t = green_plane(raw_t, shifted(cfa, f.area.x, f.area.y), vertical, before_t);
            let w = green_plane(raw, cfa, vertical, before);
            if vertical {
                f.agree(t, w, 0, 0, 2, 2)
            } else {
                f.agree(t, w, 2, 2, 0, 0)
            }
        }),
{
    let (h, v) = if vertical {
        (0int, 2int)
    } else {
        (2int, 0int)
    };
    let cfa_t = shifted(cfa, f.area.x, f.area.y);
    let t = green_plane(raw_t, cfa_t, vertical, before_t);
    let w = green_plane(raw, cfa, vertical, before);
    assert forall|y: int, x: int| #[trigger] f.clear(y, x, h, h, v, v) implies t.px(y, x) == w.px(
        f.area.y + y,
        f.area.x + x,
    ) by {
        let yy = f.area.y + y;
        let xx = f.area.x + x;
        assert(f.clear(y, x, 0, 0, 0, 0));
        assert(cfa_t(y, x) == cfa(y + f.area.y, x + f.area.x));
        let a = green_taps(raw_t, vertical, y, x);
        let b = green_taps(raw, vertical, yy, xx);
        assert forall|i: int| 0 <= i < 5 implies a[i] == b[i] by {
            lemma_beside(f, raw_t, raw, vertical, y, x, i - 2, 0, 0);
        }
        assert(a =~= b);
    }
}

/// A gradient depends on the green of the pixel and of the one two steps ahead.
proof fn lemma_gradient_plane<T: Sample>(
    f: Frame,
    raw_t: Image<T>,
    raw: Image<T>,
    cfa: Mosaic,
    vertical: bool,
    green_t: Image<T>,
    green: Image<T>,
)
    requires
        f.roomy(),
        f.agree(raw_t, raw, 0, 0, 0, 0),
        vertical ==> f.agree(green_t, green, 0, 0, 2, 2),
        !vertical ==> f.agree(green_t, green, 2, 2, 0, 0),
    ensures
        ({
            let t = gradient_plane(raw_t, shifted(cfa, f.area.x, f.area.y), green_t, vertical);
            let w = gradient_plane(raw, cfa, green, vertical);
            if vertical {
                f.agree(t, w, 0, 0, 2, 4)
            } else {
                f.agree(t, w, 2, 4, 0, 0)
            }
        }),
{
    let (h, right, v, below) = if vertical {
        (0int, 0int, 2int, 4int)
    } else {
        (2int, 4int, 0int, 0int)
    };
    let cfa_t = shifted(cfa, f.area.x, f.area.y);
    let t = gradient_plane(raw_t, cfa_t, green_t, vertical);
    let w = gradient_plane(raw, cfa, green, vertical);
    assert forall|y: int, x: int| #[trigger] f.clear(y, x, h, right, v, below) implies t.px(y, x)
        == w.px(f.area.y + y, f.area.x + x) by {
        assert(cfa_t(y, x) == cfa(y + f.area.y, x + f.area.x));
        lemma_beside(f, raw_t, raw, vertical, y, x, 0, 0, 0);
        lemma_beside(f, raw_t, raw, vertical, y, x, 2, 0, 0);
        lemma_beside(f, green_t, green, vertical, y, x, 0, h, v);
        lemma_beside(f, green_t, green, vertical, y, x, 2, h, v);
    }
}

/// A cost depends on gradients up to two steps back, and up to two steps to either side.
proof fn lemma_cost_plane<T: Sample>(
    f: Frame,
    cfa: Mosaic,
    vertical: bool,
    gradients_t: Image<T>,
    gradients: Image<T>,
)
    requires
        f.roomy(),
        vertical ==> f.agree(gradients_t, gradients, 0, 0, 2, 4),
        !vertical ==> f.agree(gradients_t, gradients, 2, 4, 0, 0),
    ensures
        f.agree(
            cost_plane(gradients_t, shifted(cfa, f.area.x, f.area.y), vertical),
            cost_plane(gradients, cfa, vertical),
            4,
            4,
            4,
            4,
        ),
{
    let cfa_t = shifted(cfa, f.area.x, f.area.y);
    let t = cost_plane(gradients_t, cfa_t, vertical);
    let w = cost_plane(gradients, cfa, vertical);
    assert forall|y: int, x: int| #[trigger] f.clear(y, x, 4, 4, 4, 4) implies t.px(y, x) == w.px(
        f.area.y + y,
        f.area.x + x,
    ) by {
        let yy = f.area.y + y;
        let xx = f.area.x + x;
        assert(cfa_t(y, x) == cfa(y + f.area.y, x + f.area.x));
        let a = cost_taps(gradients_t, vertical, y, x);
        let b = cost_taps(gradients, vertical, yy, xx);
        assert forall|i: int| 0 <= i < 8 implies a[i] == b[i] by {
            let p = along()[i];
            let q = across()[i];
            assert(-2 <= p <= 0 && -2 <= q <= 2);
            if vertical {
                lemma_step(f.ys(), y, p, 2, 4);
                lemma_step(f.xs(), x, q, 0, 0);
                if gradients_t.contains(y + p, x + q) {
                    assert(f.clear(y + p, x + q, 0, 0, 2, 4));
                }
            } else {
                lemma_step(f.ys(), y, q, 0, 0);
                lemma_step(f.xs(), x, p, 2, 4);
                if gradients_t.contains(y + q, x + p) {
                    assert(f.clear(y + q, x + p, 2, 4, 0, 0));
                }
            }
        }
        assert(a =~= b);
    }
}

/// The direction chosen at a pixel depends on four pixels on all sides.
proof fn lemma_direction_plane<T: Sample>(
    f: Frame,
    raw_t: Image<T>,
    raw: Image<T>,
    cfa: Mosaic,
    gh_t: Image<T>,
    gh: Image<T>,
    gv_t: Image<T>,
    gv: Image<T>,
    before_t: Image<u16>,
    before: Image<u16>,
)
    requires
        f.roomy(),
        f.agree(raw_t, raw, 0, 0, 0, 0),
        f.agree(gh_t, gh, 2, 2, 0, 0),
        f.agree(gv_t, gv, 0, 0, 2, 2),
        f.agree(before_t, before, 0, 0, 0, 0),
    ensures
        f.agree(
            direction_plane(raw_t, shifted(cfa, f.area.x, f.area.y), gh_t, gv_t, before_t),
            direction_plane(raw, cfa, gh, gv, before),
            4,
            4,
            4,
            4,
        ),
{
    let cfa_t = shifted(cfa, f.area.x, f.area.y);
    let t = direction_plane(raw_t, cfa_t, gh_t, gv_t, before_t);
    let w = direction_plane(raw, cfa, gh, gv, before);
    lemma_gradient_plane(f, raw_t, raw, cfa, false, gh_t, gh);
    lemma_gradient_plane(f, raw_t, raw, cfa, true, gv_t, gv);
    lemma_cost_plane(
        f,
        cfa,
        false,
        gradient_plane(raw_t, cfa_t, gh_t, false),
        gradient_plane(raw, cfa, gh, false),
    );
    lemma_cost_plane(
        f,
        cfa,
        true,
        gradient_plane(raw_t, cfa_t, gv_t, true),
        gradient_plane(raw, cfa, gv, true),
    );
    assert forall|y: int, x: int| #[trigger] f.clear(y, x, 4, 4, 4, 4) implies t.px(y, x) == w.px(
        f.area.y + y,
        f.area.x + x,
    ) by {
        assert(f.clear(y, x, 0, 0, 0, 0));
        assert(cfa_t(y, x) == cfa(y + f.area.y, x + f.area.x));
    }
}

/// Reflected at the edges, a step leads to a pixel of the other kind, or nowhere.
pub proof fn lemma_other_kind(
    cfa: Mosaic,
    vertical: bool,
    y: int,
    x: int,
    d: int,
    height: int,
    width: int,
)
    requires
        bayer(cfa),
        0 <= y < height,
        0 <= x < width,
        -1 <= d <= 1,
    ensures
        ({
            let r = mirror(if vertical { y + d } else { y }, height);
            let c = mirror(if vertical { x } else { x + d }, width);
            r == y && c == x || is_green(cfa, r, c) != is_green(cfa, y, x)
        }),
{
    lemma_mirror_range(y, height);
    lemma_mirror_range(x, width);
    if d != 0 {
        if vertical {
            lemma_mirror_neighbour(y, d, height);
            lemma_checkerboard(cfa, y, x, mirror(y + d, height), x);
        } else {
            lemma_mirror_neighbour(x, d, width);
            lemma_checkerboard(cfa, y, x, y, mirror(x + d, width));
        }
    }
}

/// A pixel next to one that has `k` pixels on all sides is the same in the tile and in the image,
/// where pixels of the other kind agree that have one pixel less.
proof fn lemma_beside_kind<P>(
    f: Frame,
    part: Image<P>,
    whole: Image<P>,
    cfa_t: Mosaic,
    vertical: bool,
    y: int,
    x: int,
    d: int,
    k: int,
    j: int,
)
    requires
        f.roomy(),
        bayer(cfa_t),
        0 <= j < k <= 8,
        f.inner(y, x, k),
        f.agree_kind(part, whole, cfa_t, !is_green(cfa_t, y, x), j),
        f.agree_kind(part, whole, cfa_t, is_green(cfa_t, y, x), k),
        -1 <= d <= 1,
    ensures
        beside(part, vertical, y, x, d) == beside(
            whole,
            vertical,
            f.area.y + y,
            f.area.x + x,
            d,
        ),
{
    let dy = if vertical {
        d
    } else {
        0
    };
    let dx = if vertical {
        0
    } else {
        d
    };
    let h = part.height as int;
    let w = part.width as int;
    let r = mirror(y + dy, h);
    let c = mirror(x + dx, w);
    lemma_step(f.ys(), y, dy, j, j);
    lemma_step(f.xs(), x, dx, j, j);
    assert(f.inner(r, c, j));
    lemma_other_kind(cfa_t, vertical, y, x, d, h, w);
    assert(part.px(r, c) == whole.px(f.area.y + r, f.area.x + c));
}

/// What agrees at pixels with `j` pixels on all sides agrees at those with more.
proof fn lemma_weaken<P>(
    f: Frame,
    part: Image<P>,
    whole: Image<P>,
    cfa_t: Mosaic,
    green: bool,
    j: int,
    k: int,
)
    requires
        f.agree_kind(part, whole, cfa_t, green, j),
        j <= k,
    ensures
        f.agree_kind(part, whole, cfa_t, green, k),
{
    assert forall|y: int, x: int|
        #![trigger f.inner(y, x, k)]
        f.inner(y, x, k) && is_green(cfa_t, y, x) == green implies part.px(y, x) == whole.px(
        f.area.y + y,
        f.area.x + x,
    ) by {
        assert(f.inner(y, x, j));
    }
}

/// Filled green depends on four pixels on all sides where it is not measured.
proof fn lemma_filled_green<T: Sample>(
    f: Frame,
    raw_t: Image<T>,
    raw: Image<T>,
    cfa: Mosaic,
    gh_t: Image<T>,
    gh: Image<T>,
    gv_t: Image<T>,
    gv: Image<T>,
    dir_t: Image<u16>,
    dir: Image<u16>,
    before_t: Image<[T; 3]>,
    before: Image<[T; 3]>,
)
    requires
        f.roomy(),
        f.agree(raw_t, raw, 0, 0, 0, 0),
        f.agree(gh_t, gh, 2, 2, 0, 0),
        f.agree(gv_t, gv, 0, 0, 2, 2),
        f.agree(dir_t, dir, 4, 4, 4, 4),
        f.agree(before_t, before, 0, 0, 0, 0),
    ensures
        ({
            let cfa_t = shifted(cfa, f.area.x, f.area.y);
            let t = filled_green(raw_t, cfa_t, gh_t, gv_t, dir_t, before_t);
            let w = filled_green(raw, cfa, gh, gv, dir, before);
            &&& f.agree_kind(t, w, cfa_t, true, 0)
            &&& f.agree_kind(t, w, cfa_t, false, 4)
        }),
{
    let cfa_t = shifted(cfa, f.area.x, f.area.y);
    let t = filled_green(raw_t, cfa_t, gh_t, gv_t, dir_t, before_t);
    let w = filled_green(raw, cfa, gh, gv, dir, before);
    assert forall|y: int, x: int|
        #![trigger f.inner(y, x, 0)]
        f.inner(y, x, 0) && is_green(cfa_t, y, x) == true implies t.px(y, x) == w.px(
        f.area.y + y,
        f.area.x + x,
    ) by {
        assert(f.clear(y, x, 0, 0, 0, 0));
        assert(cfa_t(y, x) == cfa(y + f.area.y, x + f.area.x));
    }
    assert forall|y: int, x: int|
        #![trigger f.inner(y, x, 4)]
        f.inner(y, x, 4) && is_green(cfa_t, y, x) == false implies t.px(y, x) == w.px(
        f.area.y + y,
        f.area.x + x,
    ) by {
        assert(f.clear(y, x, 0, 0, 0, 0));
        assert(f.clear(y, x, 2, 2, 0, 0));
        assert(f.clear(y, x, 0, 0, 2, 2));
        assert(f.clear(y, x, 4, 4, 4, 4));
        assert(cfa_t(y, x) == cfa(y + f.area.y, x + f.area.x));
    }
}

/// Red and blue at a green pixel depend on five pixels on all sides.
proof fn lemma_colors_at_green<T: Sample>(
    f: Frame,
    raw_t: Image<T>,
    raw: Image<T>,
    cfa: Mosaic,
    rgb_t: Image<[T; 3]>,
    rgb: Image<[T; 3]>,
)
    requires
        f.roomy(),
        bayer(cfa),
        f.agree(raw_t, raw, 0, 0, 0, 0),
        f.agree_kind(rgb_t, rgb, shifted(cfa, f.area.x, f.area.y), true, 0),
        f.agree_kind(rgb_t, rgb, shifted(cfa, f.area.x, f.area.y), false, 4),
    ensures
        ({
            let cfa_t = shifted(cfa, f.area.x, f.area.y);
            let t = colors_at_green(raw_t, cfa_t, rgb_t);
            let w = colors_at_green(raw, cfa, rgb);
            &&& f.agree_kind(t, w, cfa_t, true, 5)
            &&& f.agree_kind(t, w, cfa_t, false, 4)
        }),
{
    let cfa_t = shifted(cfa, f.area.x, f.area.y);
    let t = colors_at_green(raw_t, cfa_t, rgb_t);
    let w = colors_at_green(raw, cfa, rgb);
    law_bayer_from_anywhere(cfa, f.area.x, f.area.y);
    lemma_weaken(f, rgb_t, rgb, cfa_t, true, 0, 5);
    assert forall|y: int, x: int|
        #![trigger f.inner(y, x, 5)]
        f.inner(y, x, 5) && is_green(cfa_t, y, x) == true implies t.px(y, x) == w.px(
        f.area.y + y,
        f.area.x + x,
    ) by {
        let yy = f.area.y + y;
        let xx = f.area.x + x;
        assert(cfa_t(y, x) == cfa(yy, xx));
        assert(cfa_t(y, x + 1) == cfa(yy, xx + 1));
        assert(cfa_t(y + 1, x) == cfa(yy + 1, xx));
        assert forall|vertical: bool| #[trigger]
            neighbour_color(raw_t, rgb_t, vertical, y, x) == neighbour_color(
                raw,
                rgb,
                vertical,
                yy,
                xx,
            ) by {
            lemma_beside(f, raw_t, raw, vertical, y, x, -1, 0, 0);
            lemma_beside(f, raw_t, raw, vertical, y, x, 1, 0, 0);
            lemma_beside_kind(f, rgb_t, rgb, cfa_t, vertical, y, x, -1, 5, 4);
            lemma_beside_kind(f, rgb_t, rgb, cfa_t, vertical, y, x, 1, 5, 4);
        }
    }
    assert forall|y: int, x: int|
        #![trigger f.inner(y, x, 4)]
        f.inner(y, x, 4) && is_green(cfa_t, y, x) == false implies t.px(y, x) == w.px(
        f.area.y + y,
        f.area.x + x,
    ) by {
        assert(f.clear(y, x, 0, 0, 0, 0));
        assert(cfa_t(y, x) == cfa(y + f.area.y, x + f.area.x));
    }
}

/// A mean over neighbours of the other kind depends on one pixel more than they do.
proof fn lemma_raised<T: Sample>(
    f: Frame,
    cfa_t: Mosaic,
    rgb_t: Image<[T; 3]>,
    rgb: Image<[T; 3]>,
    vertical: bool,
    y: int,
    x: int,
    to: usize,
    from: usize,
    k: int,
    j: int,
)
    requires
        f.roomy(),
        bayer(cfa_t),
        0 <= j < k <= 8,
        f.inner(y, x, k),
        f.agree_kind(rgb_t, rgb, cfa_t, !is_green(cfa_t, y, x), j),
        f.agree_kind(rgb_t, rgb, cfa_t, is_green(cfa_t, y, x), k),
    ensures
        raised_by_two(rgb_t, vertical, y, x, to, from) == raised_by_two(
            rgb,
            vertical,
            f.area.y + y,
            f.area.x + x,
            to,
            from,
        ),
        raised_by_three(rgb_t, vertical, y, x, to, from) == raised_by_three(
            rgb,
            vertical,
            f.area.y + y,
            f.area.x + x,
            to,
            from,
        ),
{
    lemma_beside_kind(f, rgb_t, rgb, cfa_t, vertical, y, x, -1, k, j);
    lemma_beside_kind(f, rgb_t, rgb, cfa_t, vertical, y, x, 0, k, j);
    lemma_beside_kind(f, rgb_t, rgb, cfa_t, vertical, y, x, 1, k, j);
}

/// Blue at a red pixel, and red at a blue one, depend on six pixels on all sides.
proof fn lemma_colors_at_opposite<T: Sample>(
    f: Frame,
    cfa: Mosaic,
    dir_t: Image<u16>,
    dir: Image<u16>,
    rgb_t: Image<[T; 3]>,
    rgb: Image<[T; 3]>,
)
    requires
        f.roomy(),
        bayer(cfa),
        f.agree(dir_t, dir, 4, 4, 4, 4),
        f.agree_kind(rgb_t, rgb, shifted(cfa, f.area.x, f.area.y), true, 5),
        f.agree_kind(rgb_t, rgb, shifted(cfa, f.area.x, f.area.y), false, 4),
    ensures
        ({
            let cfa_t = shifted(cfa, f.area.x, f.area.y);
            let t = colors_at_opposite(cfa_t, dir_t, rgb_t);
            let w = colors_at_opposite(cfa, dir, rgb);
            &&& f.agree_kind(t, w, cfa_t, true, 5)
            &&& f.agree_kind(t, w, cfa_t, false, 6)
        }),
{
    let cfa_t = shifted(cfa, f.area.x, f.area.y);
    let t = colors_at_opposite(cfa_t, dir_t, rgb_t);
    let w = colors_at_opposite(cfa, dir, rgb);
    law_bayer_from_anywhere(cfa, f.area.x, f.area.y);
    lemma_weaken(f, rgb_t, rgb, cfa_t, false, 4, 6);
    assert forall|y: int, x: int|
        #![trigger f.inner(y, x, 6)]
        f.inner(y, x, 6) && is_green(cfa_t, y, x) == false implies t.px(y, x) == w.px(
        f.area.y + y,
        f.area.x + x,
    ) by {
        let yy = f.area.y + y;
        let xx = f.area.x + x;
        assert(cfa_t(y, x) == cfa(yy, xx));
        assert(f.clear(y, x, 4, 4, 4, 4));
        let vertical = dir.px(yy, xx) != 1;
        lemma_raised(f, cfa_t, rgb_t, rgb, vertical, y, x, opposite(cfa(yy, xx)), cfa(yy, xx), 6, 5);
    }
    assert forall|y: int, x: int|
        #![trigger f.inner(y, x, 5)]
        f.inner(y, x, 5) && is_green(cfa_t, y, x) == true implies t.px(y, x) == w.px(
        f.area.y + y,
        f.area.x + x,
    ) by {
        assert(cfa_t(y, x) == cfa(y + f.area.y, x + f.area.x));
    }
}

/// Refined green depends on six pixels on all sides.
proof fn lemma_refined_green<T: Sample>(
    f: Frame,
    cfa: Mosaic,
    dir_t: Image<u16>,
    dir: Image<u16>,
    rgb_t: Image<[T; 3]>,
    rgb: Image<[T; 3]>,
)
    requires
        f.roomy(),
        bayer(cfa),
        f.agree(dir_t, dir, 4, 4, 4, 4),
        f.agree_kind(rgb_t, rgb, shifted(cfa, f.area.x, f.area.y), true, 5),
        f.agree_kind(rgb_t, rgb, shifted(cfa, f.area.x, f.area.y), false, 6),
    ensures
        ({
            let cfa_t = shifted(cfa, f.area.x, f.area.y);
            let t = refined_green(cfa_t, dir_t, rgb_t);
            let w = refined_green(cfa, dir, rgb);
            &&& f.agree_kind(t, w, cfa_t, true, 5)
            &&& f.agree_kind(t, w, cfa_t, false, 6)
        }),
{
    let cfa_t = shifted(cfa, f.area.x, f.area.y);
    let t = refined_green(cfa_t, dir_t, rgb_t);
    let w = refined_green(cfa, dir, rgb);
    law_bayer_from_anywhere(cfa, f.area.x, f.area.y);
    lemma_weaken(f, rgb_t, rgb, cfa_t, false, 6, 6);
    assert forall|y: int, x: int|
        #![trigger f.inner(y, x, 6)]
        f.inner(y, x, 6) && is_green(cfa_t, y, x) == false implies t.px(y, x) == w.px(
        f.area.y + y,
        f.area.x + x,
    ) by {
        let yy = f.area.y + y;
        let xx = f.area.x + x;
        assert(cfa_t(y, x) == cfa(yy, xx));
        assert(f.clear(y, x, 4, 4, 4, 4));
        let vertical = dir.px(yy, xx) != 1;
        lemma_raised(f, cfa_t, rgb_t, rgb, vertical, y, x, CFA_COLOR_G, cfa(yy, xx), 6, 5);
    }
    assert forall|y: int, x: int|
        #![trigger f.inner(y, x, 5)]
        f.inner(y, x, 5) && is_green(cfa_t, y, x) == true implies t.px(y, x) == w.px(
        f.area.y + y,
        f.area.x + x,
    ) by {
        assert(cfa_t(y, x) == cfa(y + f.area.y, x + f.area.x));
    }
}

/// Refined red and blue at a green pixel depend on seven pixels on all sides.
proof fn lemma_refined_at_green<T: Sample>(
    f: Frame,
    cfa: Mosaic,
    rgb_t: Image<[T; 3]>,
    rgb: Image<[T; 3]>,
)
    requires
        f.roomy(),
        bayer(cfa),
        f.agree_kind(rgb_t, rgb, shifted(cfa, f.area.x, f.area.y), true, 5),
        f.agree_kind(rgb_t, rgb, shifted(cfa, f.area.x, f.area.y), false, 6),
    ensures
        ({
            let cfa_t = shifted(cfa, f.area.x, f.area.y);
            let t = refined_at_green(cfa_t, rgb_t);
            let w = refined_at_green(cfa, rgb);
            &&& f.agree_kind(t, w, cfa_t, true, 7)
            &&& f.agree_kind(t, w, cfa_t, false, 6)
        }),
{
    let cfa_t = shifted(cfa, f.area.x, f.area.y);
    let t = refined_at_green(cfa_t, rgb_t);
    let w = refined_at_green(cfa, rgb);
    law_bayer_from_anywhere(cfa, f.area.x, f.area.y);
    lemma_weaken(f, rgb_t, rgb, cfa_t, true, 5, 7);
    assert forall|y: int, x: int|
        #![trigger f.inner(y, x, 7)]
        f.inner(y, x, 7) && is_green(cfa_t, y, x) == true implies t.px(y, x) == w.px(
        f.area.y + y,
        f.area.x + x,
    ) by {
        let yy = f.area.y + y;
        let xx = f.area.x + x;
        assert(cfa_t(y, x) == cfa(yy, xx));
        assert(cfa_t(y, x + 1) == cfa(yy, xx + 1));
        assert(cfa_t(y + 1, x) == cfa(yy + 1, xx));
        lemma_raised(f, cfa_t, rgb_t, rgb, false, y, x, cfa(yy, xx + 1), CFA_COLOR_G, 7, 6);
        lemma_raised(f, cfa_t, rgb_t, rgb, true, y, x, cfa(yy + 1, xx), CFA_COLOR_G, 7, 6);
    }
    assert forall|y: int, x: int|
        #![trigger f.inner(y, x, 6)]
        f.inner(y, x, 6) && is_green(cfa_t, y, x) == false implies t.px(y, x) == w.px(
        f.area.y + y,
        f.area.x + x,
    ) by {
        assert(cfa_t(y, x) == cfa(y + f.area.y, x + f.area.x));
    }
}

/// Refined blue at a red pixel, and red at a blue one, depend on eight pixels on all sides.
proof fn lemma_refined_at_opposite<T: Sample>(
    f: Frame,
    cfa: Mosaic,
    dir_t: Image<u16>,
    dir: Image<u16>,
    rgb_t: Image<[T; 3]>,
    rgb: Image<[T; 3]>,
)
    requires
        f.roomy(),
        bayer(cfa),
        f.agree(dir_t, dir, 4, 4, 4, 4),
        f.agree_kind(rgb_t, rgb, shifted(cfa, f.area.x, f.area.y), true, 7),
        f.agree_kind(rgb_t, rgb, shifted(cfa, f.area.x, f.area.y), false, 6),
    ensures
        ({
            let cfa_t = shifted(cfa, f.area.x, f.area.y);
            let t = refined_at_opposite(cfa_t, dir_t, rgb_t);
            let w = refined_at_opposite(cfa, dir, rgb);
            &&& f.agree_kind(t, w, cfa_t, true, 7)
            &&& f.agree_kind(t, w, cfa_t, false, 8)
        }),
{
    let cfa_t = shifted(cfa, f.area.x, f.area.y);
    let t = refined_at_opposite(cfa_t, dir_t, rgb_t);
    let w = refined_at_opposite(cfa, dir, rgb);
    law_bayer_from_anywhere(cfa, f.area.x, f.area.y);
    lemma_weaken(f, rgb_t, rgb, cfa_t, false, 6, 8);
    assert forall|y: int, x: int|
        #![trigger f.inner(y, x, 8)]
        f.inner(y, x, 8) && is_green(cfa_t, y, x) == false implies t.px(y, x) == w.px(
        f.area.y + y,
        f.area.x + x,
    ) by {
        let yy = f.area.y + y;
        let xx = f.area.x + x;
        assert(cfa_t(y, x) == cfa(yy, xx));
        assert(f.clear(y, x, 4, 4, 4, 4));
        let vertical = dir.px(yy, xx) != 1;
        lemma_raised(f, cfa_t, rgb_t, rgb, vertical, y, x, opposite(cfa(yy, xx)), cfa(yy, xx), 8, 7);
    }
    assert forall|y: int, x: int|
        #![trigger f.inner(y, x, 7)]
        f.inner(y, x, 7) && is_green(cfa_t, y, x) == true implies t.px(y, x) == w.px(
        f.area.y + y,
        f.area.x + x,
    ) by {
        assert(cfa_t(y, x) == cfa(y + f.area.y, x + f.area.x));
    }
}

/// The colours of a pixel depend on nothing further than eight pixels away.
proof fn lemma_decided<T: Sample>(
    f: Frame,
    raw_t: Image<T>,
    raw: Image<T>,
    cfa: Mosaic,
    y: int,
    x: int,
)
    requires
        f.roomy(),
        bayer(cfa),
        f.agree(raw_t, raw, 0, 0, 0, 0),
        f.inner(y, x, 8),
    ensures
        menon(raw_t, shifted(cfa, f.area.x, f.area.y)).px(y, x) == menon(raw, cfa).px(
            f.area.y + y,
            f.area.x + x,
        ),
{
    let cfa_t = shifted(cfa, f.area.x, f.area.y);
    let zero = num::<T>(0);
    let blank_t = Image::constant(raw_t.width, raw_t.height, zero);
    let blank = Image::constant(raw.width, raw.height, zero);
    let black_t = Image::constant(raw_t.width, raw_t.height, [zero, zero, zero]);
    let black = Image::constant(raw.width, raw.height, [zero, zero, zero]);
    let unset_t = Image::constant(raw_t.width, raw_t.height, 0u16);
    let unset = Image::constant(raw.width, raw.height, 0u16);
    assert(f.agree(blank_t, blank, 0, 0, 0, 0));
    assert(f.agree(black_t, black, 0, 0, 0, 0));
    assert(f.agree(unset_t, unset, 0, 0, 0, 0));
    lemma_green_plane(f, raw_t, raw, cfa, false, blank_t, blank);
    lemma_green_plane(f, raw_t, raw, cfa, true, blank_t, blank);
    let gh_t = green_plane(raw_t, cfa_t, false, blank_t);
    let gh = green_plane(raw, cfa, false, blank);
    let gv_t = green_plane(raw_t, cfa_t, true, blank_t);
    let gv = green_plane(raw, cfa, true, blank);
    lemma_direction_plane(f, raw_t, raw, cfa, gh_t, gh, gv_t, gv, unset_t, unset);
    let dir_t = direction_plane(raw_t, cfa_t, gh_t, gv_t, unset_t);
    let dir = direction_plane(raw, cfa, gh, gv, unset);
    lemma_filled_green(f, raw_t, raw, cfa, gh_t, gh, gv_t, gv, dir_t, dir, black_t, black);
    let a_t = filled_green(raw_t, cfa_t, gh_t, gv_t, dir_t, black_t);
    let a = filled_green(raw, cfa, gh, gv, dir, black);
    lemma_colors_at_green(f, raw_t, raw, cfa, a_t, a);
    let b_t = colors_at_green(raw_t, cfa_t, a_t);
    let b = colors_at_green(raw, cfa, a);
    lemma_colors_at_opposite(f, cfa, dir_t, dir, b_t, b);
    let c_t = colors_at_opposite(cfa_t, dir_t, b_t);
    let c = colors_at_opposite(cfa, dir, b);
    lemma_refined_green(f, cfa, dir_t, dir, c_t, c);
    let d_t = refined_green(cfa_t, dir_t, c_t);
    let d = refined_green(cfa, dir, c);
    lemma_refined_at_green(f, cfa, d_t, d);
    let e_t = refined_at_green(cfa_t, d_t);
    let e = refined_at_green(cfa, d);
    lemma_refined_at_opposite(f, cfa, dir_t, dir, e_t, e);
    let z_t = refined_at_opposite(cfa_t, dir_t, e_t);
    let z = refined_at_opposite(cfa, dir, e);
    lemma_weaken(f, z_t, z, cfa_t, true, 7, 8);
}

/// The colours of a pixel depend on nothing further than eight pixels away: a tile that has eight
/// pixels around it on all sides, or ends there with the image, gives it the colours that the
/// whole image does.
pub proof fn law_eight_pixels_decide<T: Sample>(
    raw: Image<T>,
    cfa: Mosaic,
    area: Area,
    y: int,
    x: int,
)
    requires
        bayer(cfa),
        raw.covers(area),
        ({
            let f = Frame::tile(raw.width as int, raw.height as int, area);
            f.roomy() && f.inner(y, x, 8)
        }),
    ensures
        menon(raw.crop(area), shifted(cfa, area.x, area.y)).px(y, x) == menon(raw, cfa).px(
            area.y + y,
            area.x + x,
        ),
{
    let f = Frame::tile(raw.width as int, raw.height as int, area);
    assert(f.agree(raw.crop(area), raw, 0, 0, 0, 0));
    lemma_decided(f, raw.crop(area), raw, cfa, y, x);
}

/// Two mosaics of one size that agree up to eight pixels away from a pixel, as far as they have
/// pixels there, give it the same colours.
pub proof fn law_far_pixels_do_not_matter<T: Sample>(
    a: Image<T>,
    b: Image<T>,
    cfa: Mosaic,
    y: int,
    x: int,
)
    requires
        bayer(cfa),
        a.width == b.width,
        a.height == b.height,
        a.contains(y, x),
        forall|v: int, u: int| #[trigger]
            a.contains(v, u) && y - 8 <= v <= y + 8 && x - 8 <= u <= x + 8 ==> a.px(v, u) == b.px(
                v,
                u,
            ),
    ensures
        menon(a, cfa).px(y, x) == menon(b, cfa).px(y, x),
{
    let f = Frame::around(a.width as int, a.height as int, y, x);
    assert forall|v: int, u: int| #[trigger] f.clear(v, u, 0, 0, 0, 0) implies a.px(v, u) == b.px(
        f.area.y + v,
        f.area.x + u,
    ) by {
        assert(a.contains(v, u));
    }
    assert(shifted(cfa, 0, 0) =~= cfa);
    lemma_decided(f, a, b, cfa, y, x);
}

} // verus!
