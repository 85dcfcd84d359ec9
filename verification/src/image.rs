//! Two-dimensional arrays of pixels and windows into them.

use crate::geometry::{Area, Dim2, Point, Rect};
use vstd::prelude::*;

verus! {

/// The contents of an array of pixels: `height` rows of `width` pixels each.
#[verifier::ext_equal]
pub struct Image<P> {
    pub width: nat,
    pub height: nat,
    pub rows: Seq<Seq<P>>,
}

impl<P> Image<P> {
    /// The image whose pixel in row `y` and column `x` is `f(y, x)`.
    pub open spec fn tabulate(width: nat, height: nat, f: spec_fn(int, int) -> P) -> Self {
        Image { width, height, rows: Seq::new(height, |y: int| Seq::new(width, |x: int| f(y, x))) }
    }

    /// The image of that size in which all pixels are the same.
    pub open spec fn constant(width: nat, height: nat, value: P) -> Self {
        Image::tabulate(width, height, |y: int, x: int| value)
    }

    /// There is a pixel in row `y` and column `x`.
    pub open spec fn contains(self, y: int, x: int) -> bool {
        0 <= y < self.height && 0 <= x < self.width
    }

    /// The pixel in row `y` and column `x`.
    pub open spec fn px(self, y: int, x: int) -> P {
        self.rows[y][x]
    }

    /// The rows are as many and as long as `height` and `width` say.
    pub open spec fn rectangular(self) -> bool {
        &&& self.rows.len() == self.height
        &&& forall|y: int| 0 <= y < self.height ==> (#[trigger] self.rows[y]).len() == self.width
    }

    /// The same image, but for the pixel in row `y` and column `x`.
    pub open spec fn update(self, y: int, x: int, value: P) -> Self {
        Image { rows: self.rows.update(y, self.rows[y].update(x, value)), ..self }
    }

    /// The part of the image that `area` covers.
    pub open spec fn crop(self, area: Area) -> Self {
        Image::tabulate(
            area.w as nat,
            area.h as nat,
            |y: int, x: int| self.px(area.y + y, area.x + x),
        )
    }

    /// `area` lies inside the image.
    pub open spec fn covers(self, area: Area) -> bool {
        &&& 0 <= area.x
        &&& 0 <= area.y
        &&& 0 <= area.w
        &&& 0 <= area.h
        &&& area.x + area.w <= self.width
        &&& area.y + area.h <= self.height
    }

    /// The pixel in row `y` and column `x` of the plane that the image fills by reflection at its
    /// four edges.
    pub open spec fn mirrored(self, y: int, x: int) -> P {
        self.px(mirror(y, self.height as int), mirror(x, self.width as int))
    }

    /// The pixel in row `y` and column `x` of the plane that is `pad` outside the image.
    pub open spec fn padded(self, y: int, x: int, pad: P) -> P {
        if self.contains(y, x) {
            self.px(y, x)
        } else {
            pad
        }
    }
}

/// Two images of one size with the same pixels are the same.
pub proof fn lemma_image_equal<P>(a: Image<P>, b: Image<P>)
    requires
        a.rectangular(),
        b.rectangular(),
        a.width == b.width,
        a.height == b.height,
        forall|y: int, x: int| #[trigger] a.contains(y, x) ==> a.px(y, x) == b.px(y, x),
    ensures
        a == b,
{
    assert forall|y: int| 0 <= y < a.height implies a.rows[y] == b.rows[y] by {
        assert forall|x: int| 0 <= x < a.width implies a.rows[y][x] == b.rows[y][x] by {
            assert(a.contains(y, x));
        }
        assert(a.rows[y] =~= b.rows[y]);
    }
    assert(a.rows =~= b.rows);
}

/// Where coordinate `i` of the plane lands in `0 .. n` when the axis is folded back at the first
/// and at the last sample, neither of which is repeated: `2 1 0 1 2 ... n - 2 n - 1 n - 2 ...`.
pub open spec fn mirror(i: int, n: int) -> int {
    if n <= 1 {
        0
    } else {
        let m = i % (2 * (n - 1));
        if m < n {
            m
        } else {
            2 * (n - 1) - m
        }
    }
}

/// A reflected coordinate is one of the axis, and a coordinate of the axis stays where it is.
pub proof fn lemma_mirror_range(i: int, n: int)
    requires
        0 < n,
    ensures
        0 <= mirror(i, n) < n,
        0 <= i < n ==> mirror(i, n) == i,
{
    if n > 1 {
        let p = 2 * (n - 1);
        vstd::arithmetic::div_mod::lemma_mod_bound(i, p);
        if 0 <= i < n {
            vstd::arithmetic::div_mod::lemma_small_mod(i as nat, p as nat);
        }
    }
}

/// A coordinate less than one length outside the axis is reflected once.
pub proof fn lemma_mirror_once(i: int, n: int)
    requires
        1 < n,
        -n < i < 2 * n - 1,
    ensures
        mirror(i, n) == if i < 0 {
            -i
        } else if i < n {
            i
        } else {
            2 * (n - 1) - i
        },
{
    let p = 2 * (n - 1);
    if i < 0 {
        vstd::arithmetic::div_mod::lemma_fundamental_div_mod_converse(i, p, -1, i + p);
    } else if i < p {
        vstd::arithmetic::div_mod::lemma_small_mod(i as nat, p as nat);
    } else {
        vstd::arithmetic::div_mod::lemma_fundamental_div_mod_converse(i, p, 1, 0);
    }
}

/// Reflection at the first sample: a coordinate and its negative land on the same place.
pub proof fn lemma_mirror_even(i: int, n: int)
    requires
        0 < n,
    ensures
        mirror(-i, n) == mirror(i, n),
{
    if n > 1 {
        let p = 2 * (n - 1);
        vstd::arithmetic::div_mod::lemma_fundamental_div_mod(i, p);
        vstd::arithmetic::div_mod::lemma_mod_bound(i, p);
        let q = i / p;
        let m = i % p;
        if m == 0 {
            assert(-i == p * (-q) + 0) by (nonlinear_arith)
                requires
                    i == p * q,
            ;
            vstd::arithmetic::div_mod::lemma_fundamental_div_mod_converse(-i, p, -q, 0);
        } else {
            assert(-i == p * (-q - 1) + (p - m)) by (nonlinear_arith)
                requires
                    i == p * q + m,
            ;
            vstd::arithmetic::div_mod::lemma_fundamental_div_mod_converse(-i, p, -q - 1, p - m);
        }
    }
}

/// Where coordinate `i` lands in `0 .. n` by reflection at both ends.
pub fn reflect(i: isize, n: usize) -> (r: usize)
    requires
        0 < n,
    ensures
        r == mirror(i as int, n as int),
        r < n,
{
    proof {
        lemma_mirror_range(i as int, n as int);
        lemma_mirror_even(i as int, n as int);
    }
    let distance: u128 = if i < 0 {
        (-(i as i128)) as u128
    } else {
        i as u128
    };
    if n == 1 {
        return 0;
    }
    let period: u128 = 2 * (n as u128 - 1);
    let m: u128 = distance % period;
    if m < n as u128 {
        m as usize
    } else {
        (period - m) as usize
    }
}

/// An array of pixels, row after row.
pub struct Pix2D<P> {
    pub width: usize,
    pub height: usize,
    pub data: Vec<P>,
}

/// An array of pixels with a red, a green and a blue sample each.
pub type Color2D<T> = Pix2D<[T; 3]>;

/// A window of `inner`.
pub struct Pix2DView<'a, P> {
    pub rect: Rect,
    pub inner: &'a Pix2D<P>,
}

impl<P> View for Pix2D<P> {
    type V = Image<P>;

    open spec fn view(&self) -> Image<P> {
        Image::tabulate(
            self.width as nat,
            self.height as nat,
            |y: int, x: int| self.stored(y, x),
        )
    }
}

impl<'a, P> View for Pix2DView<'a, P> {
    type V = Image<P>;

    open spec fn view(&self) -> Image<P> {
        self.inner@.crop(self.rect@)
    }
}

/// Different pixels of an image that is `width` wide have different places in row order, all of
/// them before `width * height`.
proof fn lemma_place(y: int, x: int, width: int, height: int)
    requires
        0 <= y < height,
        0 <= x < width,
    ensures
        0 <= y * width <= y * width + x < width * height,
        forall|v: int, u: int|
            0 <= v < height && 0 <= u < width && #[trigger] (v * width + u) == y * width + x ==> v
                == y && u == x,
{
    assert(0 <= y * width <= y * width + x < width * height) by (nonlinear_arith)
        requires
            0 <= y < height,
            0 <= x < width,
    ;
    assert forall|v: int, u: int|
        0 <= v < height && 0 <= u < width && #[trigger] (v * width + u) == y * width + x implies v
        == y && u == x by {
        assert(v == y) by (nonlinear_arith)
            requires
                0 <= u < width,
                0 <= x < width,
                v * width + u == y * width + x,
        ;
    }
}

impl<P> Pix2D<P> {
    /// The pixel that is kept for row `y` and column `x`.
    pub open spec fn stored(&self, y: int, x: int) -> P {
        self.data@[y * self.width + x]
    }

    /// One pixel is kept for each place.
    pub open spec fn wf(&self) -> bool {
        self.data@.len() == self.width * self.height
    }

    /// The rectangle of all pixels.
    pub fn rect(&self) -> (r: Rect)
        ensures
            r.p == (Point { x: 0, y: 0 }),
            r.d == (Dim2 { w: self.width, h: self.height }),
    {
        Rect::new(Point::new(0, 0), Dim2::new(self.width, self.height))
    }

    /// The window of the pixels in `rect`.
    pub fn window(&self, rect: Rect) -> (r: Pix2DView<'_, P>)
        requires
            self.wf(),
            self@.covers(rect@),
        ensures
            r.wf(),
            r.rect == rect,
            r.inner == self,
    {
        Pix2DView { rect, inner: self }
    }

    /// The pixel in the given row and column.
    pub fn at(&self, row: usize, col: usize) -> (r: &P)
        requires
            self.wf(),
            self@.contains(row as int, col as int),
        ensures
            *r == self@.px(row as int, col as int),
    {
        proof {
            lemma_place(row as int, col as int, self.width as int, self.height as int);
            assert(self.data.len() <= usize::MAX);
        }
        &self.data[row * self.width + col]
    }

    /// The pixel in the given row and column, for writing.
    pub fn at_mut(&mut self, row: usize, col: usize) -> (r: &mut P)
        requires
            old(self).wf(),
            old(self)@.contains(row as int, col as int),
        ensures
            *r == old(self)@.px(row as int, col as int),
            final(self).wf(),
            final(self).width == old(self).width,
            final(self).height == old(self).height,
            final(self)@ == old(self)@.update(row as int, col as int, *final(r)),
    {
        proof {
            lemma_place(row as int, col as int, self.width as int, self.height as int);
            assert(self.data.len() <= usize::MAX);
            let place = row * self.width + col;
            assert forall|value: P, after: Pix2D<P>|
                after.width == self.width && after.height == self.height && after.data@
                    == #[trigger] self.data@.update(place, value) implies #[trigger] after@
                == self@.update(row as int, col as int, value) by {
                let updated = self@.update(row as int, col as int, value);
                assert forall|y: int, x: int| #[trigger] after@.contains(y, x) implies after@.px(
                    y,
                    x,
                ) == updated.px(y, x) by {
                    lemma_place(y, x, self.width as int, self.height as int);
                }
                lemma_image_equal(after@, updated);
            }
        }
        &mut self.data[row * self.width + col]
    }

    /// The pixel in the given row and column of the plane that reflection at the edges fills.
    pub fn at_reflect(&self, row: isize, col: isize) -> (r: &P)
        requires
            self.wf(),
            0 < self.width,
            0 < self.height,
        ensures
            *r == self@.mirrored(row as int, col as int),
    {
        self.at(reflect(row, self.height), reflect(col, self.width))
    }

    /// The pixel in the given row and column, or `pad` outside the image.
    pub fn at_padding<'b>(&'b self, row: isize, col: isize, pad: &'b P) -> (r: &'b P)
        requires
            self.wf(),
        ensures
            *r == self@.padded(row as int, col as int, *pad),
    {
        if row < 0 || col < 0 {
            return pad;
        }
        let y: usize = row as usize;
        let x: usize = col as usize;
        if y < self.height && x < self.width {
            self.at(y, x)
        } else {
            pad
        }
    }
}

/// The pixels of an array can be counted.
pub proof fn lemma_area<P>(pix: Pix2D<P>)
    requires
        pix.wf(),
    ensures
        pix.width * pix.height <= usize::MAX,
{
    assert(pix.data.len() <= usize::MAX);
}

/// The pixels of a window can be counted.
pub proof fn lemma_window_area<P>(window: Pix2DView<'_, P>)
    requires
        window.wf(),
    ensures
        window.rect.d.w * window.rect.d.h <= usize::MAX,
{
    lemma_area(*window.inner);
    assert(window.rect.d.w * window.rect.d.h <= window.inner.width * window.inner.height)
        by (nonlinear_arith)
        requires
            0 <= window.rect.d.w <= window.inner.width,
            0 <= window.rect.d.h <= window.inner.height,
    ;
}

impl<P: Copy> Pix2D<P> {
    /// An array of that size in which all pixels are `value`.
    pub fn filled(width: usize, height: usize, value: P) -> (r: Self)
        requires
            width * height <= usize::MAX,
        ensures
            r.wf(),
            r.width == width,
            r.height == height,
            r@ == Image::constant(width as nat, height as nat, value),
    {
        let n: usize = width * height;
        let mut data: Vec<P> = Vec::with_capacity(n);
        let mut i: usize = 0;
        while i < n
            invariant
                i <= n,
                data@.len() == i,
                forall|j: int| 0 <= j < i ==> data@[j] == value,
            decreases n - i,
        {
            data.push(value);
            i += 1;
        }
        let r = Pix2D { width, height, data };
        proof {
            let expected = Image::constant(width as nat, height as nat, value);
            assert forall|y: int, x: int| #[trigger] r@.contains(y, x) implies r@.px(y, x)
                == expected.px(y, x) by {
                lemma_place(y, x, width as int, height as int);
            }
            lemma_image_equal(r@, expected);
        }
        r
    }
}

impl<'a, P> Pix2DView<'a, P> {
    /// The window lies inside the array.
    pub open spec fn wf(&self) -> bool {
        &&& self.inner.wf()
        &&& self.inner@.covers(self.rect@)
    }

    pub fn width(&self) -> (r: usize)
        ensures
            r == self@.width,
    {
        self.rect.d.w
    }

    pub fn height(&self) -> (r: usize)
        ensures
            r == self@.height,
    {
        self.rect.d.h
    }

    /// The window of the pixels in `rect`, which counts from this window's first pixel.
    pub fn window(&self, rect: Rect) -> (r: Pix2DView<'a, P>)
        requires
            self.wf(),
            self@.covers(rect@),
        ensures
            r.wf(),
            r.inner == self.inner,
            r.rect.p.x == self.rect.p.x + rect.p.x,
            r.rect.p.y == self.rect.p.y + rect.p.y,
            r.rect.d == rect.d,
            r@ == self@.crop(rect@),
    {
        let p = Point::new(self.rect.p.x + rect.p.x, self.rect.p.y + rect.p.y);
        let r = Pix2DView { rect: Rect::new(p, rect.d), inner: self.inner };
        proof {
            lemma_image_equal(r@, self@.crop(rect@));
        }
        r
    }

    /// The pixel in the given row and column of the window.
    pub fn at(&self, row: usize, col: usize) -> (r: &'a P)
        requires
            self.wf(),
            self@.contains(row as int, col as int),
        ensures
            *r == self@.px(row as int, col as int),
    {
        self.inner.at(self.rect.p.y + row, self.rect.p.x + col)
    }

    /// The pixel in the given row and column of the plane that reflection at the window's edges
    /// fills.
    pub fn at_reflect(&self, row: isize, col: isize) -> (r: &'a P)
        requires
            self.wf(),
            0 < self@.width,
            0 < self@.height,
        ensures
            *r == self@.mirrored(row as int, col as int),
    {
        self.at(reflect(row, self.rect.d.h), reflect(col, self.rect.d.w))
    }
}

/// Reflection does not move the coordinates of the axis, is symmetric about its first and about its
/// last coordinate, and leads nowhere else than to the axis.
pub proof fn law_reflection(i: int, n: int)
    requires
        0 < n,
    ensures
        0 <= mirror(i, n) < n,
        0 <= i < n ==> mirror(i, n) == i,
        mirror(-i, n) == mirror(i, n),
        mirror((n - 1) + i, n) == mirror((n - 1) - i, n),
{
    lemma_mirror_range(i, n);
    lemma_mirror_even(i, n);
    if n > 1 {
        let p = 2 * (n - 1);
        let a = (n - 1) + i;
        lemma_mirror_even((n - 1) - i, n);
        vstd::arithmetic::div_mod::lemma_mod_add_multiples_vanish(i - (n - 1), p);
        assert(p + (i - (n - 1)) == a);
    }
}

/// The plane that an image fills by reflection shows the image where that lies, and is symmetric
/// about its first and last row, and about its first and last column.
pub proof fn law_reflected_plane<P>(img: Image<P>, y: int, x: int)
    requires
        0 < img.width,
        0 < img.height,
    ensures
        img.contains(y, x) ==> img.mirrored(y, x) == img.px(y, x),
        img.mirrored(-y, x) == img.mirrored(y, x),
        img.mirrored(y, -x) == img.mirrored(y, x),
        img.mirrored((img.height - 1) + y, x) == img.mirrored((img.height - 1) - y, x),
        img.mirrored(y, (img.width - 1) + x) == img.mirrored(y, (img.width - 1) - x),
{
    law_reflection(y, img.height as int);
    law_reflection(x, img.width as int);
}

/// The pixels of an array are kept row after row.
pub proof fn law_row_after_row<P>(pix: Pix2D<P>, y: int, x: int)
    requires
        pix@.contains(y, x),
    ensures
        pix@.px(y, x) == pix.data@[y * pix.width + x],
{
}

/// Padding shows where the image is not, and only there.
pub proof fn law_padded_plane<P>(img: Image<P>, y: int, x: int, pad: P)
    ensures
        0 <= y < img.height && 0 <= x < img.width ==> img.padded(y, x, pad) == img.px(y, x),
        !(0 <= y < img.height && 0 <= x < img.width) ==> img.padded(y, x, pad) == pad,
{
}

/// A window of a window is a window, and shows the pixels that lie there.
pub proof fn law_window_of_window<P>(img: Image<P>, outer: Area, inner: Area, y: int, x: int)
    requires
        img.covers(outer),
        img.crop(outer).covers(inner),
        0 <= y < inner.h,
        0 <= x < inner.w,
    ensures
        img.crop(outer).width == outer.w,
        img.crop(outer).height == outer.h,
        img.crop(outer).crop(inner).px(y, x) == img.px(
            outer.y + inner.y + y,
            outer.x + inner.x + x,
        ),
        img.crop(outer).crop(inner) == img.crop(
            Area { x: outer.x + inner.x, y: outer.y + inner.y, w: inner.w, h: inner.h },
        ),
{
    lemma_image_equal(
        img.crop(outer).crop(inner),
        img.crop(Area { x: outer.x + inner.x, y: outer.y + inner.y, w: inner.w, h: inner.h }),
    );
}

} // verus!
