//! Points, extents and rectangles on the pixel lattice.

use vstd::prelude::*;

verus! {

/// A pixel position: `x` counts columns, `y` counts rows.
#[derive(Debug, Clone, Copy, PartialEq, Eq, Structural)]
pub struct Point {
    pub x: usize,
    pub y: usize,
}

/// A width and a height in pixels.
#[derive(Debug, Clone, Copy, PartialEq, Eq, Structural)]
pub struct Dim2 {
    pub w: usize,
    pub h: usize,
}

/// The rectangle of extent `d` whose upper left pixel is `p`.
#[derive(Debug, Clone, Copy, PartialEq, Eq, Structural)]
pub struct Rect {
    pub p: Point,
    pub d: Dim2,
}

/// A rectangle of the plane: columns `x .. x + w` of the rows `y .. y + h`.
pub struct Area {
    pub x: int,
    pub y: int,
    pub w: int,
    pub h: int,
}

impl Area {
    /// The pixel in the given row and column lies inside.
    pub open spec fn contains(self, row: int, col: int) -> bool {
        &&& self.y <= row < self.y + self.h
        &&& self.x <= col < self.x + self.w
    }

    /// Every pixel of `self` is one of `other`.
    pub open spec fn within(self, other: Area) -> bool {
        forall|row: int, col: int| #[trigger]
            self.contains(row, col) ==> other.contains(row, col)
    }
}

impl View for Rect {
    type V = Area;

    open spec fn view(&self) -> Area {
        Area {
            x: self.p.x as int,
            y: self.p.y as int,
            w: self.d.w as int,
            h: self.d.h as int,
        }
    }
}

impl Point {
    pub fn new(x: usize, y: usize) -> (r: Self)
        ensures
            r.x == x,
            r.y == y,
    {
        Point { x, y }
    }
}

impl Dim2 {
    pub fn new(w: usize, h: usize) -> (r: Self)
        ensures
            r.w == w,
            r.h == h,
    {
        Dim2 { w, h }
    }
}

impl Rect {
    pub fn new(p: Point, d: Dim2) -> (r: Self)
        ensures
            r.p == p,
            r.d == d,
    {
        Rect { p, d }
    }

    pub fn width(&self) -> (r: usize)
        ensures
            r == self.d.w,
    {
        self.d.w
    }

    pub fn height(&self) -> (r: usize)
        ensures
            r == self.d.h,
    {
        self.d.h
    }

    /// Whether the rectangle holds no pixel at all.
    pub fn is_empty(&self) -> (r: bool)
        ensures
            r <==> forall|row: int, col: int| !#[trigger] self@.contains(row, col),
    {
        proof {
            if self.d.w > 0 && self.d.h > 0 {
                assert(self@.contains(self.p.y as int, self.p.x as int));
            }
        }
        self.d.w == 0 || self.d.h == 0
    }
}

} // verus!
