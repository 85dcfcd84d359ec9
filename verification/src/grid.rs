//! The division of an image into overlapping tiles with disjoint cores.

use crate::geometry::{Area, Dim2, Point, Rect};
use vstd::arithmetic::div_mod::{lemma_fundamental_div_mod, lemma_fundamental_div_mod_converse};
use vstd::prelude::*;

verus! {

/// One axis of an image of length `len`, cut into tiles of length `size` that overlap their
/// neighbours by `halo` on either side.
pub struct Axis {
    pub len: int,
    pub size: int,
    pub halo: int,
}

impl Axis {
    /// The halos leave something of a tile.
    pub open spec fn valid(self) -> bool {
        0 <= self.len && 0 <= self.halo && 2 * self.halo < self.size
    }

    /// The distance from one tile to the next.
    pub open spec fn stride(self) -> int {
        self.size - 2 * self.halo
    }

    /// How many tiles there are: the last one is the first that reaches the end.
    pub open spec fn tiles(self) -> int {
        if self.len <= self.size {
            1
        } else {
            (self.len - self.size + self.stride() - 1) / self.stride() + 1
        }
    }

    /// Where tile `k` starts.
    pub open spec fn start(self, k: int) -> int {
        k * self.stride()
    }

    /// Where tile `k` ends: after `size` pixels, or at the end of the axis.
    pub open spec fn end(self, k: int) -> int {
        if self.start(k) + self.size < self.len {
            self.start(k) + self.size
        } else {
            self.len
        }
    }

    /// Where the core of tile `k` starts: behind the halo, except at the edge of the image.
    pub open spec fn core_start(self, k: int) -> int {
        if k == 0 {
            0
        } else {
            self.start(k) + self.halo
        }
    }

    /// Where the core of tile `k` ends: before the halo, except at the edge of the image.
    pub open spec fn core_end(self, k: int) -> int {
        if self.end(k) == self.len {
            self.len
        } else {
            self.end(k) - self.halo
        }
    }

    /// The tile whose core holds coordinate `p`.
    pub open spec fn owner(self, p: int) -> int {
        let k = if p < self.halo {
            0
        } else {
            (p - self.halo) / self.stride()
        };
        if k < self.tiles() {
            k
        } else {
            self.tiles() - 1
        }
    }
}

/// Only the last tile reaches the end of the axis, and it is longer than two halos unless it is
/// the only one.
pub proof fn lemma_axis_end(a: Axis, k: int)
    requires
        a.valid(),
        0 <= k < a.tiles(),
    ensures
        1 <= a.tiles() <= a.len || a.tiles() == 1,
        0 <= a.start(k) <= a.len,
        a.end(k) == a.len <==> k == a.tiles() - 1,
        0 < k ==> a.start(k) + 2 * a.halo < a.len,
        a.start(k + 1) == a.start(k) + a.stride(),
{
    let s = a.stride();
    assert((k + 1) * s == k * s + s) by (nonlinear_arith);
    if a.len <= a.size {
        assert(k * s == 0) by (nonlinear_arith)
            requires
                k == 0,
        ;
    } else {
        let n = a.len - a.size + s - 1;
        lemma_fundamental_div_mod(n, s);
        let q = n / s;
        assert(0 <= q <= n) by (nonlinear_arith)
            requires
                n == s * q + n % s,
                0 <= n % s < s,
                1 <= s,
                0 <= n,
        ;
        assert(0 <= k * s) by (nonlinear_arith)
            requires
                0 <= k,
                0 < s,
        ;
        if k == q {
            assert(k * s == s * q) by (nonlinear_arith)
                requires
                    k == q,
            ;
        } else {
            assert(k * s <= s * q - s) by (nonlinear_arith)
                requires
                    k <= q - 1,
                    0 < s,
            ;
        }
        assert(q <= a.len - a.size) by (nonlinear_arith)
            requires
                n == s * q + n % s,
                0 <= n % s < s,
                1 <= s,
                n == a.len - a.size + s - 1,
                a.len - a.size >= 1,
        ;
    }
}

/// The cores follow one another without gap or overlap, and none is empty unless the axis is.
pub proof fn lemma_axis_core(a: Axis, k: int)
    requires
        a.valid(),
        0 <= k < a.tiles(),
    ensures
        a.start(k) <= a.core_start(k) <= a.core_end(k) <= a.end(k) <= a.len,
        0 < a.len ==> a.core_start(k) < a.core_end(k),
        k + 1 < a.tiles() ==> a.core_end(k) == a.core_start(k + 1),
{
    lemma_axis_end(a, k);
    if k == 0 {
        assert(k * a.stride() == 0) by (nonlinear_arith)
            requires
                k == 0,
        ;
    }
}

/// A coordinate lies in the core of the tile that owns it, and in no other core.
pub proof fn lemma_axis_owner(a: Axis, p: int, k: int)
    requires
        a.valid(),
        0 <= p < a.len,
        0 <= k < a.tiles(),
    ensures
        0 <= a.owner(p) < a.tiles(),
        a.core_start(k) <= p < a.core_end(k) <==> k == a.owner(p),
{
    let s = a.stride();
    lemma_axis_end(a, k);
    lemma_axis_core(a, k);
    assert((k + 1) * s == k * s + s) by (nonlinear_arith);
    if p < a.halo {
        if k == 0 {
            assert(k * s == 0) by (nonlinear_arith)
                requires
                    k == 0,
            ;
        }
    } else {
        lemma_fundamental_div_mod(p - a.halo, s);
        let q = (p - a.halo) / s;
        assert(0 <= q) by (nonlinear_arith)
            requires
                p - a.halo == s * q + (p - a.halo) % s,
                0 <= (p - a.halo) % s < s,
                0 <= p - a.halo,
        ;
        assert(k < q ==> k * s + s <= s * q) by (nonlinear_arith)
            requires
                0 < s,
        ;
        assert(k > q ==> k * s >= s * q + s) by (nonlinear_arith)
            requires
                0 < s,
        ;
        assert(k == q ==> k * s == s * q) by (nonlinear_arith);
    }
}

/// Everything within a halo of a core is in the tile, up to the edges of the image.
pub proof fn lemma_axis_halo(a: Axis, k: int, p: int, q: int)
    requires
        a.valid(),
        0 <= k < a.tiles(),
        a.core_start(k) <= p < a.core_end(k),
        0 <= q < a.len,
        p - a.halo <= q <= p + a.halo,
    ensures
        a.start(k) <= q < a.end(k),
{
    lemma_axis_end(a, k);
    if k == 0 {
        assert(k * a.stride() == 0) by (nonlinear_arith)
            requires
                k == 0,
        ;
    }
}

/// The place of a tile and of its core, both counted from the image's first pixel.
#[derive(Debug, Clone, Copy, PartialEq, Eq, Structural)]
pub struct Placement {
    pub tile: Rect,
    pub core: Rect,
}

/// A walk over the tiles of an image, row after row.
pub struct TileGrid {
    pub extent: Dim2,
    pub size: Dim2,
    pub halo: Dim2,
    pub trow: usize,
    pub tcol: usize,
}

impl TileGrid {
    pub open spec fn x_axis(self) -> Axis {
        Axis { len: self.extent.w as int, size: self.size.w as int, halo: self.halo.w as int }
    }

    pub open spec fn y_axis(self) -> Axis {
        Axis { len: self.extent.h as int, size: self.size.h as int, halo: self.halo.h as int }
    }

    /// A tile is larger than its halos, in both directions.
    pub open spec fn tileable(self) -> bool {
        self.x_axis().valid() && self.y_axis().valid()
    }

    /// How many tiles a row of tiles has.
    pub open spec fn cols(self) -> int {
        self.x_axis().tiles()
    }

    /// How many rows of tiles there are: none in an image without rows.
    pub open spec fn rows(self) -> int {
        if self.extent.h == 0 {
            0
        } else {
            self.y_axis().tiles()
        }
    }

    /// How many tiles there are.
    pub open spec fn total(self) -> int {
        self.rows() * self.cols()
    }

    /// How many tiles have been handed out.
    pub open spec fn index(self) -> int {
        if self.trow < self.rows() {
            self.trow * self.cols() + self.tcol
        } else {
            self.total()
        }
    }

    /// The walk stands before a tile, or behind the last.
    pub open spec fn wf(self) -> bool {
        ||| self.trow < self.rows() && self.tcol < self.cols()
        ||| self.trow == self.extent.h && self.tcol == 0
    }

    /// The pixels of tile `i`.
    pub open spec fn tile_area(self, i: int) -> Area {
        let row = i / self.cols();
        let col = i % self.cols();
        Area {
            x: self.x_axis().start(col),
            y: self.y_axis().start(row),
            w: self.x_axis().end(col) - self.x_axis().start(col),
            h: self.y_axis().end(row) - self.y_axis().start(row),
        }
    }

    /// The pixels of the core of tile `i`.
    pub open spec fn core_area(self, i: int) -> Area {
        let row = i / self.cols();
        let col = i % self.cols();
        Area {
            x: self.x_axis().core_start(col),
            y: self.y_axis().core_start(row),
            w: self.x_axis().core_end(col) - self.x_axis().core_start(col),
            h: self.y_axis().core_end(row) - self.y_axis().core_start(row),
        }
    }

    /// The tile whose core holds the pixel `(y, x)`.
    pub open spec fn owner(self, y: int, x: int) -> int {
        self.y_axis().owner(y) * self.cols() + self.x_axis().owner(x)
    }

    /// The pixels of the image.
    pub open spec fn image_area(self) -> Area {
        Area { x: 0, y: 0, w: self.extent.w as int, h: self.extent.h as int }
    }

    /// A walk that stands before the first tile.
    pub fn new(extent: Dim2, size: Dim2, halo: Dim2) -> (r: Self)
        ensures
            r.extent == extent,
            r.size == size,
            r.halo == halo,
            r.trow == 0,
            r.tcol == 0,
            r.tileable() ==> r.wf() && r.index() == 0,
    {
        let r = TileGrid { extent, size, halo, trow: 0, tcol: 0 };
        proof {
            if r.tileable() {
                lemma_axis_tiles(r.x_axis());
                lemma_axis_tiles(r.y_axis());
                assert(0 * r.cols() == 0) by (nonlinear_arith);
            }
        }
        r
    }

    /// Hands out the next tile, if there is one.
    #[verifier::rlimit(60)]
    pub fn next(&mut self) -> (r: Option<Placement>)
        requires
            old(self).tileable(),
            old(self).wf(),
        ensures
            final(self).wf(),
            final(self).extent == old(self).extent,
            final(self).size == old(self).size,
            final(self).halo == old(self).halo,
            old(self).index() < old(self).total() ==> {
                &&& r is Some
                &&& r.unwrap().tile@ == old(self).tile_area(old(self).index())
                &&& r.unwrap().core@ == old(self).core_area(old(self).index())
                &&& final(self).index() == old(self).index() + 1
            },
            old(self).index() >= old(self).total() ==> r is None && *final(self) == *old(self),
    {
        let ghost xs = self.x_axis();
        let ghost ys = self.y_axis();
        proof {
            lemma_axis_tiles(xs);
            lemma_axis_tiles(ys);
            lemma_index(*self);
        }
        // Behind the last tile `trow` is the height of the image, which no row of tiles reaches.
        if self.trow >= self.extent.h {
            return None;
        }
        let ghost col = self.tcol as int;
        let ghost row = self.trow as int;
        proof {
            lemma_axis_end(xs, col);
            lemma_axis_core(xs, col);
            lemma_axis_end(ys, row);
            lemma_axis_core(ys, row);
            if col != 0 {
                lemma_axis_later(xs, col);
            } else {
                assert(col * xs.stride() == 0) by (nonlinear_arith)
                    requires
                        col == 0,
                ;
            }
            if row != 0 {
                lemma_axis_later(ys, row);
            } else {
                assert(row * ys.stride() == 0) by (nonlinear_arith)
                    requires
                        row == 0,
                ;
            }
        }
        let stride_x: usize = self.size.w - self.halo.w * 2;
        let stride_y: usize = self.size.h - self.halo.h * 2;
        let tile_x: usize = self.tcol * stride_x;
        let tile_y: usize = self.trow * stride_y;

        let rest_x: usize = self.extent.w - tile_x;
        let rest_y: usize = self.extent.h - tile_y;
        let tile_width: usize = if rest_x < self.size.w {
            rest_x
        } else {
            self.size.w
        };
        let tile_height: usize = if rest_y < self.size.h {
            rest_y
        } else {
            self.size.h
        };
        let tile = Rect::new(Point::new(tile_x, tile_y), Dim2::new(tile_width, tile_height));

        let last_col: bool = tile_x + tile_width == self.extent.w;
        let last_row: bool = tile_y + tile_height == self.extent.h;
        let core_left: usize = if tile_x == 0 {
            0
        } else {
            self.halo.w
        };
        let core_top: usize = if tile_y == 0 {
            0
        } else {
            self.halo.h
        };
        let core_right: usize = if last_col {
            0
        } else {
            self.halo.w
        };
        let core_bottom: usize = if last_row {
            0
        } else {
            self.halo.h
        };
        let core = Rect::new(
            Point::new(tile_x + core_left, tile_y + core_top),
            Dim2::new(
                tile_width - core_left - core_right,
                tile_height - core_top - core_bottom,
            ),
        );

        if last_col {
            self.tcol = 0;
            if last_row {
                self.trow = self.extent.h;
            } else {
                self.trow = self.trow + 1;
            }
        } else {
            self.tcol = self.tcol + 1;
        }
        proof {
            let cols = xs.tiles();
            assert((row + 1) * cols == row * cols + cols) by (nonlinear_arith);
        }
        Some(Placement { tile, core })
    }
}

/// There is at least one tile, and no more than there are pixels unless there are none.
proof fn lemma_axis_tiles(a: Axis)
    requires
        a.valid(),
    ensures
        1 <= a.tiles(),
        0 < a.len ==> a.tiles() <= a.len,
{
    if a.len > a.size {
        let s = a.stride();
        let n = a.len - a.size + s - 1;
        lemma_fundamental_div_mod(n, s);
        assert(0 <= n / s) by (nonlinear_arith)
            requires
                n == s * (n / s) + n % s,
                0 <= n % s < s,
                0 <= n,
        ;
        lemma_axis_end(a, 0);
    }
}

/// A tile that is not the first starts behind the first pixel.
proof fn lemma_axis_later(a: Axis, k: int)
    requires
        a.valid(),
        0 < k,
    ensures
        0 < a.start(k),
{
    assert(0 < k * a.stride()) by (nonlinear_arith)
        requires
            0 < k,
            0 < a.stride(),
    ;
}

/// The number of a tile gives back its row and column.
proof fn lemma_number(row: int, col: int, rows: int, cols: int)
    requires
        0 <= row < rows,
        0 <= col < cols,
    ensures
        0 <= row * cols + col < rows * cols,
        (row * cols + col) / cols == row,
        (row * cols + col) % cols == col,
{
    assert(0 <= row * cols + col < rows * cols) by (nonlinear_arith)
        requires
            0 <= row < rows,
            0 <= col < cols,
    ;
    assert(row * cols + col == cols * row + col) by (nonlinear_arith);
    lemma_fundamental_div_mod_converse(row * cols + col, cols, row, col);
}

/// The walk's position is that of the next tile, if there is one.
pub proof fn lemma_index(g: TileGrid)
    requires
        g.tileable(),
        g.wf(),
    ensures
        g.index() < g.total() <==> g.trow < g.rows(),
        g.trow < g.rows() ==> {
            &&& g.tcol < g.cols()
            &&& g.index() / g.cols() == g.trow
            &&& g.index() % g.cols() == g.tcol
        },
        g.trow >= g.rows() <==> g.trow >= g.extent.h,
{
    lemma_axis_tiles(g.x_axis());
    lemma_axis_tiles(g.y_axis());
    if g.trow < g.rows() {
        lemma_number(g.trow as int, g.tcol as int, g.rows(), g.cols());
    }
}

/// `area` lies in the image of that extent.
pub open spec fn inside(area: Area, extent: Dim2) -> bool {
    &&& 0 <= area.x
    &&& 0 <= area.y
    &&& 0 <= area.w
    &&& 0 <= area.h
    &&& area.x + area.w <= extent.w
    &&& area.y + area.h <= extent.h
}

/// Tiles and cores lie inside the image, and no tile is larger than it should be.
pub proof fn lemma_placement(g: TileGrid, i: int)
    requires
        g.tileable(),
        0 <= i < g.total(),
    ensures
        inside(g.tile_area(i), g.extent),
        inside(g.core_area(i), g.extent),
        g.core_area(i).within(g.tile_area(i)),
        g.tile_area(i).w <= g.size.w,
        g.tile_area(i).h <= g.size.h,
{
    lemma_tile_number(g, i);
    lemma_axis_end(g.x_axis(), i % g.cols());
    lemma_axis_end(g.y_axis(), i / g.cols());
    lemma_axis_core(g.x_axis(), i % g.cols());
    lemma_axis_core(g.y_axis(), i / g.cols());
}

/// Every pixel of the image lies in the core of exactly one tile.
pub proof fn law_one_core_per_pixel(g: TileGrid, y: int, x: int)
    requires
        g.tileable(),
        g.image_area().contains(y, x),
    ensures
        0 <= g.owner(y, x) < g.total(),
        forall|i: int|
            0 <= i < g.total() ==> (#[trigger] g.core_area(i).contains(y, x) <==> i == g.owner(
                y,
                x,
            )),
{
    let xs = g.x_axis();
    let ys = g.y_axis();
    lemma_axis_tiles(xs);
    lemma_axis_tiles(ys);
    lemma_axis_owner(xs, x, 0);
    lemma_axis_owner(ys, y, 0);
    lemma_number(ys.owner(y), xs.owner(x), g.rows(), g.cols());
    assert forall|i: int| 0 <= i < g.total() implies (#[trigger] g.core_area(i).contains(y, x)
        <==> i == g.owner(y, x)) by {
        lemma_tile_number(g, i);
        lemma_axis_owner(xs, x, i % g.cols());
        lemma_axis_owner(ys, y, i / g.cols());
    }
}

/// No pixel lies in the cores of two tiles.
pub proof fn law_cores_disjoint(g: TileGrid, i: int, j: int, y: int, x: int)
    requires
        g.tileable(),
        0 <= i < g.total(),
        0 <= j < g.total(),
        i != j,
    ensures
        !(g.core_area(i).contains(y, x) && g.core_area(j).contains(y, x)),
{
    law_core_in_tile_in_image(g, i);
    if g.core_area(i).contains(y, x) {
        assert(g.tile_area(i).contains(y, x));
        law_one_core_per_pixel(g, y, x);
    }
}

/// A core lies in its tile and a tile in the image; where the image has pixels, so has every core.
pub proof fn law_core_in_tile_in_image(g: TileGrid, i: int)
    requires
        g.tileable(),
        0 <= i < g.total(),
    ensures
        g.core_area(i).within(g.tile_area(i)),
        g.tile_area(i).within(g.image_area()),
        0 < g.extent.w ==> g.core_area(i).contains(g.core_area(i).y, g.core_area(i).x),
{
    lemma_tile_number(g, i);
    lemma_axis_end(g.x_axis(), i % g.cols());
    lemma_axis_end(g.y_axis(), i / g.cols());
    lemma_axis_core(g.x_axis(), i % g.cols());
    lemma_axis_core(g.y_axis(), i / g.cols());
}

/// Every pixel of the image that is no further than the halo from a pixel of a core is in the
/// core's tile.
pub proof fn law_halo_surrounds_core(g: TileGrid, i: int, y: int, x: int, v: int, u: int)
    requires
        g.tileable(),
        0 <= i < g.total(),
        g.core_area(i).contains(y, x),
        g.image_area().contains(v, u),
        y - g.halo.h <= v <= y + g.halo.h,
        x - g.halo.w <= u <= x + g.halo.w,
    ensures
        g.tile_area(i).contains(v, u),
{
    lemma_tile_number(g, i);
    lemma_axis_halo(g.x_axis(), i % g.cols(), x, u);
    lemma_axis_halo(g.y_axis(), i / g.cols(), y, v);
}

/// A pixel of a core that is further than the halo from the edges of the image is as far from the
/// edges of its tile.
pub proof fn law_core_clear_of_halo(g: TileGrid, i: int, y: int, x: int)
    requires
        g.tileable(),
        0 <= i < g.total(),
        g.core_area(i).contains(y, x),
        g.halo.h <= y < g.extent.h - g.halo.h,
        g.halo.w <= x < g.extent.w - g.halo.w,
    ensures
        g.tile_area(i).y + g.halo.h <= y < g.tile_area(i).y + g.tile_area(i).h - g.halo.h,
        g.tile_area(i).x + g.halo.w <= x < g.tile_area(i).x + g.tile_area(i).w - g.halo.w,
{
    law_halo_surrounds_core(g, i, y, x, y - g.halo.h, x - g.halo.w);
    law_halo_surrounds_core(g, i, y, x, y + g.halo.h, x + g.halo.w);
}

/// The number of a tile stands for a row and a column of tiles.
pub proof fn lemma_tile_number(g: TileGrid, i: int)
    requires
        g.tileable(),
        0 <= i < g.total(),
    ensures
        0 <= i % g.cols() < g.x_axis().tiles(),
        0 <= i / g.cols() < g.y_axis().tiles(),
        0 < g.extent.h,
        i == (i / g.cols()) * g.cols() + i % g.cols(),
{
    let cols = g.cols();
    let rows = g.rows();
    lemma_axis_tiles(g.x_axis());
    lemma_fundamental_div_mod(i, cols);
    let q = i / cols;
    let m = i % cols;
    assert(0 <= q < rows) by (nonlinear_arith)
        requires
            i == cols * q + m,
            0 <= m < cols,
            0 <= i < rows * cols,
    ;
    assert(q * cols == cols * q) by (nonlinear_arith);
}

/// The walk goes from tile to tile: the first one starts with the image, each is as large as it
/// may be and has a core without the halos, except where it starts or ends with the image, and the
/// next one lies further on by the size of a tile less two halos, first along the row of tiles and
/// then, from the left again, along the image.
pub proof fn law_next_tile(g: TileGrid, i: int)
    requires
        g.tileable(),
        0 <= i < g.total(),
    ensures
        ({
            let t = g.tile_area(i);
            let c = g.core_area(i);
            let n = g.tile_area(i + 1);
            let right = t.x + t.w;
            let bottom = t.y + t.h;
            &&& i == 0 ==> t.x == 0 && t.y == 0
            &&& right == g.extent.w || right < g.extent.w && t.w == g.size.w
            &&& bottom == g.extent.h || bottom < g.extent.h && t.h == g.size.h
            &&& t.w <= g.size.w && t.h <= g.size.h
            &&& c.x == if t.x == 0 {
                0
            } else {
                t.x + g.halo.w
            }
            &&& c.y == if t.y == 0 {
                0
            } else {
                t.y + g.halo.h
            }
            &&& c.x + c.w == if right == g.extent.w {
                right
            } else {
                right - g.halo.w
            }
            &&& c.y + c.h == if bottom == g.extent.h {
                bottom
            } else {
                bottom - g.halo.h
            }
            &&& if right < g.extent.w {
                i + 1 < g.total() && n.y == t.y && n.x == t.x + g.size.w - 2 * g.halo.w
            } else if bottom < g.extent.h {
                i + 1 < g.total() && n.x == 0 && n.y == t.y + g.size.h - 2 * g.halo.h
            } else {
                i + 1 == g.total()
            }
        }),
{
    let xs = g.x_axis();
    let ys = g.y_axis();
    let cols = g.cols();
    let col = i % cols;
    let row = i / cols;
    lemma_tile_number(g, i);
    lemma_axis_tiles(xs);
    lemma_axis_tiles(ys);
    lemma_axis_end(xs, col);
    lemma_axis_core(xs, col);
    lemma_axis_end(ys, row);
    lemma_axis_core(ys, row);
    lemma_axis_start(xs, col);
    lemma_axis_start(ys, row);
    if col + 1 < cols {
        lemma_number(row, col + 1, g.rows(), cols);
    } else {
        assert((row + 1) * cols == row * cols + cols) by (nonlinear_arith);
        if row + 1 < g.rows() {
            lemma_number(row + 1, 0, g.rows(), cols);
            lemma_axis_start(xs, 0);
        }
    }
    if i == 0 {
        lemma_number(0, 0, g.rows(), cols);
    }
}

/// Only the first tile starts with the axis, and a tile starts one stride behind the one before.
proof fn lemma_axis_start(a: Axis, k: int)
    requires
        a.valid(),
        0 <= k,
    ensures
        k == 0 <==> a.start(k) == 0,
        a.start(k + 1) == a.start(k) + a.stride(),
{
    let s = a.stride();
    assert((k + 1) * s == k * s + s) by (nonlinear_arith);
    assert(k == 0 <==> k * s == 0) by (nonlinear_arith)
        requires
            0 < s,
            0 <= k,
    ;
}

} // verus!
