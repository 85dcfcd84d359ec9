//! Tiles of a mosaic: windows of what is measured, with access to the colours of their cores.

use crate::cfa::{shifted, CFA};
use crate::geometry::{Area, Dim2, Rect};
use crate::grid::{law_cores_disjoint, lemma_index, lemma_placement, TileGrid};
use crate::image::{lemma_image_equal, Color2D, Image, Pix2D, Pix2DView};
use crate::sample::{num, sample, Sample};
use vstd::prelude::*;
use vstd::std_specs::convert::FromSpec;

verus! {

/// Hands out the tiles of a mosaic, row after row.
pub struct DemosaicTiler<'a, T> {
    pub raw: Pix2DView<'a, T>,
    pub cfa: &'a CFA,
    pub rgb: &'a mut Color2D<T>,
    pub grid: TileGrid,
}

/// One tile: the pixels in `tile`, of which those in `core` are the tile's own. Both rectangles
/// count from the first pixel of `raw`.
pub struct Tile<'a, 'b, T> {
    pub raw: Pix2DView<'a, T>,
    pub cfa: &'a CFA,
    pub rgb: &'b mut Color2D<T>,
    pub tile: Rect,
    pub core: Rect,
    pub garbage: [T; 3],
}

impl<'a, T> DemosaicTiler<'a, T> {
    /// The parts fit together, and the halos leave something of a tile.
    pub open spec fn wf(&self) -> bool {
        &&& self.raw.wf()
        &&& self.cfa.wf()
        &&& self.grid.tileable()
        &&& self.grid.wf()
        &&& self.grid.extent == self.raw.rect.d
    }

    /// The tiles of all of `raw`, whose colours go to `rgb`.
    pub fn new(
        raw: &'a Pix2D<T>,
        cfa: &'a CFA,
        rgb: &'a mut Color2D<T>,
        size: Dim2,
        halo: Dim2,
    ) -> (r: Self)
        requires
            raw.wf(),
        ensures
            r.raw.wf(),
            r.raw@ == raw@,
            r.cfa == cfa,
            *r.rgb == *old(rgb),
            *final(rgb) == *final(r.rgb),
            r.grid.extent == (Dim2 { w: raw.width, h: raw.height }),
            r.grid.size == size,
            r.grid.halo == halo,
            r.grid.tileable() && cfa.wf() ==> r.wf() && r.grid.index() == 0,
    {
        let view = raw.window(raw.rect());
        proof {
            lemma_image_equal(view@, raw@);
        }
        Self::from_view(view, cfa, rgb, size, halo)
    }

    /// The tiles of the window `raw`, whose colours go to `rgb`.
    pub fn from_view(
        raw: Pix2DView<'a, T>,
        cfa: &'a CFA,
        rgb: &'a mut Color2D<T>,
        size: Dim2,
        halo: Dim2,
    ) -> (r: Self)
        ensures
            r.raw == raw,
            r.cfa == cfa,
            *r.rgb == *old(rgb),
            *final(rgb) == *final(r.rgb),
            r.grid.extent == raw.rect.d,
            r.grid.size == size,
            r.grid.halo == halo,
            r.grid.tileable() && raw.wf() && cfa.wf() ==> r.wf() && r.grid.index() == 0,
    {
        let grid = TileGrid::new(raw.rect.d, size, halo);
        DemosaicTiler { raw, cfa, rgb, grid }
    }
}

impl<'a, T: Sample> DemosaicTiler<'a, T> {
    /// Hands out the next tile, if there is one. What is written through the tile is in `rgb` when
    /// the tile is gone.
    pub fn next<'b>(&'b mut self) -> (r: Option<Tile<'a, 'b, T>>)
        requires
            old(self).wf(),
        ensures
            final(self).wf(),
            final(self).raw == old(self).raw,
            final(self).cfa == old(self).cfa,
            final(self).grid.extent == old(self).grid.extent,
            final(self).grid.size == old(self).grid.size,
            final(self).grid.halo == old(self).grid.halo,
            *final(final(self).rgb) == *final(old(self).rgb),
            old(self).grid.index() < old(self).grid.total() ==> {
                &&& r is Some
                &&& r.unwrap().wf()
                &&& r.unwrap().raw == old(self).raw
                &&& r.unwrap().cfa == old(self).cfa
                &&& r.unwrap().tile@ == old(self).grid.tile_area(old(self).grid.index())
                &&& r.unwrap().core@ == old(self).grid.core_area(old(self).grid.index())
                &&& <T as FromSpec<i8>>::obeys_from_spec() ==> r.unwrap().garbage@ =~= seq![
                    num::<T>(0),
                    num(0),
                    num(0),
                ]
                &&& *r.unwrap().rgb == *old(self).rgb
                &&& *final(self).rgb == *final(r.unwrap().rgb)
                &&& final(self).grid.index() == old(self).grid.index() + 1
            },
            old(self).grid.index() >= old(self).grid.total() ==> {
                &&& r is None
                &&& *final(self).rgb == *old(self).rgb
                &&& final(self).grid == old(self).grid
            },
    {
        let ghost before = self.grid;
        proof {
            lemma_index(before);
        }
        match self.grid.next() {
            Some(placement) => {
                proof {
                    lemma_placement(before, before.index());
                }
                let zero: T = sample::<T>(0);
                Some(
                    Tile {
                        raw: Pix2DView { rect: self.raw.rect, inner: self.raw.inner },
                        cfa: self.cfa,
                        rgb: &mut *self.rgb,
                        tile: placement.tile,
                        core: placement.core,
                        garbage: [zero, zero, zero],
                    },
                )
            },
            None => None,
        }
    }
}

/// `out`, with what lies in `core` taken from `img`, whose first pixel lies at that of `tile`.
pub open spec fn pasted<P>(out: Image<P>, img: Image<P>, tile: Area, core: Area) -> Image<P> {
    Image::tabulate(
        out.width,
        out.height,
        |y: int, x: int|
            if core.contains(y, x) {
                img.px(y - tile.y, x - tile.x)
            } else {
                out.px(y, x)
            },
    )
}

/// It does not matter which of two tiles is pasted first: neither reaches the core of the other.
pub proof fn law_tiles_in_any_order<P>(
    g: TileGrid,
    i: int,
    j: int,
    out: Image<P>,
    a: Image<P>,
    b: Image<P>,
)
    requires
        g.tileable(),
        0 <= i < g.total(),
        0 <= j < g.total(),
        i != j,
    ensures
        pasted(
            pasted(out, a, g.tile_area(i), g.core_area(i)),
            b,
            g.tile_area(j),
            g.core_area(j),
        ) == pasted(
            pasted(out, b, g.tile_area(j), g.core_area(j)),
            a,
            g.tile_area(i),
            g.core_area(i),
        ),
{
    let ab = pasted(
        pasted(out, a, g.tile_area(i), g.core_area(i)),
        b,
        g.tile_area(j),
        g.core_area(j),
    );
    let ba = pasted(
        pasted(out, b, g.tile_area(j), g.core_area(j)),
        a,
        g.tile_area(i),
        g.core_area(i),
    );
    assert forall|y: int, x: int| #[trigger] ab.contains(y, x) implies ab.px(y, x) == ba.px(
        y,
        x,
    ) by {
        law_cores_disjoint(g, i, j, y, x);
    }
    lemma_image_equal(ab, ba);
}

impl<'a, 'b, T> Tile<'a, 'b, T> {
    /// Tile and core lie inside the window.
    pub open spec fn wf(&self) -> bool {
        &&& self.raw.wf()
        &&& self.cfa.wf()
        &&& self.raw@.covers(self.tile@)
        &&& self.raw@.covers(self.core@)
    }

    /// The pixel in that row and column of the tile belongs to the core.
    pub open spec fn in_core(&self, row: int, col: int) -> bool {
        self.core@.contains(self.tile.p.y + row, self.tile.p.x + col)
    }

    /// What is measured in the tile.
    pub fn raw(&self) -> (r: Pix2DView<'a, T>)
        requires
            self.wf(),
        ensures
            r.wf(),
            r.inner == self.raw.inner,
            r@ == self.raw@.crop(self.tile@),
    {
        self.raw.window(self.tile)
    }

    /// The filter array, counted from the tile's first pixel.
    pub fn cfa(&self) -> (r: CFA)
        requires
            self.wf(),
        ensures
            r.wf(),
            r@ == shifted(self.cfa@, self.tile.p.x as int, self.tile.p.y as int),
    {
        self.cfa.shift(self.tile.p.x, self.tile.p.y)
    }

    /// The colours of the pixel in that row and column of the tile, for writing. Outside the core
    /// what is written is thrown away.
    pub fn rgb_mut(&mut self, row: usize, col: usize) -> (r: &mut [T; 3])
        requires
            old(self).wf(),
            row < old(self).tile.d.h,
            col < old(self).tile.d.w,
            old(self).in_core(row as int, col as int) ==> old(self).rgb.wf() && old(
                self,
            ).rgb@.contains(old(self).tile.p.y + row, old(self).tile.p.x + col),
        ensures
            final(self).raw == old(self).raw,
            final(self).cfa == old(self).cfa,
            final(self).tile == old(self).tile,
            final(self).core == old(self).core,
            *final(final(self).rgb) == *final(old(self).rgb),
            old(self).in_core(row as int, col as int) ==> {
                &&& *r == old(self).rgb@.px(old(self).tile.p.y + row, old(self).tile.p.x + col)
                &&& final(self).rgb.wf()
                &&& final(self).rgb@ == old(self).rgb@.update(
                    old(self).tile.p.y + row,
                    old(self).tile.p.x + col,
                    *final(r),
                )
                &&& final(self).garbage == old(self).garbage
            },
            !old(self).in_core(row as int, col as int) ==> {
                &&& *r == old(self).garbage
                &&& *final(self).rgb == *old(self).rgb
                &&& final(self).garbage == *final(r)
            },
    {
        let raw_x: usize = self.tile.p.x + col;
        let raw_y: usize = self.tile.p.y + row;
        let is_core: bool = raw_x >= self.core.p.x && raw_x < self.core.p.x + self.core.d.w && raw_y
            >= self.core.p.y && raw_y < self.core.p.y + self.core.d.h;
        if is_core {
            self.rgb.at_mut(raw_y, raw_x)
        } else {
            &mut self.garbage
        }
    }
}

/// Of a tile, the pixels of its core arrive, each in its place, and no others.
pub proof fn law_only_the_core_arrives<P>(
    out: Image<P>,
    img: Image<P>,
    tile: Area,
    core: Area,
    y: int,
    x: int,
)
    requires
        out.contains(y, x),
    ensures
        core.contains(y, x) ==> pasted(out, img, tile, core).px(y, x) == img.px(
            y - tile.y,
            x - tile.x,
        ),
        !core.contains(y, x) ==> pasted(out, img, tile, core).px(y, x) == out.px(y, x),
{
}

} // verus!
