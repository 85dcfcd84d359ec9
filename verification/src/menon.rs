//! The Menon demosaic algorithm for Bayer filter arrays.

use crate::cfa::{bayer, law_bayer_from_anywhere, shifted, Mosaic, CFA};
use crate::chroma::fill_chroma;
use crate::direction::pick_direction;
use crate::geometry::{Area, Dim2, Rect};
use crate::green::{build_gh_gv, fill_green};
use crate::grid::{
    law_one_core_per_pixel, lemma_axis_core, lemma_axis_end, lemma_index, lemma_placement,
    lemma_tile_number, TileGrid,
};
use crate::image::{lemma_image_equal, lemma_window_area, Color2D, Image, Pix2D, Pix2DView};
use crate::locality::{law_eight_pixels_decide, Frame};
use crate::model::{lemma_menon_size, menon};
use crate::neighbours::addressable;
use crate::parallel::par_map;
use crate::refine::refine;
use crate::sample::{arithmetic, sample, Sample};
use crate::tiles::{pasted, DemosaicTiler, Tile};
use vstd::prelude::*;

verus! {

/// The side of a tile.
pub const TILE_SIZE: usize = 256;

/// How far a tile reaches beyond its core.
pub const TILE_HALO: usize = 8;

/// The Menon demosaic algorithm.
#[derive(Debug, Default)]
pub struct MenonDemosaic;

/// What is measured in a tile, and through which filters.
pub struct TileJob<'a, T> {
    pub raw: Pix2DView<'a, T>,
    pub cfa: CFA,
}

impl<'a, T> TileJob<'a, T> {
    pub open spec fn wf(&self) -> bool {
        &&& self.raw.wf()
        &&& addressable(self.raw@)
        &&& self.cfa.wf()
        &&& bayer(self.cfa@)
    }
}

/// The colours of all pixels of a tile.
pub fn render<T: Sample>(job: &TileJob<'_, T>) -> (r: Color2D<T>)
    requires
        arithmetic::<T>(),
        job.wf(),
    ensures
        r.wf(),
        r@ == menon(job.raw@, job.cfa@),
{
    let raw = &job.raw;
    let cfa = &job.cfa;
    let w: usize = raw.width();
    let h: usize = raw.height();
    let zero: T = sample::<T>(0);
    proof {
        lemma_window_area(*raw);
    }
    let mut gh: Pix2D<T> = Pix2D::filled(w, h, zero);
    let mut gv: Pix2D<T> = Pix2D::filled(w, h, zero);
    build_gh_gv(raw, cfa, &mut gh, &mut gv);

    let mut dir: Pix2D<u16> = Pix2D::filled(w, h, 0u16);
    pick_direction(raw, cfa, &gh, &gv, &mut dir);

    let mut rgb: Color2D<T> = Pix2D::filled(w, h, [zero, zero, zero]);
    fill_green(raw, cfa, &gh, &gv, &dir, &mut rgb);
    fill_chroma(raw, cfa, &dir, &mut rgb);
    refine(cfa, &dir, &mut rgb);
    rgb
}

/// What is thrown away last when the rows before row `y` of the tile, and the pixels before column
/// `x` of that row, are written one after the other; `garbage`, if all of them are in the core.
pub open spec fn thrown_away<P>(
    garbage: P,
    img: Image<P>,
    tile: Area,
    core: Area,
    y: nat,
    x: nat,
) -> P
    decreases y, x,
{
    if x > 0 {
        if core.contains(tile.y + y, tile.x + x - 1) {
            thrown_away(garbage, img, tile, core, y, (x - 1) as nat)
        } else {
            img.px(y as int, x - 1)
        }
    } else if y > 0 {
        thrown_away(garbage, img, tile, core, (y - 1) as nat, img.width)
    } else {
        garbage
    }
}

/// Copies the colours of a tile to where they belong: only those of its core arrive.
pub fn copy_to_tile<T: Sample>(rgb: &Color2D<T>, tile: &mut Tile<'_, '_, T>)
    requires
        rgb.wf(),
        rgb.width == old(tile).tile.d.w,
        rgb.height == old(tile).tile.d.h,
        old(tile).wf(),
        old(tile).core@.within(old(tile).tile@),
        old(tile).rgb.wf(),
        old(tile).rgb@.covers(old(tile).core@),
    ensures
        final(tile).raw == old(tile).raw,
        final(tile).cfa == old(tile).cfa,
        final(tile).tile == old(tile).tile,
        final(tile).core == old(tile).core,
        final(tile).rgb.wf(),
        final(tile).rgb@ == pasted(old(tile).rgb@, rgb@, old(tile).tile@, old(tile).core@),
        final(tile).garbage == thrown_away(
            old(tile).garbage,
            rgb@,
            old(tile).tile@,
            old(tile).core@,
            rgb@.height,
            0,
        ),
        *final(final(tile).rgb) == *final(old(tile).rgb),
{
    let ghost before = *tile;
    let ghost out = tile.rgb@;
    let ghost area = tile.tile@;
    let ghost core = tile.core@;
    let mut y: usize = 0;
    while y < rgb.height
        invariant
            rgb.wf(),
            rgb.width == before.tile.d.w,
            rgb.height == before.tile.d.h,
            before.wf(),
            tile.raw == before.raw,
            tile.cfa == before.cfa,
            tile.tile == before.tile,
            tile.core == before.core,
            *final(tile.rgb) == *final(before.rgb),
            area == before.tile@,
            core == before.core@,
            tile.rgb.wf(),
            tile.rgb@.rectangular(),
            tile.rgb@.width == out.width,
            tile.rgb@.height == out.height,
            out.covers(core),
            y <= rgb.height,
            tile.garbage == thrown_away(before.garbage, rgb@, area, core, y as nat, 0),
            forall|r: int, c: int| #[trigger]
                out.contains(r, c) ==> tile.rgb@.px(r, c) == if core.contains(r, c) && area.contains(
                    r,
                    c,
                ) && r - area.y < y {
                    rgb@.px(r - area.y, c - area.x)
                } else {
                    out.px(r, c)
                },
        decreases rgb.height - y,
    {
        let mut x: usize = 0;
        while x < rgb.width
            invariant
                rgb.wf(),
                rgb.width == before.tile.d.w,
                rgb.height == before.tile.d.h,
                before.wf(),
                tile.raw == before.raw,
                tile.cfa == before.cfa,
                tile.tile == before.tile,
                tile.core == before.core,
                *final(tile.rgb) == *final(before.rgb),
                area == before.tile@,
                core == before.core@,
                tile.rgb.wf(),
                tile.rgb@.rectangular(),
                tile.rgb@.width == out.width,
                tile.rgb@.height == out.height,
                out.covers(core),
                y < rgb.height,
                x <= rgb.width,
                tile.garbage == thrown_away(before.garbage, rgb@, area, core, y as nat, x as nat),
                forall|r: int, c: int| #[trigger]
                    out.contains(r, c) ==> tile.rgb@.px(r, c) == if core.contains(r, c)
                        && area.contains(r, c) && (r - area.y < y || (r - area.y == y && c - area.x
                        < x)) {
                        rgb@.px(r - area.y, c - area.x)
                    } else {
                        out.px(r, c)
                    },
            decreases rgb.width - x,
        {
            let p: [T; 3] = *rgb.at(y, x);
            *tile.rgb_mut(y, x) = p;
            x += 1;
        }
        y += 1;
    }
    proof {
        let after = pasted(out, rgb@, area, core);
        assert forall|r: int, c: int| #[trigger] tile.rgb@.contains(r, c) implies tile.rgb@.px(r, c)
            == after.px(r, c) by {
            assert(out.contains(r, c));
        }
        lemma_image_equal(tile.rgb@, after);
    }
}

/// What a tile of the standard size has around a pixel of its core settles the pixel's colours.
proof fn lemma_core_is_inner(g: TileGrid, i: int, y: int, x: int)
    requires
        g.tileable(),
        0 <= i < g.total(),
        g.size == (Dim2 { w: TILE_SIZE, h: TILE_SIZE }),
        g.halo == (Dim2 { w: TILE_HALO, h: TILE_HALO }),
        g.core_area(i).contains(y, x),
    ensures
        ({
            let area = g.tile_area(i);
            let f = Frame::tile(g.extent.w as int, g.extent.h as int, area);
            &&& f.roomy()
            &&& f.inner(y - area.y, x - area.x, 8)
            &&& area.contains(y, x)
        }),
{
    let col = i % g.cols();
    let row = i / g.cols();
    lemma_tile_number(g, i);
    lemma_axis_end(g.x_axis(), col);
    lemma_axis_core(g.x_axis(), col);
    lemma_axis_end(g.y_axis(), row);
    lemma_axis_core(g.y_axis(), row);
    assert(col == 0 ==> g.x_axis().start(col) == 0) by (nonlinear_arith);
    assert(row == 0 ==> g.y_axis().start(row) == 0) by (nonlinear_arith);
}

impl MenonDemosaic {
    pub fn new() -> (r: Self)
        ensures
            r == MenonDemosaic,
    {
        MenonDemosaic
    }

    /// The colours of the pixels in `roi`, each of which was measured through the filter that
    /// `cfa`, counted from the first of all pixels, has over it.
    ///
    /// The tiles are rendered side by side, but the result is that of the whole region in one
    /// piece: no pixel tells which tile it comes from.
    pub fn demosaic<T: Sample + Send + Sync>(
        &self,
        pixels: &Pix2D<T>,
        cfa: &CFA,
        roi: Rect,
    ) -> (r: Color2D<T>)
        requires
            arithmetic::<T>(),
            pixels.wf(),
            cfa.wf(),
            bayer(cfa@),
            pixels@.covers(roi@),
        ensures
            r.wf(),
            r@ == menon(
                pixels@.crop(roi@),
                shifted(cfa@, roi.p.x as int, roi.p.y as int),
            ),
    {
        let cfa_roi: CFA = cfa.shift(roi.p.x, roi.p.y);
        let input: Pix2DView<'_, T> = pixels.window(roi);
        let size: Dim2 = Dim2::new(TILE_SIZE, TILE_SIZE);
        let halo: Dim2 = Dim2::new(TILE_HALO, TILE_HALO);
        let zero: T = sample::<T>(0);
        proof {
            lemma_window_area(input);
            law_bayer_from_anywhere(cfa@, roi.p.x as int, roi.p.y as int);
        }
        let mut rgb: Color2D<T> = Pix2D::filled(roi.width(), roi.height(), [zero, zero, zero]);
        let ghost raw = input@;
        let ghost mosaic = cfa_roi@;

        let images: Vec<Color2D<T>> = render_tiles(&input, &cfa_roi, &mut rgb, size, halo);
        paste_tiles(&images, &input, &cfa_roi, &mut rgb, size, halo);
        proof {
            lemma_stitched(grid_of(input.rect.d, size, halo), raw, mosaic, images@, rgb@);
        }
        rgb
    }
}

/// The walk over the tiles of an image, before its first step.
spec fn grid_of(extent: Dim2, size: Dim2, halo: Dim2) -> TileGrid {
    TileGrid { extent, size, halo, trow: 0, tcol: 0 }
}

/// The images are those of the tiles of `raw`, each rendered for itself.
spec fn rendered<T: Sample>(
    g: TileGrid,
    raw: Image<T>,
    cfa: Mosaic,
    images: Seq<Color2D<T>>,
) -> bool {
    &&& images.len() == g.total()
    &&& forall|k: int|
        0 <= k < images.len() ==> (#[trigger] images[k]).wf() && images[k]@ == menon(
            raw.crop(g.tile_area(k)),
            shifted(cfa, g.tile_area(k).x, g.tile_area(k).y),
        )
}

/// The pixels of `out` that belong to the first `n` tiles are those of the images of these tiles.
spec fn stitched<T: Sample>(
    g: TileGrid,
    images: Seq<Color2D<T>>,
    out: Image<[T; 3]>,
    n: int,
) -> bool {
    &&& out.rectangular()
    &&& out.width == g.extent.w
    &&& out.height == g.extent.h
    &&& forall|y: int, x: int| #[trigger]
        out.contains(y, x) && g.owner(y, x) < n ==> out.px(y, x) == images[g.owner(y, x)]@.px(
            y - g.tile_area(g.owner(y, x)).y,
            x - g.tile_area(g.owner(y, x)).x,
        )
}

/// In the core of a tile, the image of the tile is that of the whole.
proof fn lemma_core<T: Sample>(g: TileGrid, raw: Image<T>, cfa: Mosaic, k: int, y: int, x: int)
    requires
        g.tileable(),
        g.size == (Dim2 { w: TILE_SIZE, h: TILE_SIZE }),
        g.halo == (Dim2 { w: TILE_HALO, h: TILE_HALO }),
        g.extent.w == raw.width,
        g.extent.h == raw.height,
        bayer(cfa),
        0 <= k < g.total(),
        g.core_area(k).contains(y, x),
    ensures
        menon(
            raw.crop(g.tile_area(k)),
            shifted(cfa, g.tile_area(k).x, g.tile_area(k).y),
        ).px(y - g.tile_area(k).y, x - g.tile_area(k).x) == menon(raw, cfa).px(y, x),
{
    let area = g.tile_area(k);
    lemma_placement(g, k);
    lemma_core_is_inner(g, k, y, x);
    law_eight_pixels_decide(raw, cfa, area, y - area.y, x - area.x);
}

/// Stitched together at their cores, images that agree there with `whole` are `whole`.
proof fn lemma_glued<T: Sample>(
    g: TileGrid,
    images: Seq<Color2D<T>>,
    out: Image<[T; 3]>,
    whole: Image<[T; 3]>,
)
    requires
        g.tileable(),
        stitched(g, images, out, g.total()),
        whole.rectangular(),
        whole.width == g.extent.w,
        whole.height == g.extent.h,
        forall|k: int, y: int, x: int|
            0 <= k < g.total() && #[trigger] g.core_area(k).contains(y, x) ==> images[k]@.px(
                y - g.tile_area(k).y,
                x - g.tile_area(k).x,
            ) == whole.px(y, x),
    ensures
        out == whole,
{
    assert forall|y: int, x: int| #[trigger] out.contains(y, x) implies out.px(y, x) == whole.px(
        y,
        x,
    ) by {
        law_one_core_per_pixel(g, y, x);
        assert(g.core_area(g.owner(y, x)).contains(y, x));
    }
    lemma_image_equal(out, whole);
}

/// Stitched together at their cores, the images of all tiles are the image in one piece.
proof fn lemma_stitched<T: Sample>(
    g: TileGrid,
    raw: Image<T>,
    cfa: Mosaic,
    images: Seq<Color2D<T>>,
    out: Image<[T; 3]>,
)
    requires
        g.tileable(),
        g.size == (Dim2 { w: TILE_SIZE, h: TILE_SIZE }),
        g.halo == (Dim2 { w: TILE_HALO, h: TILE_HALO }),
        g.extent.w == raw.width,
        g.extent.h == raw.height,
        bayer(cfa),
        rendered(g, raw, cfa, images),
        stitched(g, images, out, g.total()),
    ensures
        out == menon(raw, cfa),
{
    lemma_menon_size(raw, cfa);
    assert forall|k: int, y: int, x: int|
        0 <= k < g.total() && #[trigger] g.core_area(k).contains(y, x) implies images[k]@.px(
        y - g.tile_area(k).y,
        x - g.tile_area(k).x,
    ) == menon(raw, cfa).px(y, x) by {
        lemma_core(g, raw, cfa, k, y, x);
        assert(images[k].wf());
    }
    lemma_glued(g, images, out, menon(raw, cfa));
}

/// One more tile is stitched to the others.
proof fn lemma_stitch<T: Sample>(
    g: TileGrid,
    images: Seq<Color2D<T>>,
    out: Image<[T; 3]>,
    i: int,
)
    requires
        g.tileable(),
        0 <= i < g.total(),
        stitched(g, images, out, i),
    ensures
        stitched(
            g,
            images,
            pasted(out, images[i]@, g.tile_area(i), g.core_area(i)),
            i + 1,
        ),
{
    let after = pasted(out, images[i]@, g.tile_area(i), g.core_area(i));
    assert forall|y: int, x: int| #[trigger]
        after.contains(y, x) && g.owner(y, x) < i + 1 implies after.px(y, x)
        == images[g.owner(y, x)]@.px(
        y - g.tile_area(g.owner(y, x)).y,
        x - g.tile_area(g.owner(y, x)).x,
    ) by {
        assert(out.contains(y, x));
        law_one_core_per_pixel(g, y, x);
        assert(g.core_area(i).contains(y, x) <==> i == g.owner(y, x));
    }
}

/// Copies the images of the tiles to `rgb`, one tile after the other.
fn paste_tiles<T: Sample>(
    images: &Vec<Color2D<T>>,
    input: &Pix2DView<'_, T>,
    cfa: &CFA,
    rgb: &mut Color2D<T>,
    size: Dim2,
    halo: Dim2,
)
    requires
        input.wf(),
        cfa.wf(),
        grid_of(input.rect.d, size, halo).tileable(),
        rendered(grid_of(input.rect.d, size, halo), input@, cfa@, images@),
        old(rgb).wf(),
        old(rgb).width == input.rect.d.w,
        old(rgb).height == input.rect.d.h,
    ensures
        final(rgb).wf(),
        stitched(
            grid_of(input.rect.d, size, halo),
            images@,
            final(rgb)@,
            grid_of(input.rect.d, size, halo).total(),
        ),
{
    let window = Pix2DView { rect: input.rect, inner: input.inner };
    let mut tiler = DemosaicTiler::from_view(window, cfa, rgb, size, halo);
    let ghost grid = grid_of(input.rect.d, size, halo);
    let ghost last = *final(tiler.rgb);
    let mut i: usize = 0;
    loop
        invariant
            tiler.wf(),
            tiler.grid.extent == grid.extent,
            tiler.grid.size == grid.size,
            tiler.grid.halo == grid.halo,
            *final(tiler.rgb) == last,
            grid.tileable(),
            rendered(grid, input@, cfa@, images@),
            i == tiler.grid.index(),
            i <= grid.total(),
            tiler.rgb.wf(),
            stitched(grid, images@, tiler.rgb@, i as int),
        ensures
            i == grid.total(),
        decreases grid.total() - i,
    {
        proof {
            lemma_index(tiler.grid);
        }
        let ghost out = tiler.rgb@;
        match tiler.next() {
            Some(mut tile) => {
                proof {
                    lemma_placement(grid, i as int);
                    lemma_stitch(grid, images@, out, i as int);
                    assert(images@[i as int].wf());
                }
                copy_to_tile(&images[i], &mut tile);
            },
            None => {
                break ;
            },
        }
        assert(i < images.len());
        i += 1;
    }
}

/// The colours of all tiles, each with its halo.
fn render_tiles<T: Sample + Send + Sync>(
    input: &Pix2DView<'_, T>,
    cfa: &CFA,
    rgb: &mut Color2D<T>,
    size: Dim2,
    halo: Dim2,
) -> (r: Vec<Color2D<T>>)
    requires
        arithmetic::<T>(),
        input.wf(),
        cfa.wf(),
        bayer(cfa@),
        size == (Dim2 { w: TILE_SIZE, h: TILE_SIZE }),
        halo == (Dim2 { w: TILE_HALO, h: TILE_HALO }),
    ensures
        *final(rgb) == *old(rgb),
        rendered(grid_of(input.rect.d, size, halo), input@, cfa@, r@),
{
    let window = Pix2DView { rect: input.rect, inner: input.inner };
    let mut tiler = DemosaicTiler::from_view(window, cfa, rgb, size, halo);
    let ghost grid = grid_of(input.rect.d, size, halo);
    let ghost start = *tiler.rgb;
    let ghost last = *final(tiler.rgb);
    let mut jobs: Vec<TileJob<'_, T>> = Vec::new();
    loop
        invariant
            input.wf(),
            cfa.wf(),
            bayer(cfa@),
            tiler.wf(),
            tiler.raw@ == input@,
            tiler.cfa@ == cfa@,
            tiler.grid.extent == grid.extent,
            tiler.grid.size == grid.size,
            tiler.grid.halo == grid.halo,
            *tiler.rgb == start,
            *final(tiler.rgb) == last,
            grid.tileable(),
            grid.extent == input.rect.d,
            grid.size == (Dim2 { w: TILE_SIZE, h: TILE_SIZE }),
            jobs@.len() == tiler.grid.index(),
            jobs@.len() <= grid.total(),
            forall|k: int|
                0 <= k < jobs@.len() ==> {
                    &&& (#[trigger] jobs@[k]).wf()
                    &&& jobs@[k].raw@ == input@.crop(grid.tile_area(k))
                    &&& jobs@[k].cfa@ == shifted(
                        cfa@,
                        grid.tile_area(k).x,
                        grid.tile_area(k).y,
                    )
                },
        ensures
            tiler.grid.index() >= grid.total(),
        decreases grid.total() - jobs@.len(),
    {
        proof {
            lemma_index(tiler.grid);
        }
        match tiler.next() {
            Some(tile) => {
                proof {
                    lemma_placement(grid, jobs@.len() as int);
                    law_bayer_from_anywhere(cfa@, tile.tile.p.x as int, tile.tile.p.y as int);
                }
                jobs.push(TileJob { raw: tile.raw(), cfa: tile.cfa() });
            },
            None => {
                break ;
            },
        }
    }
    let paint = |job: TileJob<'_, T>| -> (r: Color2D<T>)
        requires
            arithmetic::<T>(),
            job.wf(),
        ensures
            r.wf(),
            r@ == menon(job.raw@, job.cfa@),
        {
            render(&job)
        };
    par_map(jobs, paint)
}

} // verus!
