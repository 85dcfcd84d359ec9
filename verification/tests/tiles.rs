use menon::cfa::CFA;
use menon::geometry::Dim2;
use menon::image::{Color2D, Pix2D};
use menon::tiles::DemosaicTiler;

fn raw(width: usize, height: usize) -> Pix2D<f32> {
    Pix2D::filled(width, height, 0.0)
}

fn black(width: usize, height: usize) -> Color2D<f32> {
    Pix2D::filled(width, height, [0.0; 3])
}

fn assert_tiling(width: usize, height: usize, size: Dim2, halo: Dim2) {
    let raw = raw(width, height);
    let cfa = CFA::new("RGGB");
    let mut rgb = black(width, height);

    {
        let mut tiler = DemosaicTiler::new(&raw, &cfa, &mut rgb, size, halo);
        while let Some(mut tile) = tiler.next() {
            assert!(!tile.core.is_empty());
            for row in 0..tile.tile.d.h {
                for col in 0..tile.tile.d.w {
                    for value in tile.rgb_mut(row, col) {
                        *value += 1.0;
                    }
                }
            }
        }
    }
    assert!(
        rgb.data.iter().all(|pixel| *pixel == [1.0; 3]),
        "core coverage is not exactly one for image {width}x{height}, tile {:?}, halo {:?}",
        size,
        halo
    );

    let mut rgb = black(width, height);
    {
        let mut tiler = DemosaicTiler::new(&raw, &cfa, &mut rgb, size, halo);
        while let Some(mut tile) = tiler.next() {
            for row in 0..tile.tile.d.h {
                for col in 0..tile.tile.d.w {
                    let is_halo = row < halo.h
                        || row >= tile.tile.d.h.saturating_sub(halo.h)
                        || col < halo.w
                        || col >= tile.tile.d.w.saturating_sub(halo.w);
                    *tile.rgb_mut(row, col) = [if is_halo { -1.0 } else { 1.0 }; 3];
                }
            }
        }
    }
    for row in halo.h..height.saturating_sub(halo.h) {
        for col in halo.w..width.saturating_sub(halo.w) {
            assert_eq!(
                *rgb.at(row, col),
                [1.0; 3],
                "halo write reached the core at ({col}, {row}) for image {width}x{height}, tile {:?}, halo {:?}",
                size,
                halo
            );
        }
    }
}

#[test]
fn tiles_cover_configuration_matrix() {
    for (width, height, size, halo) in [
        (1, 1, Dim2::new(1, 1), Dim2::new(0, 0)),
        (2, 3, Dim2::new(3, 5), Dim2::new(1, 2)),
        (3, 3, Dim2::new(3, 3), Dim2::new(1, 1)),
        (7, 7, Dim2::new(5, 5), Dim2::new(1, 1)),
        (8, 6, Dim2::new(4, 4), Dim2::new(1, 1)),
        (8, 7, Dim2::new(5, 5), Dim2::new(1, 1)),
        (17, 13, Dim2::new(6, 5), Dim2::new(1, 1)),
        (500, 500, Dim2::new(256, 256), Dim2::new(8, 8)),
        (501, 500, Dim2::new(255, 256), Dim2::new(7, 8)),
        (4096, 17, Dim2::new(256, 9), Dim2::new(8, 2)),
        (4097, 18, Dim2::new(257, 10), Dim2::new(9, 2)),
        (10000, 19, Dim2::new(1024, 11), Dim2::new(32, 3)),
    ] {
        assert_tiling(width, height, size, halo);
    }
}

fn assert_cfa_is_tile_local(size: Dim2) {
    let raw = raw(8, 7);
    let cfa = CFA::new("RGGB");
    let mut rgb = black(8, 7);

    let mut tiler = DemosaicTiler::new(&raw, &cfa, &mut rgb, size, Dim2::new(1, 1));
    while let Some(tile) = tiler.next() {
        let tile_cfa = tile.cfa();
        for row in 0..tile.tile.d.h {
            for col in 0..tile.tile.d.w {
                assert_eq!(
                    tile_cfa.color_at(row, col),
                    cfa.color_at(tile.tile.p.y + row, tile.tile.p.x + col)
                );
            }
        }
    }
}

#[test]
fn cfa_phase_is_correct_for_even_tile_stride() {
    assert_cfa_is_tile_local(Dim2::new(4, 4));
}

#[test]
fn cfa_phase_is_correct_for_odd_tile_stride() {
    assert_cfa_is_tile_local(Dim2::new(5, 5));
}

#[test]
fn tiles_come_row_after_row_and_then_no_more() {
    let raw = raw(8, 7);
    let cfa = CFA::new("RGGB");
    let mut rgb = black(8, 7);
    let mut tiler = DemosaicTiler::new(&raw, &cfa, &mut rgb, Dim2::new(5, 5), Dim2::new(1, 1));
    let mut seen = vec![];
    while let Some(tile) = tiler.next() {
        let (t, c) = (tile.tile, tile.core);
        seen.push((t.p.x, t.p.y, t.d.w, t.d.h, c.p.x, c.p.y, c.d.w, c.d.h));
    }
    assert_eq!(
        seen,
        vec![
            (0, 0, 5, 5, 0, 0, 4, 4),
            (3, 0, 5, 5, 4, 0, 4, 4),
            (0, 3, 5, 4, 0, 4, 4, 3),
            (3, 3, 5, 4, 4, 4, 4, 3),
        ]
    );
    assert!(tiler.next().is_none());
    assert!(tiler.next().is_none());
}

#[test]
fn an_image_without_rows_has_no_tiles() {
    let raw = raw(8, 0);
    let cfa = CFA::new("RGGB");
    let mut rgb = black(8, 0);
    let mut tiler = DemosaicTiler::new(&raw, &cfa, &mut rgb, Dim2::new(4, 4), Dim2::new(1, 1));
    assert!(tiler.next().is_none());
}

#[test]
fn an_image_without_columns_has_empty_tiles() {
    let raw = raw(0, 5);
    let cfa = CFA::new("RGGB");
    let mut rgb = black(0, 5);
    let mut tiler = DemosaicTiler::new(&raw, &cfa, &mut rgb, Dim2::new(4, 4), Dim2::new(1, 1));
    let mut n = 0;
    while let Some(tile) = tiler.next() {
        assert!(tile.core.is_empty());
        n += 1;
    }
    assert_eq!(n, 2);
}

#[test]
fn a_very_tall_tile_does_not_overflow_the_walk() {
    let raw: Pix2D<f32> = raw(1, 3);
    let cfa = CFA::new("RGGB");
    let mut rgb = black(1, 3);
    let size = Dim2::new(1, usize::MAX);
    let mut tiler = DemosaicTiler::new(&raw, &cfa, &mut rgb, size, Dim2::new(0, 0));
    assert!(tiler.next().is_some());
    assert!(tiler.next().is_none());
}

#[test]
fn a_tile_shows_its_part_of_the_mosaic() {
    let mut raw = raw(8, 7);
    for y in 0..7 {
        for x in 0..8 {
            *raw.at_mut(y, x) = (10 * y + x) as f32;
        }
    }
    let cfa = CFA::new("RGGB");
    let mut rgb = black(8, 7);
    let mut tiler = DemosaicTiler::new(&raw, &cfa, &mut rgb, Dim2::new(5, 5), Dim2::new(1, 1));
    while let Some(tile) = tiler.next() {
        let view = tile.raw();
        assert_eq!((view.width(), view.height()), (tile.tile.d.w, tile.tile.d.h));
        for row in 0..view.height() {
            for col in 0..view.width() {
                assert_eq!(*view.at(row, col), (10 * (tile.tile.p.y + row) + tile.tile.p.x + col) as f32);
            }
        }
    }
}

#[test]
fn writes_outside_the_core_are_thrown_away_but_can_be_read_back() {
    let raw = raw(8, 4);
    let cfa = CFA::new("RGGB");
    let mut rgb = black(8, 4);
    {
        let mut tiler = DemosaicTiler::new(&raw, &cfa, &mut rgb, Dim2::new(4, 4), Dim2::new(1, 1));
        let mut tile = tiler.next().unwrap();
        assert_eq!(*tile.rgb_mut(0, 3), [0.0; 3]);
        *tile.rgb_mut(0, 3) = [5.0; 3];
        assert_eq!(*tile.rgb_mut(1, 3), [5.0; 3]);
        *tile.rgb_mut(0, 2) = [7.0; 3];
        assert_eq!(*tile.rgb_mut(0, 2), [7.0; 3]);
    }
    assert_eq!(*rgb.at(0, 2), [7.0; 3]);
    assert_eq!(*rgb.at(0, 3), [0.0; 3]);
    assert_eq!(*rgb.at(1, 3), [0.0; 3]);
}

#[test]
fn tiles_may_be_written_in_any_order() {
    let raw = raw(11, 9);
    let cfa = CFA::new("RGGB");
    let (size, halo) = (Dim2::new(6, 5), Dim2::new(1, 1));
    let paint = |order: &[usize]| {
        let mut rgb = black(11, 9);
        for number in order {
            let mut tiler = DemosaicTiler::new(&raw, &cfa, &mut rgb, size, halo);
            let mut i = 0;
            while let Some(mut tile) = tiler.next() {
                if i == *number {
                    for row in 0..tile.tile.d.h {
                        for col in 0..tile.tile.d.w {
                            *tile.rgb_mut(row, col) = [i as f32 + 1.0, row as f32, col as f32];
                        }
                    }
                }
                i += 1;
            }
            assert_eq!(i, 9);
        }
        rgb.data
    };
    let forward = paint(&[0, 1, 2, 3, 4, 5, 6, 7, 8]);
    assert!(forward.iter().all(|pixel| pixel[0] > 0.0));
    assert_eq!(forward, paint(&[8, 7, 6, 5, 4, 3, 2, 1, 0]));
    assert_eq!(forward, paint(&[4, 0, 8, 2, 6, 1, 3, 7, 5]));
}

#[test]
fn cores_lie_in_tiles_with_their_surroundings() {
    let (w, h) = (23, 17);
    let raw = raw(w, h);
    let cfa = CFA::new("RGGB");
    let mut rgb = black(w, h);
    let halo = Dim2::new(2, 3);
    let mut tiler = DemosaicTiler::new(&raw, &cfa, &mut rgb, Dim2::new(7, 8), halo);
    while let Some(tile) = tiler.next() {
        let (t, c) = (tile.tile, tile.core);
        assert!(t.p.x + t.d.w <= w && t.p.y + t.d.h <= h);
        assert!(t.p.x <= c.p.x.saturating_sub(halo.w));
        assert!(t.p.y <= c.p.y.saturating_sub(halo.h));
        assert!(t.p.x + t.d.w >= w.min(c.p.x + c.d.w + halo.w));
        assert!(t.p.y + t.d.h >= h.min(c.p.y + c.d.h + halo.h));
    }
}
