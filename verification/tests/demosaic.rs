use menon::cfa::{CFA, CFA_COLOR_G, CFA_COLOR_R};
use menon::direction::pick_direction;
use menon::geometry::{Dim2, Point, Rect};
use menon::green::{build_gh_gv, fill_green};
use menon::image::{reflect, Color2D, Pix2D};
use menon::menon::{copy_to_tile, render, MenonDemosaic, TileJob};
use menon::refine::refine;
use menon::tiles::DemosaicTiler;

/// A mosaic with edges, ramps and noise, the same on every run.
fn noise(width: usize, height: usize) -> Pix2D<f32> {
    let mut pix = Pix2D::filled(width, height, 0.0);
    let mut state: u32 = 12345;
    for y in 0..height {
        for x in 0..width {
            state = state.wrapping_mul(1664525).wrapping_add(1013904223);
            let ramp = (x as f32) * 0.01 + (y as f32) * 0.02;
            let edge = if (x / 7 + y / 11) % 2 == 0 { 0.75 } else { 0.0 };
            *pix.at_mut(y, x) = ramp + edge + (state >> 8) as f32 / 16777216.0;
        }
    }
    pix
}

fn at(img: &[Vec<f32>], y: isize, x: isize) -> f32 {
    img[reflect(y, img.len())][reflect(x, img[0].len())]
}

fn px(img: &[Vec<[f32; 3]>], y: isize, x: isize) -> [f32; 3] {
    img[reflect(y, img.len())][reflect(x, img[0].len())]
}

fn costs(raw: &[Vec<f32>], cfa: &CFA, g: &[Vec<f32>], vertical: bool) -> Vec<Vec<f32>> {
    const KX: [isize; 8] = [0, -2, -1, 0, -2, -1, 0, -2];
    const KY: [isize; 8] = [2, 2, 1, 0, 0, -1, -2, -2];
    const KW: [f32; 8] = [1.0, 1.0, 1.0, 3.0, 3.0, 1.0, 1.0, 1.0];
    let (h, w) = (raw.len(), raw[0].len());
    let (sy, sx) = if vertical { (2, 0) } else { (0, 2) };
    let mut buf1 = vec![vec![0.0f32; w]; h];
    let mut buf2 = vec![vec![0.0f32; w]; h];
    for y in 0..h {
        for x in 0..w {
            if cfa.color_at(y, x) != CFA_COLOR_G {
                let (iy, ix) = (y as isize, x as isize);
                let delta0 = at(raw, iy, ix) - at(g, iy, ix);
                let delta2 = at(raw, iy + sy, ix + sx) - at(g, iy + sy, ix + sx);
                buf1[y][x] = (delta0 - delta2).abs();
            }
        }
    }
    for y in 0..h {
        for x in 0..w {
            if cfa.color_at(y, x) != CFA_COLOR_G {
                let mut acc = 0.0;
                for i in 0..8 {
                    let (dy, dx) = if vertical { (KX[i], KY[i]) } else { (KY[i], KX[i]) };
                    let (v, u) = (y as isize + dy, x as isize + dx);
                    let inside = v >= 0 && u >= 0 && v < h as isize && u < w as isize;
                    acc += KW[i] * if inside { buf1[v as usize][u as usize] } else { 0.0 };
                }
                buf2[y][x] = acc;
            }
        }
    }
    buf2
}

/// The algorithm on a whole image, in place and without tiles.
fn in_one_piece(raw: &[Vec<f32>], cfa: &CFA) -> Vec<Vec<[f32; 3]>> {
    const WEIGHTS: [f32; 5] = [-0.25, 0.5, 0.5, 0.5, -0.25];
    let (h, w) = (raw.len(), raw[0].len());
    let green = |y: usize, x: usize| cfa.color_at(y, x) == CFA_COLOR_G;
    let mut gh = vec![vec![0.0f32; w]; h];
    let mut gv = vec![vec![0.0f32; w]; h];
    for y in 0..h {
        for x in 0..w {
            if !green(y, x) {
                for i in 0..5 {
                    let d = i as isize - 2;
                    gh[y][x] += WEIGHTS[i] * at(raw, y as isize, x as isize + d);
                    gv[y][x] += WEIGHTS[i] * at(raw, y as isize + d, x as isize);
                }
            }
        }
    }
    let dh = costs(raw, cfa, &gh, false);
    let dv = costs(raw, cfa, &gv, true);
    let mut rgb = vec![vec![[0.0f32; 3]; w]; h];
    let along = |y: usize, x: usize| dv[y][x] >= dh[y][x];
    for y in 0..h {
        for x in 0..w {
            rgb[y][x][CFA_COLOR_G] = if green(y, x) {
                raw[y][x]
            } else if along(y, x) {
                gh[y][x]
            } else {
                gv[y][x]
            };
        }
    }
    let step = |y: usize, x: usize, i: isize, across: bool| {
        if across {
            (y as isize, x as isize + i)
        } else {
            (y as isize + i, x as isize)
        }
    };
    for y in 0..h {
        for x in 0..w {
            if !green(y, x) {
                rgb[y][x][cfa.color_at(y, x)] = raw[y][x];
            } else {
                for across in [true, false] {
                    let c = if across { cfa.color_at(y, x + 1) } else { cfa.color_at(y + 1, x) };
                    let mut acc = rgb[y][x][CFA_COLOR_G];
                    for i in [-1, 1] {
                        let (v, u) = step(y, x, i, across);
                        acc += (at(raw, v, u) - px(&rgb, v, u)[CFA_COLOR_G]) / 2.0;
                    }
                    rgb[y][x][c] = acc;
                }
            }
        }
    }
    let target = |source: usize| if source == CFA_COLOR_R { 2 } else { CFA_COLOR_R };
    for pass in 0..4 {
        for y in 0..h {
            for x in 0..w {
                if (pass == 2) != green(y, x) {
                    continue;
                }
                if pass == 2 {
                    let mut p = rgb[y][x];
                    for across in [true, false] {
                        let c = if across { cfa.color_at(y, x + 1) } else { cfa.color_at(y + 1, x) };
                        let mut acc = rgb[y][x][CFA_COLOR_G];
                        for i in [-1, 1] {
                            let (v, u) = step(y, x, i, across);
                            acc += (px(&rgb, v, u)[c] - px(&rgb, v, u)[CFA_COLOR_G]) / 2.0;
                        }
                        p[c] = acc;
                    }
                    rgb[y][x] = p;
                    continue;
                }
                let source = cfa.color_at(y, x);
                let to = if pass == 1 { CFA_COLOR_G } else { target(source) };
                let mut acc = rgb[y][x][source];
                for i in [-1, 0, 1] {
                    if pass == 0 && i == 0 {
                        continue;
                    }
                    let (v, u) = step(y, x, i, along(y, x));
                    let excess = px(&rgb, v, u)[to] - px(&rgb, v, u)[source];
                    acc += excess / if pass == 0 { 2.0 } else { 3.0 };
                }
                rgb[y][x][to] = acc;
            }
        }
    }
    rgb
}

fn rows(pix: &Pix2D<f32>, roi: Rect) -> Vec<Vec<f32>> {
    (0..roi.d.h)
        .map(|y| (0..roi.d.w).map(|x| *pix.at(roi.p.y + y, roi.p.x + x)).collect())
        .collect()
}

fn assert_same(got: &Color2D<f32>, want: &[Vec<[f32; 3]>]) {
    assert_eq!(got.height, want.len());
    for y in 0..got.height {
        assert_eq!(got.width, want[y].len());
        for x in 0..got.width {
            assert_eq!(*got.at(y, x), want[y][x], "pixel ({x}, {y})");
        }
    }
}

#[test]
fn tiling_leaves_no_trace() {
    for (name, w, h) in [("RGGB", 600, 300), ("GBRG", 257, 530), ("BGGR", 256, 256), ("GRBG", 497, 17)] {
        let pix = noise(w, h);
        let cfa = CFA::new(name);
        let roi = pix.rect();
        let got = MenonDemosaic::new().demosaic(&pix, &cfa, roi);
        assert_same(&got, &in_one_piece(&rows(&pix, roi), &cfa));
    }
}

#[test]
fn a_region_is_demosaiced_as_if_it_were_all() {
    let pix = noise(310, 290);
    let cfa = CFA::new("RGGB");
    for (x, y, w, h) in [(0, 0, 310, 290), (1, 0, 280, 40), (3, 5, 20, 261), (7, 2, 1, 9), (2, 2, 2, 2)] {
        let roi = Rect::new(Point::new(x, y), Dim2::new(w, h));
        let got = MenonDemosaic::new().demosaic(&pix, &cfa, roi);
        assert_same(&got, &in_one_piece(&rows(&pix, roi), &cfa.shift(x, y)));
    }
}

#[test]
fn small_images_are_reflected_more_than_once() {
    for w in 1..6 {
        for h in 1..6 {
            for name in ["RGGB", "GRBG", "GBRG", "BGGR"] {
                let pix = noise(w, h);
                let cfa = CFA::new(name);
                let got = MenonDemosaic::new().demosaic(&pix, &cfa, pix.rect());
                assert_same(&got, &in_one_piece(&rows(&pix, pix.rect()), &cfa));
            }
        }
    }
}

#[test]
fn nothing_further_than_eight_pixels_counts() {
    let pix = noise(60, 50);
    let cfa = CFA::new("RGGB");
    let all = MenonDemosaic::new().demosaic(&pix, &cfa, pix.rect());
    let roi = Rect::new(Point::new(11, 9), Dim2::new(33, 30));
    let part = MenonDemosaic::new().demosaic(&pix, &cfa, roi);
    for y in 8..roi.d.h - 8 {
        for x in 8..roi.d.w - 8 {
            assert_eq!(part.at(y, x), all.at(roi.p.y + y, roi.p.x + x));
        }
    }
}

#[test]
fn what_is_measured_is_kept() {
    let pix = noise(300, 270);
    let cfa = CFA::new("GRBG");
    let rgb = MenonDemosaic::default().demosaic(&pix, &cfa, pix.rect());
    for y in 0..pix.height {
        for x in 0..pix.width {
            assert_eq!(rgb.at(y, x)[cfa.color_at(y, x)], *pix.at(y, x));
        }
    }
}

#[test]
fn an_even_grey_stays_even() {
    let pix: Pix2D<f32> = Pix2D::filled(270, 20, 0.5);
    let rgb = MenonDemosaic::new().demosaic(&pix, &CFA::new("RGGB"), pix.rect());
    assert!(rgb.data.iter().all(|p| *p == [0.5; 3]));
}

#[test]
fn an_empty_region_has_no_pixels() {
    let pix = noise(20, 20);
    let cfa = CFA::new("RGGB");
    for (w, h) in [(0, 5), (5, 0), (0, 0)] {
        let roi = Rect::new(Point::new(4, 4), Dim2::new(w, h));
        let rgb = MenonDemosaic::new().demosaic(&pix, &cfa, roi);
        assert_eq!((rgb.width, rgb.height, rgb.data.len()), (w, h, 0));
    }
}

#[test]
fn green_is_interpolated_from_five_pixels() {
    let mut pix: Pix2D<f32> = Pix2D::filled(5, 5, 0.0);
    for (k, v) in [3.0, 8.0, 20.0, 40.0, 100.0].iter().enumerate() {
        *pix.at_mut(2, k) = *v;
        *pix.at_mut(k, 2) = *v;
    }
    let cfa = CFA::new("RGGB");
    let view = pix.window(pix.rect());
    let mut gh = Pix2D::filled(5, 5, 9.0);
    let mut gv = Pix2D::filled(5, 5, 9.0);
    build_gh_gv(&view, &cfa, &mut gh, &mut gv);
    let expected = (8.0 + 20.0 + 40.0) / 2.0 - (3.0 + 100.0) / 4.0;
    assert_eq!(*gh.at(2, 2), expected);
    assert_eq!(*gv.at(2, 2), expected);
    assert_eq!(*gh.at(2, 0), (8.0 + 3.0 + 8.0) / 2.0 - (20.0 + 20.0) / 4.0);
    assert_eq!(*gh.at(2, 1), 9.0);
}

#[test]
fn the_smoother_direction_is_chosen() {
    let mut stripes: Pix2D<f32> = Pix2D::filled(12, 12, 0.0);
    for y in 0..12 {
        for x in 0..12 {
            *stripes.at_mut(y, x) = if (y / 3) % 2 == 0 { 10.0 } else { 1.0 };
        }
    }
    let cfa = CFA::new("RGGB");
    let view = stripes.window(stripes.rect());
    let mut gh = Pix2D::filled(12, 12, 0.0);
    let mut gv = Pix2D::filled(12, 12, 0.0);
    build_gh_gv(&view, &cfa, &mut gh, &mut gv);
    let mut dir: Pix2D<u16> = Pix2D::filled(12, 12, 7);
    pick_direction(&view, &cfa, &gh, &gv, &mut dir);
    for y in 0..12 {
        for x in 0..12 {
            let expected = if cfa.color_at(y, x) == CFA_COLOR_G { 7 } else { 1 };
            assert_eq!(*dir.at(y, x), expected);
        }
    }

    let mut columns: Pix2D<f32> = Pix2D::filled(12, 12, 0.0);
    for y in 0..12 {
        for x in 0..12 {
            *columns.at_mut(y, x) = *stripes.at(x, y);
        }
    }
    let view = columns.window(columns.rect());
    build_gh_gv(&view, &cfa, &mut gh, &mut gv);
    pick_direction(&view, &cfa, &gh, &gv, &mut dir);
    assert_eq!(*dir.at(4, 4), 0);
    let mut rgb = Pix2D::filled(12, 12, [2.0, 2.0, 2.0]);
    fill_green(&view, &cfa, &gh, &gv, &dir, &mut rgb);
    assert_eq!(*rgb.at(4, 4), [2.0, *gv.at(4, 4), 2.0]);
    assert_eq!(*rgb.at(4, 5), [2.0, *columns.at(4, 5), 2.0]);
}

#[test]
fn refinement_takes_thirds_and_halves() {
    let cfa = CFA::new("RGGB");
    let dir: Pix2D<u16> = Pix2D::filled(3, 1, 1);
    let mut rgb: Color2D<f32> = Pix2D::filled(3, 1, [0.0; 3]);
    *rgb.at_mut(0, 0) = [6.0, 12.0, 3.0];
    *rgb.at_mut(0, 1) = [9.0, 3.0, 6.0];
    *rgb.at_mut(0, 2) = [3.0, 9.0, 12.0];
    refine(&cfa, &dir, &mut rgb);
    let g0 = 6.0 - 6.0 / 3.0 + 6.0 / 3.0 - 6.0 / 3.0;
    let g2 = 3.0 - 6.0 / 3.0 + 6.0 / 3.0 - 6.0 / 3.0;
    let r1 = 3.0 + (6.0 - g0) / 2.0 + (3.0 - g2) / 2.0;
    let b1 = 3.0 + 3.0 / 2.0 + 3.0 / 2.0;
    let b1_with_red = b1 - r1;
    let b0 = 6.0 + b1_with_red / 3.0 + (3.0 - 6.0) / 3.0 + b1_with_red / 3.0;
    assert_eq!((g0, g2, r1, b1), (4.0, 1.0, 5.0, 6.0));
    assert_eq!(rgb.at(0, 0)[1], 4.0);
    assert_eq!(rgb.at(0, 2)[1], 1.0);
    assert_eq!(*rgb.at(0, 1), [5.0, 3.0, 6.0]);
    assert_eq!(rgb.at(0, 0)[2], b0);
    assert_eq!(rgb.at(0, 0)[0], 6.0);
}

#[test]
fn a_tile_is_rendered_with_its_own_edges() {
    let pix = noise(40, 30);
    let cfa = CFA::new("RGGB");
    let roi = Rect::new(Point::new(5, 4), Dim2::new(21, 19));
    let job = TileJob { raw: pix.window(roi), cfa: cfa.shift(5, 4) };
    assert_same(&render(&job), &in_one_piece(&rows(&pix, roi), &cfa.shift(5, 4)));
}

#[test]
fn only_the_core_of_a_tile_is_copied() {
    let pix = noise(8, 7);
    let cfa = CFA::new("RGGB");
    let mut rgb: Color2D<f32> = Pix2D::filled(8, 7, [0.0; 3]);
    {
        let (size, halo) = (Dim2::new(5, 5), Dim2::new(1, 1));
        let mut tiler = DemosaicTiler::new(&pix, &cfa, &mut rgb, size, halo);
        let mut n = 0.0;
        while let Some(mut tile) = tiler.next() {
            n += 1.0;
            let image = Pix2D::filled(tile.tile.d.w, tile.tile.d.h, [n; 3]);
            copy_to_tile(&image, &mut tile);
            assert_eq!(tile.garbage, [n; 3]);
        }
    }
    for y in 0..7 {
        for x in 0..8 {
            let expected = (if x < 4 { 1.0 } else { 2.0 }) + (if y < 4 { 0.0 } else { 2.0 });
            assert_eq!(*rgb.at(y, x), [expected; 3]);
        }
    }
}

#[test]
fn twice_the_light_gives_twice_the_colors() {
    let p = noise(270, 31);
    let mut q = noise(270, 31);
    for value in &mut q.data {
        *value *= 2.0;
    }
    let cfa = CFA::new("BGGR");
    let roi = Rect::new(Point::new(3, 2), Dim2::new(265, 28));
    let single = MenonDemosaic::new().demosaic(&p, &cfa, roi);
    let double = MenonDemosaic::new().demosaic(&q, &cfa, roi);
    for y in 0..roi.d.h {
        for x in 0..roi.d.w {
            for k in 0..3 {
                assert_eq!(double.at(y, x)[k], 2.0 * single.at(y, x)[k]);
            }
        }
    }
}

#[test]
fn far_pixels_do_not_matter_at_the_edges_either() {
    let a = noise(30, 14);
    let cfa = CFA::new("GRBG");
    let colors = MenonDemosaic::new().demosaic(&a, &cfa, a.rect());
    for (cy, cx) in [(0, 0), (13, 29), (0, 15), (7, 0), (6, 12), (3, 27)] {
        let mut b = noise(30, 14);
        let mut changed = 0;
        for y in 0..14usize {
            for x in 0..30usize {
                if y.abs_diff(cy) > 8 || x.abs_diff(cx) > 8 {
                    *b.at_mut(y, x) = 5.0 - *a.at(y, x);
                    changed += 1;
                }
            }
        }
        assert!(changed > 0);
        let others = MenonDemosaic::new().demosaic(&b, &cfa, b.rect());
        assert_eq!(others.at(cy, cx), colors.at(cy, cx));
    }
}
