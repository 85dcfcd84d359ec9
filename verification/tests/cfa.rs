use menon::cfa::{CFA, CFA_COLOR_B, CFA_COLOR_E, CFA_COLOR_G, CFA_COLOR_R};
use menon::image::reflect;

const XTRANS: &str = "GGRGGBGGBGGRBRGRBGGGBGGRGGRGGBRBGBRG";

#[test]
fn colors_repeat_over_the_plane() {
    let cfa = CFA::new("RGGB");
    assert_eq!(cfa.color_at(0, 0), CFA_COLOR_R);
    assert_eq!(cfa.color_at(0, 1), CFA_COLOR_G);
    assert_eq!(cfa.color_at(1, 0), CFA_COLOR_G);
    assert_eq!(cfa.color_at(1, 1), CFA_COLOR_B);
    assert_eq!(cfa.color_at(1000, 2001), CFA_COLOR_G);
    assert_eq!(cfa.color_at(usize::MAX, usize::MAX), CFA_COLOR_B);
}

#[test]
fn a_larger_block_is_read_row_after_row() {
    let cfa = CFA::new(XTRANS);
    let letters: Vec<char> = XTRANS.chars().collect();
    for row in 0..12 {
        for col in 0..12 {
            let expected = match letters[(row % 6) * 6 + col % 6] {
                'R' => CFA_COLOR_R,
                'G' => CFA_COLOR_G,
                _ => CFA_COLOR_B,
            };
            assert_eq!(cfa.color_at(row, col), expected);
        }
    }
}

#[test]
fn a_shift_moves_the_first_pixel() {
    for name in ["RGGB", "RGEB", XTRANS] {
        let cfa = CFA::new(name);
        for (x, y) in [(0, 0), (1, 0), (0, 1), (3, 2), (7, 11), (usize::MAX, usize::MAX - 1)] {
            let shifted = cfa.shift(x, y);
            for row in 0..13 {
                for col in 0..13 {
                    assert_eq!(
                        shifted.color_at(row, col),
                        cfa.color_at(row + y % 6, col + x % 6)
                    );
                }
            }
        }
    }
    assert_eq!(CFA::new("RGGB").shift(1, 0).name(), "GRBG");
    assert_eq!(CFA::new("RGGB").shift(0, 1).name(), "GBRG");
    assert_eq!(CFA::new("RGGB").shift(1, 1).name(), "BGGR");
}

#[test]
fn shifts_add_up() {
    let cfa = CFA::new(XTRANS);
    assert_eq!(cfa.shift(2, 5).shift(3, 4).name(), cfa.shift(5, 9).name());
}

#[test]
fn only_the_variants_of_rggb_are_rgb() {
    for name in ["RGGB", "GRBG", "GBRG", "BGGR"] {
        assert!(CFA::new(name).is_rgb(), "{name}");
    }
    for name in ["RGBG", "RRGB", "GRGB", "RGEB", "GGGG", "GBBR", XTRANS] {
        assert!(!CFA::new(name).is_rgb(), "{name}");
    }
    let wide = "RGRGRGGBGBGBRGRGRGGBGBGBRGRGRGGBGBGB";
    assert!(CFA::new(wide).is_rgb());
}

#[test]
fn a_name_is_kept() {
    for name in ["RGGB", "EBGR", XTRANS] {
        assert_eq!(CFA::new(name).name(), name);
    }
    assert_eq!(CFA::new("EBGR").color_at(0, 0), CFA_COLOR_E);
}

#[test]
fn a_bayer_array_is_one_from_anywhere() {
    for (x, y) in [(0, 0), (1, 0), (4, 7), (13, 1)] {
        assert!(CFA::new("GBRG").shift(x, y).is_rgb());
    }
}

#[test]
fn reflection_keeps_the_color() {
    let cfa = CFA::new("GRBG");
    for n in [2, 3, 8, 9] {
        for i in 0..30 {
            let mirrored = reflect(i - 10, n);
            for other in 0..4 {
                let at = (i + 10) as usize;
                assert_eq!(cfa.color_at(mirrored, other), cfa.color_at(at, other));
                assert_eq!(cfa.color_at(other, mirrored), cfa.color_at(other, at));
            }
        }
    }
}
