use menon::geometry::{Dim2, Point, Rect};
use menon::image::{reflect, Pix2D};

fn numbered(width: usize, height: usize) -> Pix2D<i32> {
    let mut pix = Pix2D::filled(width, height, 0);
    for y in 0..height {
        for x in 0..width {
            *pix.at_mut(y, x) = (100 * y + x) as i32;
        }
    }
    pix
}

#[test]
fn reflection_does_not_repeat_the_edges() {
    let expected = [2, 3, 2, 1, 0, 1, 2, 3, 2, 1, 0];
    for (k, want) in expected.iter().enumerate() {
        assert_eq!(reflect(k as isize - 4, 4), *want);
    }
    assert_eq!(reflect(-5, 1), 0);
    assert_eq!(reflect(-1, 2), 1);
    assert_eq!(reflect(2, 2), 0);
    assert_eq!(reflect(isize::MIN, 2), 0);
    assert_eq!(reflect(isize::MAX, 2), 1);
    assert_eq!(reflect(isize::MIN, usize::MAX), isize::MAX as usize + 1);
}

#[test]
fn pixels_are_kept_where_they_are_written() {
    let pix = numbered(5, 3);
    for y in 0..3 {
        for x in 0..5 {
            assert_eq!(*pix.at(y, x), (100 * y + x) as i32);
        }
    }
}

#[test]
fn windows_count_from_their_first_pixel() {
    let pix = numbered(9, 8);
    let outer = pix.window(Rect::new(Point::new(2, 1), Dim2::new(6, 5)));
    let inner = outer.window(Rect::new(Point::new(1, 3), Dim2::new(4, 2)));
    assert_eq!((inner.width(), inner.height()), (4, 2));
    assert_eq!(*inner.at(0, 0), 403);
    assert_eq!(*inner.at(1, 3), 506);
    assert_eq!(*inner.at_reflect(-1, -1), 504);
    assert_eq!(*inner.at_reflect(2, 4), 405);
}

#[test]
fn outside_the_image_there_is_padding() {
    let pix = numbered(3, 2);
    assert_eq!(*pix.at_padding(1, 2, &-7), 102);
    for (y, x) in [(-1, 0), (0, -1), (2, 0), (0, 3), (isize::MIN, isize::MAX)] {
        assert_eq!(*pix.at_padding(y, x, &-7), -7);
    }
    assert_eq!(*pix.at_reflect(-1, 3), 101);
}

#[test]
fn a_rectangle_is_empty_without_rows_or_columns() {
    let p = Point::new(3, 4);
    assert!(Rect::new(p, Dim2::new(0, 5)).is_empty());
    assert!(Rect::new(p, Dim2::new(5, 0)).is_empty());
    assert!(!Rect::new(p, Dim2::new(1, 1)).is_empty());
    assert_eq!(numbered(3, 2).rect(), Rect::new(Point::new(0, 0), Dim2::new(3, 2)));
}
