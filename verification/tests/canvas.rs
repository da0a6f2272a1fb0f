use pixmap::color::Color;
use pixmap::image::Image;

const BLACK: Color = Color { r: 0, g: 0, b: 0 };
const RED: Color = Color { r: 255, g: 0, b: 0 };

#[test]
fn new_canvas_is_black() {
    let img = Image::new(5, 3);
    assert_eq!(img.width(), 5);
    assert_eq!(img.height(), 3);
    assert_eq!(img.pixels().len(), 15);
    assert!(img.pixels().iter().all(|c| *c == BLACK));
}

#[test]
fn one_by_one_canvas() {
    let img = Image::new(1, 1);
    assert_eq!(img.pixels().len(), 1);
    assert_eq!(img.get_pixel((0, 0)), Some(BLACK));
    assert_eq!(img.get_pixel((1, 0)), None);
    assert_eq!(img.get_pixel((0, 1)), None);
}

#[test]
fn set_pixel_is_row_major() {
    let mut img = Image::new(4, 3);
    img.set_pixel((1, 2), RED);
    assert_eq!(img.pixels()[2 * 4 + 1], RED);
    assert_eq!(img.get_pixel((1, 2)), Some(RED));
    assert_eq!(img.pixels().iter().filter(|c| **c == RED).count(), 1);
}

#[test]
fn set_pixel_outside_is_ignored() {
    let mut img = Image::new(4, 3);
    img.set_pixel((4, 0), RED);
    img.set_pixel((0, 3), RED);
    img.set_pixel((usize::MAX, usize::MAX), RED);
    // (5, 0) would land on (1, 1) if the column were not checked.
    img.set_pixel((5, 0), RED);
    assert!(img.pixels().iter().all(|c| *c == BLACK));
    assert_eq!(img.width(), 4);
    assert_eq!(img.height(), 3);
}

#[test]
fn set_pixel_overwrites() {
    let mut img = Image::new(2, 2);
    let blue = Color::new(0, 0, 255);
    img.set_pixel((1, 1), RED);
    img.set_pixel((1, 1), blue);
    assert_eq!(img.get_pixel((1, 1)), Some(blue));
    assert_eq!(img.get_pixel((0, 1)), Some(BLACK));
}

#[test]
fn color_new_keeps_channels() {
    let c = Color::new(1, 2, 3);
    assert_eq!((c.r, c.g, c.b), (1, 2, 3));
    assert_eq!(c, Color { r: 1, g: 2, b: 3 });
}
