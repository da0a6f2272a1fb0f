use pixmap::color::Color;
use pixmap::image::Image;
use pixmap::ppm::{decimal_digits, header_bytes};
use pixmap::shape::{Point, Rect};

#[test]
fn decimal_digits_of_small_numbers() {
    assert_eq!(decimal_digits(0), b"0".to_vec());
    assert_eq!(decimal_digits(7), b"7".to_vec());
    assert_eq!(decimal_digits(9), b"9".to_vec());
    assert_eq!(decimal_digits(10), b"10".to_vec());
    assert_eq!(decimal_digits(42), b"42".to_vec());
    assert_eq!(decimal_digits(100), b"100".to_vec());
    assert_eq!(decimal_digits(2048), b"2048".to_vec());
    assert_eq!(decimal_digits(90_807), b"90807".to_vec());
}

#[test]
fn decimal_digits_of_the_largest_number() {
    assert_eq!(decimal_digits(usize::MAX), format!("{}", usize::MAX).into_bytes());
}

#[test]
fn header_layout() {
    assert_eq!(header_bytes(4, 4), b"P6\n4 4\n255\n".to_vec());
    assert_eq!(header_bytes(2048, 16), b"P6\n2048 16\n255\n".to_vec());
    assert_eq!(header_bytes(1, 300), b"P6\n1 300\n255\n".to_vec());
}

#[test]
fn fresh_canvas_serializes_to_header_and_zeros() {
    for &(w, h) in &[(1usize, 1usize), (4, 4), (3, 7), (10, 1), (120, 15)] {
        let bytes = Image::new(w, h).to_ppm();
        let header = format!("P6\n{} {}\n255\n", w, h).into_bytes();
        assert_eq!(bytes.len(), header.len() + w * h * 3);
        assert_eq!(&bytes[..header.len()], &header[..]);
        assert!(bytes[header.len()..].iter().all(|b| *b == 0));
    }
}

#[test]
fn point_on_four_by_four() {
    let img = Image::new(4, 4).draw_shape(Point { pos: (1, 1) }, Color::new(255, 0, 0));
    let bytes = img.to_ppm();
    let header = b"P6\n4 4\n255\n";
    assert_eq!(bytes.len(), header.len() + 48);
    assert_eq!(&bytes[..header.len()], &header[..]);
    let body = &bytes[header.len()..];
    assert_eq!(&body[15..18], &[255, 0, 0][..]);
    for (i, b) in body.iter().enumerate() {
        if !(15..18).contains(&i) {
            assert_eq!(*b, 0, "byte {}", i);
        }
    }
}

#[test]
fn channels_come_in_rgb_order_row_by_row() {
    let mut img = Image::new(2, 2);
    img.set_pixel((0, 0), Color::new(1, 2, 3));
    img.set_pixel((1, 0), Color::new(4, 5, 6));
    img.set_pixel((0, 1), Color::new(7, 8, 9));
    img.set_pixel((1, 1), Color::new(10, 11, 12));
    let mut want = b"P6\n2 2\n255\n".to_vec();
    want.extend_from_slice(&[1, 2, 3, 4, 5, 6, 7, 8, 9, 10, 11, 12]);
    assert_eq!(img.to_ppm(), want);
}

#[test]
fn serialized_rect() {
    let img = Image::new(3, 2).draw_shape(Rect { pos: (1, 0), dim: (0, 1) }, Color::new(9, 8, 7));
    let mut want = b"P6\n3 2\n255\n".to_vec();
    want.extend_from_slice(&[0, 0, 0, 9, 8, 7, 0, 0, 0]);
    want.extend_from_slice(&[0, 0, 0, 9, 8, 7, 0, 0, 0]);
    assert_eq!(img.to_ppm(), want);
}
