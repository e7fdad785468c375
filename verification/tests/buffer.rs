use the_game::{ImageData, ImageError, Pixel};

fn rgba(buf: &ImageData, x: usize, y: usize) -> (u8, u8, u8, u8) {
    let off = (y * buf.width + x) * 4;
    (buf.data[off], buf.data[off + 1], buf.data[off + 2], buf.data[off + 3])
}

#[test]
fn new_buffer_is_opaque_white() {
    let buf = ImageData::new(8, 6);
    assert_eq!(buf.width, 8);
    assert_eq!(buf.height, 6);
    assert_eq!(buf.data.len(), 8 * 6 * 4);
    assert!(buf.data.iter().all(|&b| b == 255));
}

#[test]
fn set_pixel_roundtrip() {
    let mut buf = ImageData::new(8, 6);
    let r = buf.set_pixel(3, 2, &Pixel { r: 10, g: 20, b: 30, a: 40 });
    assert!(r.is_ok());
    assert_eq!(rgba(&buf, 3, 2), (10, 20, 30, 40));
    assert_eq!(rgba(&buf, 2, 2), (255, 255, 255, 255));
    assert_eq!(rgba(&buf, 3, 1), (255, 255, 255, 255));
}

#[test]
fn set_pixel_rejects_edge_coordinates() {
    let mut buf = ImageData::new(8, 6);
    let color = Pixel { r: 1, g: 2, b: 3, a: 4 };
    assert!(matches!(buf.set_pixel(8, 0, &color), Err(ImageError::OutOfBounds)));
    assert!(matches!(buf.set_pixel(0, 6, &color), Err(ImageError::OutOfBounds)));
    assert!(matches!(buf.set_pixel(9, 7, &color), Err(ImageError::OutOfBounds)));
    assert!(buf.set_pixel(7, 5, &color).is_ok());
    assert!(buf.data.iter().take(4).all(|&b| b == 255));
}

#[test]
fn clear_restores_white() {
    let mut buf = ImageData::new(8, 6);
    buf.set_pixel(0, 0, &Pixel { r: 9, g: 9, b: 9, a: 9 }).unwrap();
    buf.clear();
    assert!(buf.data.iter().all(|&b| b == 255));
}

#[test]
fn draw_line_horizontal_covers_span() {
    let mut buf = ImageData::new(20, 20);
    let red = Pixel { r: 200, g: 0, b: 0, a: 255 };
    assert!(buf.draw_line(0, 5, 10, 5, &red).is_ok());
    for x in 0..=10 {
        assert_eq!(rgba(&buf, x, 5), (200, 0, 0, 255), "column {x}");
    }
    assert_eq!(rgba(&buf, 11, 5), (255, 255, 255, 255));
    assert_eq!(rgba(&buf, 5, 4), (255, 255, 255, 255));
    assert_eq!(rgba(&buf, 5, 6), (255, 255, 255, 255));
}

#[test]
fn draw_line_zero_length_writes_single_pixel() {
    let mut buf = ImageData::new(20, 20);
    let blue = Pixel { r: 0, g: 0, b: 250, a: 255 };
    assert!(buf.draw_line(4, 4, 4, 4, &blue).is_ok());
    assert_eq!(rgba(&buf, 4, 4), (0, 0, 250, 255));
    assert_eq!(rgba(&buf, 4, 5), (255, 255, 255, 255));
    assert_eq!(rgba(&buf, 5, 4), (255, 255, 255, 255));
}

#[test]
fn draw_line_rejects_out_of_bounds_endpoints() {
    let mut buf = ImageData::new(20, 20);
    let c = Pixel { r: 1, g: 1, b: 1, a: 1 };
    assert!(matches!(buf.draw_line(0, 0, 20, 5, &c), Err(ImageError::OutOfBounds)));
    assert!(matches!(buf.draw_line(0, 20, 5, 5, &c), Err(ImageError::OutOfBounds)));
    assert!(buf.data.iter().all(|&b| b == 255));
}

#[test]
fn draw_test_image_paints_gradient_square() {
    let mut buf = ImageData::new(100, 100);
    buf.draw_test_image(10, 10);
    // inside the 30 x 30 square: red follows the row, green the column
    assert_eq!(rgba(&buf, 10, 10), (25, 25, 0, 255));
    assert_eq!(rgba(&buf, 39, 10), (25, 97, 0, 255));
    assert_eq!(rgba(&buf, 10, 39), (97, 25, 0, 255));
    // outside it: the white fill
    assert_eq!(rgba(&buf, 9, 10), (255, 255, 255, 255));
    assert_eq!(rgba(&buf, 40, 10), (255, 255, 255, 255));
    assert_eq!(rgba(&buf, 10, 40), (255, 255, 255, 255));
}

#[test]
fn draw_textured_line_inverts_progress() {
    // each atlas row y is colored (y, 0, 0)
    let mut tex = vec![0u8; 64 * 64 * 3];
    for y in 0..64 {
        for x in 0..64 {
            tex[(y * 64 + x) * 3] = y as u8;
        }
    }
    let atlas = the_game::TextureAtlas::new(64, 64, tex).unwrap();
    let mut buf = ImageData::new(20, 80);
    assert!(buf.draw_line_texture(5, 0, 5, 63, &atlas, 3).is_ok());
    // marching starts half a step in from the bottom end, so the bottom
    // endpoint pixel itself stays untouched
    assert_eq!(rgba(&buf, 5, 63), (255, 255, 255, 255));
    // near the bottom of the slice the last write samples texel row 62
    // (remaining progress 125/126 of the 63 rows, truncated)
    assert_eq!(rgba(&buf, 5, 62), (62, 0, 0, 255));
    // full progress (the top) samples row 0
    assert_eq!(rgba(&buf, 5, 0), (0, 0, 0, 255));
    // a column aside is untouched
    assert_eq!(rgba(&buf, 4, 30), (255, 255, 255, 255));
    assert_eq!(rgba(&buf, 6, 30), (255, 255, 255, 255));
}

#[test]
fn draw_textured_line_zero_length_samples_last_row() {
    let mut tex = vec![0u8; 64 * 64 * 3];
    for x in 0..64 {
        tex[(63 * 64 + x) * 3 + 1] = 99;
    }
    let atlas = the_game::TextureAtlas::new(64, 64, tex).unwrap();
    let mut buf = ImageData::new(20, 80);
    assert!(buf.draw_line_texture(7, 9, 7, 9, &atlas, 0).is_ok());
    assert_eq!(rgba(&buf, 7, 9), (0, 99, 0, 255));
    assert_eq!(rgba(&buf, 7, 10), (255, 255, 255, 255));
}
