use polygons_rust::colors::Color;
use polygons_rust::framebuffer::Framebuffer;

fn le32_at(bytes: &[u8], off: usize) -> u32 {
    (bytes[off] as u32)
        | ((bytes[off + 1] as u32) << 8)
        | ((bytes[off + 2] as u32) << 16)
        | ((bytes[off + 3] as u32) << 24)
}

fn le16_at(bytes: &[u8], off: usize) -> u16 {
    (bytes[off] as u16) | ((bytes[off + 1] as u16) << 8)
}

#[test]
fn test_new_surface_is_black() {
    let fb = Framebuffer::new(3, 2, false);
    assert_eq!(fb.width, 3);
    assert_eq!(fb.height, 2);
    for y in 0..2usize {
        for x in 0..3usize {
            assert_eq!(fb.get_color_at(x, y), Some(Color::new(0, 0, 0)));
        }
    }
}

#[test]
fn test_clear_uses_background_color() {
    let mut fb = Framebuffer::new(2, 2, false);
    fb.set_background_color(0x123456);
    fb.clear();
    for y in 0..2usize {
        for x in 0..2usize {
            assert_eq!(fb.get_color_at(x, y), Some(Color::new(0x12, 0x34, 0x56)));
        }
    }
}

#[test]
fn test_point_and_get_color_round_trip() {
    let mut fb = Framebuffer::new(4, 4, false);
    fb.set_current_color(0xABCDEF);
    fb.point(2, 3);
    assert_eq!(fb.get_color_at(2, 3), Some(Color::from_hex(0xABCDEF)));
    assert_eq!(fb.get_color_at(3, 2), Some(Color::new(0, 0, 0)));
}

#[test]
fn test_put_point_out_of_bounds() {
    let mut fb = Framebuffer::new(3, 3, false);
    fb.set_current_color(0xFF0000);
    fb.point(3, 1);
    fb.point(1, 3);
    fb.point(100, 100);
    for y in 0..3usize {
        for x in 0..3usize {
            assert_eq!(fb.get_color_at(x, y), Some(Color::new(0, 0, 0)));
        }
    }
}

#[test]
fn test_get_color_at_out_of_bounds_is_none() {
    let fb = Framebuffer::new(3, 3, true);
    assert_eq!(fb.get_color_at(3, 0), None);
    assert_eq!(fb.get_color_at(0, 3), None);
    assert_eq!(fb.get_color_at(100, 100), None);
}

#[test]
fn test_flip_y_remaps_rows() {
    // with the flip, logical row 0 is stored in the bottom physical row,
    // which the encoder writes first
    let mut fb = Framebuffer::new(1, 2, true);
    fb.set_current_color(0xFF0000);
    fb.point(0, 0);
    assert_eq!(fb.get_color_at(0, 0), Some(Color::from_hex(0xFF0000)));
    assert_eq!(fb.get_color_at(0, 1), Some(Color::new(0, 0, 0)));
    let bytes = fb.render_buffer();
    // row size for one pixel is 4; the red triplet comes first
    assert_eq!(bytes.len(), 54 + 8);
    assert_eq!(&bytes[54..57], &[0x00, 0x00, 0xFF]);
    assert_eq!(bytes[57], 0);
    assert_eq!(&bytes[58..61], &[0x00, 0x00, 0x00]);
}

#[test]
fn test_bmp_two_by_two_red_byte_exact() {
    let mut fb = Framebuffer::new(2, 2, false);
    fb.set_background_color(0xFF0000);
    fb.clear();
    let bytes = fb.render_buffer();
    // row size: 2 pixels * 3 bytes, padded to 8
    let row_size = 8;
    assert_eq!(bytes.len(), 54 + row_size * 2);
    // file header
    assert_eq!(bytes[0], 0x42);
    assert_eq!(bytes[1], 0x4D);
    assert_eq!(le32_at(&bytes, 2), (54 + row_size * 2) as u32);
    assert_eq!(le32_at(&bytes, 6), 0);
    assert_eq!(le32_at(&bytes, 10), 54);
    // info header
    assert_eq!(le32_at(&bytes, 14), 40);
    assert_eq!(le32_at(&bytes, 18), 2);
    assert_eq!(le32_at(&bytes, 22), 2);
    assert_eq!(le16_at(&bytes, 26), 1);
    assert_eq!(le16_at(&bytes, 28), 24);
    assert_eq!(le32_at(&bytes, 30), 0);
    assert_eq!(le32_at(&bytes, 34), (row_size * 2) as u32);
    assert_eq!(le32_at(&bytes, 38), 2835);
    assert_eq!(le32_at(&bytes, 42), 2835);
    assert_eq!(le32_at(&bytes, 46), 0);
    assert_eq!(le32_at(&bytes, 50), 0);
    // two rows of two blue-green-red triplets plus two padding bytes
    for row in 0..2 {
        let base = 54 + row * row_size;
        assert_eq!(&bytes[base..base + 6], &[0x00, 0x00, 0xFF, 0x00, 0x00, 0xFF]);
        assert_eq!(&bytes[base + 6..base + 8], &[0x00, 0x00]);
    }
}
