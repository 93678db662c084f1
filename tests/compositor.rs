use ruefi::blitter::{BackBuffer, PixelOrder};

fn pixel(b: &BackBuffer, x: usize, y: usize) -> [u8; 4] {
    let p = (y * b.width() + x) * 4;
    let s = b.bytes();
    [s[p], s[p + 1], s[p + 2], s[p + 3]]
}

fn lit(b: &BackBuffer) -> Vec<(usize, usize)> {
    let mut v = Vec::new();
    for y in 0..b.height() {
        for x in 0..b.width() {
            if pixel(b, x, y) != [0, 0, 0, 0] {
                v.push((x, y));
            }
        }
    }
    v
}

#[test]
fn pack_functions_place_channels() {
    assert_eq!(BackBuffer::pack_rgb(0x11, 0x22, 0x33), 0x0033_2211);
    assert_eq!(BackBuffer::pack_bgr(0x11, 0x22, 0x33), 0x0011_2233);
    assert_eq!(PixelOrder::Rgb.pixel_bytes(1, 2, 3), [1, 2, 3, 0]);
    assert_eq!(PixelOrder::Bgr.pixel_bytes(1, 2, 3), [3, 2, 1, 0]);
}

#[test]
fn pack_then_unpack_round_trips() {
    for order in [PixelOrder::Rgb, PixelOrder::Bgr] {
        for (r, g, b) in [(0u8, 0u8, 0u8), (255, 255, 255), (1, 2, 3), (200, 7, 99)] {
            let p = order.pack(r, g, b);
            assert_eq!(order.unpack(p), (r, g, b));
        }
    }
}

#[test]
fn new_buffer_is_black_and_sized() {
    let b = BackBuffer::new(4, 3, PixelOrder::Rgb, 16);
    assert_eq!(b.width(), 4);
    assert_eq!(b.height(), 3);
    assert_eq!(b.bytes().len(), 48);
    assert!(b.bytes().iter().all(|&v| v == 0));
}

#[test]
fn clear_fills_every_pixel_in_device_order() {
    let mut b = BackBuffer::new(3, 2, PixelOrder::Bgr, 12);
    b.clear_rgb(10, 20, 30);
    for y in 0..2 {
        for x in 0..3 {
            assert_eq!(pixel(&b, x, y), [30, 20, 10, 0]);
        }
    }
    b.clear_bgr(10, 20, 30);
    assert_eq!(pixel(&b, 2, 1), [10, 20, 30, 0]);
}

#[test]
fn put_pixel_sets_one_pixel_and_ignores_outside() {
    let mut b = BackBuffer::new(4, 3, PixelOrder::Rgb, 16);
    b.put_pixel(2, 1, 9, 8, 7);
    assert_eq!(pixel(&b, 2, 1), [9, 8, 7, 0]);
    assert_eq!(lit(&b), vec![(2, 1)]);
    let before = b.bytes().to_vec();
    b.put_pixel(-1, 0, 1, 1, 1);
    b.put_pixel(0, -1, 1, 1, 1);
    b.put_pixel(4, 0, 1, 1, 1);
    b.put_pixel(0, 3, 1, 1, 1);
    assert_eq!(b.bytes(), &before[..]);
}

#[test]
fn draw_line_follows_bresenham() {
    let mut b = BackBuffer::new(5, 3, PixelOrder::Rgb, 20);
    b.draw_line(0, 0, 3, 1, 255, 255, 255);
    assert_eq!(lit(&b), vec![(0, 0), (1, 0), (2, 1), (3, 1)]);
}

#[test]
fn draw_line_is_symmetric_in_steep_and_reversed_octants() {
    let mut b = BackBuffer::new(4, 5, PixelOrder::Rgb, 16);
    b.draw_line(1, 4, 1, 0, 1, 1, 1);
    assert_eq!(lit(&b), vec![(1, 0), (1, 1), (1, 2), (1, 3), (1, 4)]);
    let mut d = BackBuffer::new(4, 4, PixelOrder::Rgb, 16);
    d.draw_line(3, 3, 0, 0, 1, 1, 1);
    assert_eq!(lit(&d), vec![(0, 0), (1, 1), (2, 2), (3, 3)]);
}

#[test]
fn draw_line_single_point_and_clipping() {
    let mut b = BackBuffer::new(3, 3, PixelOrder::Rgb, 12);
    b.draw_line(1, 1, 1, 1, 5, 5, 5);
    assert_eq!(lit(&b), vec![(1, 1)]);
    let mut c = BackBuffer::new(3, 3, PixelOrder::Rgb, 12);
    c.draw_line(-2, 0, 5, 0, 5, 5, 5);
    assert_eq!(lit(&c), vec![(0, 0), (1, 0), (2, 0)]);
}

#[test]
fn draw_triangle_wire_draws_three_edges() {
    let mut b = BackBuffer::new(5, 5, PixelOrder::Rgb, 20);
    b.draw_triangle_wire(0, 0, 4, 0, 0, 4, 1, 2, 3);
    let l = lit(&b);
    for p in [(0, 0), (1, 0), (4, 0), (0, 4), (0, 2), (2, 2), (3, 1), (1, 3)] {
        assert!(l.contains(&p), "{:?}", p);
    }
    assert!(!l.contains(&(1, 1)));
    assert_eq!(l.len(), 12);
}

#[test]
fn blit_copies_opaque_pixels_and_skips_transparent() {
    let mut b = BackBuffer::new(4, 4, PixelOrder::Bgr, 16);
    let img: Vec<u8> = vec![
        10, 20, 30, 255, 1, 2, 3, 0, //
        40, 50, 60, 1, 70, 80, 90, 255,
    ];
    b.blit_rgba(&img, 2, 2, 1, 2);
    assert_eq!(pixel(&b, 1, 2), [30, 20, 10, 0]);
    assert_eq!(pixel(&b, 2, 2), [0, 0, 0, 0]);
    assert_eq!(pixel(&b, 1, 3), [60, 50, 40, 0]);
    assert_eq!(pixel(&b, 2, 3), [90, 80, 70, 0]);
    assert_eq!(lit(&b).len(), 3);
}

#[test]
fn blit_clips_to_buffer_using_the_image_row_stride() {
    let mut b = BackBuffer::new(3, 3, PixelOrder::Rgb, 12);
    let mut img = Vec::new();
    for k in 0..9u8 {
        img.extend_from_slice(&[k + 1, 0, 0, 255]);
    }
    b.blit_rgba(&img, 3, 3, 1, 1);
    assert_eq!(pixel(&b, 1, 1)[0], 1);
    assert_eq!(pixel(&b, 2, 1)[0], 2);
    assert_eq!(pixel(&b, 1, 2)[0], 4);
    assert_eq!(pixel(&b, 2, 2)[0], 5);
    assert_eq!(lit(&b).len(), 4);
    let before = b.bytes().to_vec();
    b.blit_rgba(&img, 3, 3, 3, 0);
    assert_eq!(b.bytes(), &before[..]);
}

#[test]
fn blit_of_fully_transparent_image_changes_nothing() {
    let mut b = BackBuffer::new(4, 3, PixelOrder::Rgb, 16);
    b.clear_rgb(5, 6, 7);
    b.put_pixel(1, 1, 200, 100, 50);
    let before = b.bytes().to_vec();
    let img: Vec<u8> = (0..2 * 3).flat_map(|k| [k as u8 * 9 + 1, 77, 3, 0]).collect();
    b.blit_rgba(&img, 2, 3, 1, 0);
    assert_eq!(b.bytes(), &before[..]);
}

#[test]
fn flush_copies_contiguously_when_stride_matches() {
    let mut b = BackBuffer::new(2, 2, PixelOrder::Rgb, 8);
    b.put_pixel(1, 1, 9, 9, 9);
    let mut fb = vec![0xAAu8; 20];
    b.flush_into(&mut fb);
    assert_eq!(&fb[..16], b.bytes());
    assert!(fb[16..].iter().all(|&v| v == 0xAA));
}

#[test]
fn flush_respects_wider_device_stride() {
    let mut b = BackBuffer::new(2, 2, PixelOrder::Rgb, 12);
    b.clear_rgb(1, 2, 3);
    let mut fb = vec![0xEEu8; 24];
    b.flush_into(&mut fb);
    assert_eq!(&fb[0..8], &[1, 2, 3, 0, 1, 2, 3, 0]);
    assert_eq!(&fb[8..12], &[0xEE; 4]);
    assert_eq!(&fb[12..20], &[1, 2, 3, 0, 1, 2, 3, 0]);
    assert_eq!(&fb[20..24], &[0xEE; 4]);
}

#[test]
fn polygon_is_drawn_on_the_wrapped_tiles() {
    let mut b = BackBuffer::new(6, 6, PixelOrder::Rgb, 24);
    // A vertical segment closed on itself, straddling the right edge.
    let pts = [(7isize, 1isize), (7, 2)];
    b.draw_polygon_wrapped(&pts, 6, 6, 1, 1, 1);
    assert_eq!(lit(&b), vec![(1, 1), (1, 2)]);
    let mut c = BackBuffer::new(6, 6, PixelOrder::Rgb, 24);
    c.draw_polygon_wrapped(&[(2isize, 2isize), (3, 2), (3, 3)], 6, 6, 1, 1, 1);
    let l = lit(&c);
    assert!(l.contains(&(2, 2)) && l.contains(&(3, 3)));
    assert_eq!(l.len(), 3);
}
