use nbody::buffer::{Color, FrameBuffer, Pixel};

fn color(r: u8, g: u8, b: u8) -> Color {
    Color { r, g, b }
}

fn rgb_at(fb: &FrameBuffer, x: u32, y: u32) -> (u8, u8, u8) {
    let i = ((y * fb.width + x) * 4) as usize;
    (fb.pixels[i], fb.pixels[i + 1], fb.pixels[i + 2])
}

fn alpha_at(fb: &FrameBuffer, x: u32, y: u32) -> u8 {
    let i = ((y * fb.width + x) * 4) as usize;
    fb.pixels[i + 3]
}

#[test]
fn new_allocates_background_filled_buffer() {
    let fb = FrameBuffer::new(4, 3);
    assert_eq!(fb.width, 4);
    assert_eq!(fb.height, 3);
    assert_eq!(fb.pixels.len(), 4 * 3 * 4);
    assert!(fb.pixels.iter().all(|&b| b == 255));
}

#[test]
fn new_zero_size_is_empty() {
    let fb = FrameBuffer::new(0, 7);
    assert_eq!(fb.pixels.len(), 0);
    let fb = FrameBuffer::new(0, 0);
    assert_eq!(fb.pixels.len(), 0);
}

#[test]
fn clear_fills_solid_rgba() {
    let mut fb = FrameBuffer::new(2, 2);
    fb.clear(color(10, 20, 30));
    assert_eq!(fb.pixels.len(), 16);
    for p in 0..4 {
        assert_eq!(fb.pixels[4 * p], 10);
        assert_eq!(fb.pixels[4 * p + 1], 20);
        assert_eq!(fb.pixels[4 * p + 2], 30);
        assert_eq!(fb.pixels[4 * p + 3], 255);
    }
}

#[test]
fn put_pixel_writes_rgb_and_keeps_alpha() {
    let mut fb = FrameBuffer::new(3, 3);
    fb.clear(color(0, 0, 0));
    fb.put_pixel(1, 2, color(9, 8, 7));
    assert_eq!(rgb_at(&fb, 1, 2), (9, 8, 7));
    assert_eq!(alpha_at(&fb, 1, 2), 255);
    assert_eq!(rgb_at(&fb, 0, 0), (0, 0, 0));
    assert_eq!(rgb_at(&fb, 2, 2), (0, 0, 0));
}

#[test]
fn put_pixel_out_of_bounds_is_discarded() {
    let mut fb = FrameBuffer::new(3, 3);
    fb.clear(color(1, 1, 1));
    let before = fb.pixels.clone();
    fb.put_pixel(-1, 0, color(9, 9, 9));
    fb.put_pixel(0, -1, color(9, 9, 9));
    fb.put_pixel(3, 0, color(9, 9, 9));
    fb.put_pixel(0, 3, color(9, 9, 9));
    assert_eq!(fb.pixels, before);
}

#[test]
fn draw_iter_writes_in_bounds_and_clips_the_rest() {
    let mut fb = FrameBuffer::new(4, 4);
    fb.clear(color(0, 0, 0));
    let batch = vec![
        Pixel { x: 0, y: 0, color: color(5, 6, 7) },
        Pixel { x: -2, y: 1, color: color(9, 9, 9) },
        Pixel { x: 3, y: 3, color: color(1, 2, 3) },
        Pixel { x: 4, y: 0, color: color(9, 9, 9) },
        Pixel { x: 0, y: 100, color: color(9, 9, 9) },
    ];
    fb.draw_iter(&batch);
    assert_eq!(rgb_at(&fb, 0, 0), (5, 6, 7));
    assert_eq!(rgb_at(&fb, 3, 3), (1, 2, 3));
    assert_eq!(rgb_at(&fb, 1, 1), (0, 0, 0));
    assert_eq!(fb.pixels.len(), 64);
    for y in 0..4 {
        for x in 0..4 {
            assert_eq!(alpha_at(&fb, x, y), 255);
        }
    }
}

#[test]
fn draw_iter_last_write_wins() {
    let mut fb = FrameBuffer::new(2, 1);
    fb.clear(color(0, 0, 0));
    let batch = vec![
        Pixel { x: 1, y: 0, color: color(1, 1, 1) },
        Pixel { x: 1, y: 0, color: color(2, 2, 2) },
    ];
    fb.draw_iter(&batch);
    assert_eq!(rgb_at(&fb, 1, 0), (2, 2, 2));
}

#[test]
fn filled_circle_covers_exactly_the_disc() {
    let mut fb = FrameBuffer::new(5, 5);
    fb.clear(color(0, 0, 0));
    fb.draw_filled_circle(2, 2, 1, color(255, 255, 255));
    for y in 0..5i64 {
        for x in 0..5i64 {
            let d2 = (x - 2) * (x - 2) + (y - 2) * (y - 2);
            let expected = if d2 <= 1 { (255, 255, 255) } else { (0, 0, 0) };
            assert_eq!(rgb_at(&fb, x as u32, y as u32), expected, "pixel ({x}, {y})");
            assert_eq!(alpha_at(&fb, x as u32, y as u32), 255);
        }
    }
}

#[test]
fn filled_circle_radius_zero_covers_center_only() {
    let mut fb = FrameBuffer::new(3, 3);
    fb.clear(color(0, 0, 0));
    fb.draw_filled_circle(1, 1, 0, color(4, 5, 6));
    for y in 0..3 {
        for x in 0..3 {
            let expected = if x == 1 && y == 1 { (4, 5, 6) } else { (0, 0, 0) };
            assert_eq!(rgb_at(&fb, x, y), expected);
        }
    }
}

#[test]
fn filled_circle_clips_at_the_corner() {
    let mut fb = FrameBuffer::new(3, 3);
    fb.clear(color(0, 0, 0));
    fb.draw_filled_circle(0, 0, 2, color(7, 7, 7));
    for y in 0..3i64 {
        for x in 0..3i64 {
            let d2 = x * x + y * y;
            let expected = if d2 <= 4 { (7, 7, 7) } else { (0, 0, 0) };
            assert_eq!(rgb_at(&fb, x as u32, y as u32), expected, "pixel ({x}, {y})");
        }
    }
    assert_eq!(fb.pixels.len(), 36);
}

#[test]
fn offscreen_circle_leaves_the_buffer_alone() {
    let mut fb = FrameBuffer::new(4, 4);
    fb.clear(color(3, 2, 1));
    let before = fb.pixels.clone();
    fb.draw_filled_circle(100, 100, 3, color(9, 9, 9));
    assert_eq!(fb.pixels, before);
    assert_eq!(fb.pixels.len(), 64);
    fb.draw_filled_circle(-50, -50, 10, color(9, 9, 9));
    assert_eq!(fb.pixels, before);
    assert_eq!(fb.pixels.len(), 64);
}

#[test]
fn buffer_length_is_fixed_across_clear_and_draw_cycles() {
    let mut fb = FrameBuffer::new(6, 5);
    let expected = 6 * 5 * 4;
    for round in 0..3 {
        fb.clear(color(0, 0, 0));
        assert_eq!(fb.pixels.len(), expected);
        fb.draw_filled_circle(3, 2, round + 1, color(255, 255, 255));
        assert_eq!(fb.pixels.len(), expected);
        fb.put_pixel(0, 0, color(1, 1, 1));
        assert_eq!(fb.pixels.len(), expected);
    }
}

#[test]
fn filled_circle_larger_than_buffer_paints_everything() {
    let mut fb = FrameBuffer::new(3, 3);
    fb.clear(color(0, 0, 0));
    fb.draw_filled_circle(1, 1, 100, color(8, 8, 8));
    for y in 0..3 {
        for x in 0..3 {
            assert_eq!(rgb_at(&fb, x, y), (8, 8, 8));
            assert_eq!(alpha_at(&fb, x, y), 255);
        }
    }
    assert_eq!(fb.pixels.len(), 36);
}

#[test]
fn filled_circle_with_extreme_radius_still_clips() {
    let mut fb = FrameBuffer::new(2, 2);
    fb.clear(color(0, 0, 0));
    fb.draw_filled_circle(-1000000, -1000000, u32::MAX, color(5, 5, 5));
    for y in 0..2 {
        for x in 0..2 {
            assert_eq!(rgb_at(&fb, x, y), (5, 5, 5));
        }
    }
    assert_eq!(fb.pixels.len(), 16);
}

#[test]
fn invariant_check_accepts_a_fresh_buffer() {
    let fb = FrameBuffer::new(7, 7);
    assert!(fb.invariant_holds());
    let mut broken = FrameBuffer::new(7, 7);
    broken.pixels.pop();
    assert!(!broken.invariant_holds());
}
