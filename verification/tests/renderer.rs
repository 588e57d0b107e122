use turtle_graphics::renderer::{bresenham, set_pixel};

fn pixel_at(frame: &[u8], w: u32, x: u32, y: u32) -> [u8; 4] {
    let base = ((y * w + x) * 4) as usize;
    [frame[base], frame[base + 1], frame[base + 2], frame[base + 3]]
}

const WHITE: [u8; 4] = [255, 255, 255, 255];

#[test]
fn bresenham_horizontal_line_sets_midpoint_pixel() {
    let (w, h) = (20u32, 20u32);
    let mut frame = vec![0u8; (w * h * 4) as usize];
    bresenham(&mut frame, w, h, 5, 10, 15, 10, WHITE);
    assert_eq!(pixel_at(&frame, w, 10, 10), WHITE);
    for x in 5..=15 {
        assert_eq!(pixel_at(&frame, w, x, 10), WHITE);
    }
    assert_eq!(pixel_at(&frame, w, 4, 10), [0, 0, 0, 0]);
    assert_eq!(pixel_at(&frame, w, 16, 10), [0, 0, 0, 0]);
}

#[test]
fn bresenham_single_pixel_uses_color() {
    let (w, h) = (10u32, 10u32);
    let mut frame = vec![0u8; (w * h * 4) as usize];
    bresenham(&mut frame, w, h, 5, 5, 5, 5, [200, 100, 50, 255]);
    assert_eq!(pixel_at(&frame, w, 5, 5), [200, 100, 50, 255]);
    let lit = frame.chunks_exact(4).filter(|p| *p != [0, 0, 0, 0]).count();
    assert_eq!(lit, 1);
}

#[test]
fn bresenham_out_of_window_changes_nothing() {
    let mut frame = vec![0u8; 10 * 10 * 4];
    bresenham(&mut frame, 10, 10, 1000, 1000, 2000, 2000, WHITE);
    assert!(frame.iter().all(|&b| b == 0));
}

#[test]
fn bresenham_diagonal_sets_endpoints_and_diagonal() {
    let (w, h) = (20u32, 20u32);
    let mut frame = vec![0u8; (w * h * 4) as usize];
    bresenham(&mut frame, w, h, 0, 0, 9, 9, WHITE);
    for i in 0..=9 {
        assert_eq!(pixel_at(&frame, w, i, i), WHITE);
    }
    let lit = frame.chunks_exact(4).filter(|p| *p == WHITE).count();
    assert_eq!(lit, 10);
}

#[test]
fn bresenham_steep_reverse_line_is_connected() {
    let (w, h) = (20u32, 20u32);
    let mut frame = vec![0u8; (w * h * 4) as usize];
    bresenham(&mut frame, w, h, 12, 18, 9, 2, WHITE);
    assert_eq!(pixel_at(&frame, w, 12, 18), WHITE);
    assert_eq!(pixel_at(&frame, w, 9, 2), WHITE);
    // one pixel per row from y = 2 to y = 18
    for y in 2..=18 {
        let in_row = (0..w).filter(|&x| pixel_at(&frame, w, x, y) == WHITE).count();
        assert_eq!(in_row, 1, "row {}", y);
    }
}

#[test]
fn bresenham_partly_outside_clips() {
    let (w, h) = (10u32, 10u32);
    let mut frame = vec![0u8; (w * h * 4) as usize];
    bresenham(&mut frame, w, h, -5, 3, 4, 3, WHITE);
    for x in 0..=4 {
        assert_eq!(pixel_at(&frame, w, x, 3), WHITE);
    }
    let lit = frame.chunks_exact(4).filter(|p| *p == WHITE).count();
    assert_eq!(lit, 5);
}

#[test]
fn set_pixel_inside_and_outside() {
    let (w, h) = (4u32, 3u32);
    let mut frame = vec![0u8; (w * h * 4) as usize];
    set_pixel(&mut frame, w, h, 3, 2, [1, 2, 3, 4]);
    assert_eq!(pixel_at(&frame, w, 3, 2), [1, 2, 3, 4]);
    set_pixel(&mut frame, w, h, 4, 0, [9, 9, 9, 9]);
    set_pixel(&mut frame, w, h, 0, -1, [9, 9, 9, 9]);
    set_pixel(&mut frame, w, h, -1, 1, [9, 9, 9, 9]);
    assert_eq!(frame.iter().filter(|&&b| b != 0).count(), 4);
}

#[test]
fn bresenham_short_line_far_away_draws_nothing() {
    let (w, h) = (4u32, 4u32);
    let mut frame = vec![0u8; (w * h * 4) as usize];
    bresenham(&mut frame, w, h, 1 << 27, 0, (1 << 27) + 3, 0, WHITE);
    bresenham(&mut frame, w, h, i32::MIN, 0, i32::MIN + 3, 2, WHITE);
    bresenham(&mut frame, w, h, i32::MAX - 2, 5, i32::MAX, 7, WHITE);
    assert!(frame.iter().all(|&b| b == 0));
}

#[test]
fn bresenham_long_line_entering_the_window() {
    let (w, h) = (8u32, 4u32);
    let mut frame = vec![0u8; (w * h * 4) as usize];
    bresenham(&mut frame, w, h, -1_000_000, 2, 5, 2, WHITE);
    for x in 0..=5 {
        assert_eq!(pixel_at(&frame, w, x, 2), WHITE);
    }
    let lit = frame.chunks_exact(4).filter(|p| *p == WHITE).count();
    assert_eq!(lit, 6);
}
