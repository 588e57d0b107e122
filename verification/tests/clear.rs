use turtle_graphics::renderer::clear;

#[test]
fn clear_fills_entire_frame() {
    let mut frame = vec![0u8; 4 * 4];
    clear(&mut frame, [10, 20, 30, 255]);
    for chunk in frame.chunks_exact(4) {
        assert_eq!(chunk, &[10, 20, 30, 255]);
    }
    let mut one = vec![0u8; 4]; // 1×1 pixel
    clear(&mut one, [10, 20, 30, 255]);
    assert_eq!(&one, &[10, 20, 30, 255]);
}

#[test]
fn clear_multi_pixel_frame() {
    let mut frame = vec![0u8; 3 * 4]; // 3 pixels
    clear(&mut frame, [255, 0, 128, 255]);
    for chunk in frame.chunks_exact(4) {
        assert_eq!(chunk, &[255, 0, 128, 255]);
    }
}

#[test]
fn clear_with_black() {
    let mut frame = vec![99u8; 8]; // 2 pixels, pre-filled with noise
    clear(&mut frame, [0, 0, 0, 255]);
    assert!(frame.chunks_exact(4).all(|p| p == [0, 0, 0, 255]));
}

#[test]
fn clear_leaves_trailing_partial_pixel() {
    let mut frame = vec![7u8; 6]; // one pixel and two stray bytes
    clear(&mut frame, [1, 2, 3, 4]);
    assert_eq!(frame, vec![1, 2, 3, 4, 7, 7]);
}
