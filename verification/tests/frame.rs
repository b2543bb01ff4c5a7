use image_processor::frame::{frame_len, BYTES_PER_PIXEL};

#[test]
fn frame_len_is_four_bytes_per_pixel() {
    assert_eq!(BYTES_PER_PIXEL, 4);
    assert_eq!(frame_len(2, 2), Some(16));
    assert_eq!(frame_len(1920, 1080), Some(1920 * 1080 * 4));
    assert_eq!(frame_len(0, 5), Some(0));
}

#[test]
fn frame_len_overflow_is_none() {
    assert_eq!(frame_len(u32::MAX, u32::MAX), None);
}
