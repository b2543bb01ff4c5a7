use image_processor::blur::blur_pass;
use image_processor::mirror::{
    check_request, mirror_frame, mirror_horizontal, mirror_vertical, plugin_api_version, MirrorParams,
    STATUS_NULL_BUFFER, STATUS_OK, STATUS_SIZE_OVERFLOW,
};

#[test]
fn test_horizontal_mirror_2x2() {
    let mut data: Vec<u8> = vec![1, 2, 3, 4, 5, 6, 7, 8, 9, 10, 11, 12, 13, 14, 15, 16];
    let params = MirrorParams { horizontal: true, vertical: false };

    mirror_frame(&mut data, 2, 2, &params);

    let expected: Vec<u8> = vec![5, 6, 7, 8, 1, 2, 3, 4, 13, 14, 15, 16, 9, 10, 11, 12];
    assert_eq!(data, expected);
}

#[test]
fn test_vertical_mirror_2x2() {
    let mut data: Vec<u8> = vec![1, 2, 3, 4, 5, 6, 7, 8, 9, 10, 11, 12, 13, 14, 15, 16];
    let params = MirrorParams { horizontal: false, vertical: true };

    mirror_frame(&mut data, 2, 2, &params);

    let expected: Vec<u8> = vec![9, 10, 11, 12, 13, 14, 15, 16, 1, 2, 3, 4, 5, 6, 7, 8];
    assert_eq!(data, expected);
}

#[test]
fn mirror_both_ways_2x2() {
    let mut data: Vec<u8> = vec![1, 2, 3, 4, 5, 6, 7, 8, 9, 10, 11, 12, 13, 14, 15, 16];
    let params = MirrorParams { horizontal: true, vertical: true };
    mirror_frame(&mut data, 2, 2, &params);
    let expected: Vec<u8> = vec![13, 14, 15, 16, 9, 10, 11, 12, 5, 6, 7, 8, 1, 2, 3, 4];
    assert_eq!(data, expected);
}

#[test]
fn mirror_fallback_leaves_frame() {
    let mut data: Vec<u8> = vec![1, 2, 3, 4, 5, 6, 7, 8];
    let params = MirrorParams::fallback();
    assert!(!params.horizontal && !params.vertical);
    mirror_frame(&mut data, 2, 1, &params);
    assert_eq!(data, vec![1, 2, 3, 4, 5, 6, 7, 8]);
}

#[test]
fn mirror_horizontal_odd_width_keeps_middle_and_tail() {
    let mut data: Vec<u8> = vec![1, 1, 1, 1, 2, 2, 2, 2, 3, 3, 3, 3, 77, 78];
    mirror_horizontal(&mut data, 3, 1);
    assert_eq!(data, vec![3, 3, 3, 3, 2, 2, 2, 2, 1, 1, 1, 1, 77, 78]);
}

#[test]
fn mirror_vertical_odd_height_keeps_middle_row() {
    let mut data: Vec<u8> = vec![1, 1, 1, 1, 2, 2, 2, 2, 3, 3, 3, 3];
    mirror_vertical(&mut data, 1, 3);
    assert_eq!(data, vec![3, 3, 3, 3, 2, 2, 2, 2, 1, 1, 1, 1]);
}

#[test]
fn mirror_twice_restores_frame() {
    let original: Vec<u8> = (0..(3 * 2 * 4)).map(|v| v as u8).collect();
    let mut data = original.clone();
    let params = MirrorParams { horizontal: true, vertical: true };
    mirror_frame(&mut data, 3, 2, &params);
    assert_ne!(data, original);
    mirror_frame(&mut data, 3, 2, &params);
    assert_eq!(data, original);
}

#[test]
fn mirror_status_codes_and_version() {
    assert_eq!(STATUS_OK, 0);
    assert_eq!(STATUS_NULL_BUFFER, 1);
    assert_eq!(STATUS_SIZE_OVERFLOW, 2);
    assert_eq!(plugin_api_version(), 1);
}

#[test]
fn request_checks_buffer_then_size() {
    assert_eq!(check_request(false, 2, 2), Err(STATUS_NULL_BUFFER));
    assert_eq!(check_request(false, u32::MAX, u32::MAX), Err(STATUS_NULL_BUFFER));
    assert_eq!(check_request(true, u32::MAX, u32::MAX), Err(STATUS_SIZE_OVERFLOW));
    assert_eq!(check_request(true, 3, 2), Ok(24));
}

#[test]
fn blur_and_mirror_commute() {
    let src: Vec<u8> = vec![
        10, 200, 30, 1, 40, 50, 60, 2, 250, 0, 90, 3, 7, 8, 9, 4, 100, 110, 120, 5, 0, 255, 3, 6,
    ];
    let both = MirrorParams { horizontal: true, vertical: true };

    let mut blurred_first = vec![0u8; src.len()];
    blur_pass(&src, &mut blurred_first, 3, 2, 1);
    mirror_frame(&mut blurred_first, 3, 2, &both);

    let mut mirrored_first = src.clone();
    mirror_frame(&mut mirrored_first, 3, 2, &both);
    let mut out = vec![0u8; src.len()];
    blur_pass(&mirrored_first, &mut out, 3, 2, 1);

    assert_eq!(out, blurred_first);
}
