use image_processor::blur::{
    blur_frame, blur_pass, plugin_api_version, BlurParams, STATUS_OK, STATUS_SIZE_OVERFLOW,
};

#[test]
fn test_blur_pass_identity() {
    let src = vec![255, 0, 0, 255];
    let mut dst = vec![0; 4];

    blur_pass(&src, &mut dst, 1, 1, 1);

    assert_eq!(dst, src);
}

#[test]
fn test_blur_pass_2x2_radius0() {
    let src = vec![
        255, 0, 0, 255, 0, 255, 0, 255, 0, 0, 255, 255, 255, 255, 0, 255,
    ];

    let mut dst = vec![0; src.len()];

    blur_pass(&src, &mut dst, 2, 2, 0);

    assert_eq!(dst, src);
}

#[test]
fn blur_pass_radius_one_averages_whole_2x2_frame() {
    let src = vec![
        255, 0, 0, 255, 0, 255, 0, 255, 0, 0, 255, 255, 255, 255, 0, 255,
    ];
    let mut dst = vec![0; src.len()];
    blur_pass(&src, &mut dst, 2, 2, 1);
    let expected = vec![
        127, 127, 63, 255, 127, 127, 63, 255, 127, 127, 63, 255, 127, 127, 63, 255,
    ];
    assert_eq!(dst, expected);
}

#[test]
fn blur_pass_clips_window_at_row_ends_and_keeps_alpha() {
    let src = vec![0, 0, 0, 7, 30, 0, 0, 8, 90, 0, 0, 9];
    let mut dst = vec![0; src.len()];
    blur_pass(&src, &mut dst, 3, 1, 1);
    assert_eq!(dst, vec![15, 0, 0, 7, 40, 0, 0, 8, 60, 0, 0, 9]);
}

#[test]
fn blur_pass_leaves_bytes_past_the_frame() {
    let src = vec![10, 20, 30, 40, 50, 60, 70, 80, 1, 2];
    let mut dst = vec![9; 10];
    blur_pass(&src, &mut dst, 2, 1, 1);
    assert_eq!(dst, vec![30, 40, 50, 40, 30, 40, 50, 80, 9, 9]);
}

#[test]
fn blur_pass_radius_negative_as_i32_copies_pixels() {
    let src = vec![1, 2, 3, 4, 5, 6, 7, 8];
    let mut dst = vec![0; 8];
    blur_pass(&src, &mut dst, 2, 1, 0xFFFF_FFFF);
    assert_eq!(dst, src);
}

#[test]
fn blur_pass_uniform_frame_unchanged() {
    let src = vec![128u8; 5 * 4 * 4];
    let mut dst = vec![0u8; src.len()];
    blur_pass(&src, &mut dst, 5, 4, 3);
    assert_eq!(dst, src);
}

#[test]
fn blur_frame_two_passes() {
    let mut data = vec![0, 0, 0, 7, 30, 0, 0, 8, 90, 0, 0, 9];
    let params = BlurParams { radius: 1, iterations: 2 };
    assert!(blur_frame(&mut data, 3, 1, &params));
    assert_eq!(data, vec![27, 0, 0, 7, 38, 0, 0, 8, 50, 0, 0, 9]);
}

#[test]
fn blur_frame_zero_iterations_keeps_data() {
    let mut data = vec![0, 0, 0, 7, 30, 0, 0, 8, 90, 0, 0, 9];
    let params = BlurParams { radius: 5, iterations: 0 };
    assert!(blur_frame(&mut data, 3, 1, &params));
    assert_eq!(data, vec![0, 0, 0, 7, 30, 0, 0, 8, 90, 0, 0, 9]);
}

#[test]
fn blur_frame_refuses_radius_that_cannot_be_negated() {
    let mut data = vec![1, 2, 3, 4];
    let params = BlurParams { radius: 0x8000_0000, iterations: 1 };
    assert!(!blur_frame(&mut data, 1, 1, &params));
}

#[test]
fn blur_frame_empty_frame_always_completes() {
    let mut data: Vec<u8> = vec![];
    let params = BlurParams { radius: 0x8000_0000, iterations: 3 };
    assert!(blur_frame(&mut data, 0, 7, &params));
    assert!(data.is_empty());
}

#[test]
fn blur_fallback_params() {
    let params = BlurParams::fallback();
    assert_eq!(params.radius, 1);
    assert_eq!(params.iterations, 1);
    assert_eq!(plugin_api_version(), 1);
}

#[test]
fn blur_pass_radius_zero_keeps_frame_and_tail() {
    let src = vec![9, 8, 7, 6, 5, 4, 3, 2, 1, 0, 11, 12, 50, 51];
    let mut dst = vec![77u8; 14];
    blur_pass(&src, &mut dst, 3, 1, 0);
    assert_eq!(dst, vec![9, 8, 7, 6, 5, 4, 3, 2, 1, 0, 11, 12, 77, 77]);
}

#[test]
fn blur_keeps_colour_order_and_range() {
    let low = vec![10, 0, 5, 1, 20, 30, 40, 2, 0, 90, 60, 3];
    let high = vec![12, 4, 5, 0, 25, 30, 41, 0, 9, 90, 200, 0];
    let mut out_low = vec![0u8; 12];
    let mut out_high = vec![0u8; 12];
    blur_pass(&low, &mut out_low, 3, 1, 1);
    blur_pass(&high, &mut out_high, 3, 1, 1);
    for i in 0..12 {
        if i % 4 < 3 {
            assert!(out_low[i] <= out_high[i]);
            assert!(out_low[i] <= 90);
        }
    }
    assert_eq!(STATUS_OK, 0);
    assert_eq!(STATUS_SIZE_OVERFLOW, 2);
}
