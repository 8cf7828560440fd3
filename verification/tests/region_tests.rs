use instant_text_ocr::region::{extract, CaptureError, CaptureRegion, Frame};

fn sample_frame() -> Frame {
    // 4x3 RGBA frame whose bytes are 0..48 in order.
    let pixels: Vec<u8> = (0u8..48).collect();
    Frame { width: 4, height: 3, pixels }
}

#[test]
fn extract_without_region_is_identity() {
    let frame = sample_frame();
    let copy = frame.clone();
    let out = extract(frame, None).unwrap();
    assert_eq!(out, copy);
}

#[test]
fn extract_clamps_width_and_height() {
    let frame = sample_frame();
    let region = CaptureRegion { x: 1, y: 1, width: 10, height: 10 };
    let out = extract(frame, Some(&region)).unwrap();
    assert_eq!(out.width, 3);
    assert_eq!(out.height, 2);
    // Row 1 columns 1..4, then row 2 columns 1..4, four bytes per pixel.
    let expected: Vec<u8> = vec![
        20, 21, 22, 23, 24, 25, 26, 27, 28, 29, 30, 31,
        36, 37, 38, 39, 40, 41, 42, 43, 44, 45, 46, 47,
    ];
    assert_eq!(out.pixels, expected);
}

#[test]
fn extract_in_bounds_region_keeps_requested_size() {
    let frame = sample_frame();
    let region = CaptureRegion { x: 0, y: 0, width: 2, height: 2 };
    let out = extract(frame, Some(&region)).unwrap();
    assert_eq!(out.width, 2);
    assert_eq!(out.height, 2);
    let expected: Vec<u8> = vec![0, 1, 2, 3, 4, 5, 6, 7, 16, 17, 18, 19, 20, 21, 22, 23];
    assert_eq!(out.pixels, expected);
}

#[test]
fn extract_negative_origin_clamps_to_zero() {
    let frame = sample_frame();
    let region = CaptureRegion { x: -5, y: -7, width: 2, height: 1 };
    let out = extract(frame, Some(&region)).unwrap();
    assert_eq!(out.width, 2);
    assert_eq!(out.height, 1);
    assert_eq!(out.pixels, vec![0, 1, 2, 3, 4, 5, 6, 7]);
}

#[test]
fn extract_origin_past_right_edge_fails() {
    let frame = sample_frame();
    let region = CaptureRegion { x: 4, y: 0, width: 5, height: 5 };
    assert_eq!(extract(frame, Some(&region)), Err(CaptureError::InvalidRegion));
}

#[test]
fn extract_origin_past_bottom_edge_fails() {
    let frame = sample_frame();
    let region = CaptureRegion { x: 0, y: 3, width: 1, height: 1 };
    assert_eq!(extract(frame, Some(&region)), Err(CaptureError::InvalidRegion));
}

#[test]
fn extract_zero_width_request_fails() {
    let frame = sample_frame();
    let region = CaptureRegion { x: 1, y: 1, width: 0, height: 4 };
    assert_eq!(extract(frame, Some(&region)), Err(CaptureError::InvalidRegion));
}
