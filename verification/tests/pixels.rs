use framestream::decoder::{bgr_to_rgba, grayscale_to_rgba, normalize_frame};

#[test]
fn grayscale_single_pixel_all_values() {
    for l in 0u8..=255u8 {
        let out = grayscale_to_rgba(&[l]);
        assert_eq!(out, vec![l, l, l, 255]);
    }
}

#[test]
fn grayscale_multiple_pixels() {
    let out = grayscale_to_rgba(&[0, 7, 255]);
    assert_eq!(out, vec![0, 0, 0, 255, 7, 7, 7, 255, 255, 255, 255, 255]);
}

#[test]
fn grayscale_empty() {
    let out = grayscale_to_rgba(&[]);
    assert_eq!(out, Vec::<u8>::new());
}

#[test]
fn bgr_single_pixel() {
    let out = bgr_to_rgba(&[10, 20, 30]);
    assert_eq!(out, vec![30, 20, 10, 255]);
}

#[test]
fn bgr_two_pixels() {
    let out = bgr_to_rgba(&[1, 2, 3, 4, 5, 6]);
    assert_eq!(out, vec![3, 2, 1, 255, 6, 5, 4, 255]);
}

#[test]
fn bgr_empty_input_yields_empty_output() {
    let out = bgr_to_rgba(&[]);
    assert_eq!(out, Vec::<u8>::new());
}

#[test]
fn bgr_incomplete_trailing_pixel_ignored() {
    let out = bgr_to_rgba(&[9, 8]);
    assert_eq!(out, Vec::<u8>::new());
}

#[test]
fn normalize_grayscale_depth() {
    let out = normalize_frame(1, &[42]).unwrap();
    assert_eq!(out, vec![42, 42, 42, 255]);
}

#[test]
fn normalize_bgr_depth() {
    let out = normalize_frame(3, &[1, 2, 3]).unwrap();
    assert_eq!(out, vec![3, 2, 1, 255]);
}

#[test]
fn normalize_rgba_passthrough() {
    let out = normalize_frame(4, &[1, 2, 3, 4]).unwrap();
    assert_eq!(out, vec![1, 2, 3, 4]);
}

#[test]
fn normalize_rejects_unsupported_depths() {
    assert!(normalize_frame(0, &[]).is_none());
    assert!(normalize_frame(2, &[1, 2]).is_none());
    assert!(normalize_frame(5, &[1, 2, 3, 4, 5]).is_none());
}
