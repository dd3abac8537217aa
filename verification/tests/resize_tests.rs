use lowkey::carrier::Carrier;
use lowkey::resize::{calculate_optimal_dimensions, resize_image};

#[test]
fn optimal_dimensions_hold_smaller_side_at_floor() {
    // 1000 payload bytes frame to 1033 bytes = 8264 bits; the aspect-fit
    // candidate is far below the 600-pixel floor, so the smaller side is
    // held at 600 and the larger follows the 2:1 aspect ratio
    let (w, h) = calculate_optimal_dimensions(1000, 2000, 1000, 600);
    assert_eq!((w, h), (1200, 600));
    assert!(w.min(h) >= 600);
    assert!(w as u64 * h as u64 * 4 >= 8264);
}

#[test]
fn optimal_dimensions_floor_capped_by_original() {
    // the original's smaller side (40) caps the 600-pixel floor; holding
    // the height at 40 and keeping the 5:4 aspect gives the original back
    let (w, h) = calculate_optimal_dimensions(1, 50, 40, 600);
    assert_eq!((w, h), (50, 40));
}

#[test]
fn optimal_dimensions_keep_aspect_without_floor() {
    // with no effective floor, the candidate keeps the 5:4 aspect ratio
    let (w, h) = calculate_optimal_dimensions(1, 50, 40, 1);
    assert_eq!((w, h), (10, 8));
    assert!(w as u64 * h as u64 * 4 >= 8 * 34);
}

#[test]
fn optimal_dimensions_never_enlarge() {
    let (w, h) = calculate_optimal_dimensions(1000, 10, 10, 600);
    assert_eq!((w, h), (10, 10)); // fallback: even the original is too small
}

#[test]
fn optimal_dimensions_fallback_when_too_small() {
    // capacity of 5x5 is 100 bits, the frame needs 272: original returned
    let (w, h) = calculate_optimal_dimensions(1, 5, 5, 600);
    assert_eq!((w, h), (5, 5));
}

#[test]
fn resize_image_shrinks_and_stays_well_formed() {
    let img = Carrier {
        width: 100,
        height: 50,
        data: vec![0x80u8; 100 * 50 * 4],
    };
    let out = resize_image(&img, 1, 10).unwrap();
    assert_eq!((out.width, out.height), (20, 10));
    assert_eq!(out.data.len(), 20 * 10 * 4);
}

#[test]
fn resize_image_keeps_optimal_original() {
    let img = Carrier {
        width: 5,
        height: 5,
        data: vec![7u8; 100],
    };
    let out = resize_image(&img, 1, 600).unwrap();
    assert_eq!((out.width, out.height), (5, 5));
    assert_eq!(out.data, vec![7u8; 100]);
}
