use matcha_ecs_widgets::shape::{blur, blur_rows, transpose};
use matcha_ecs_widgets::CoverageKey;

#[test]
fn blur_rows_averages_a_window_of_three() {
    let src = [0u8, 0, 255, 0, 0];
    let mut dst = [0u8; 5];
    blur_rows(&src, &mut dst, 5, 1, 1);
    assert_eq!(dst, [0, 85, 85, 85, 0]);
}

#[test]
fn blur_rows_extends_the_edge_pixels() {
    let src = [255u8, 0, 0];
    let mut dst = [0u8; 3];
    blur_rows(&src, &mut dst, 3, 1, 1);
    assert_eq!(dst, [170, 85, 0]);
}

#[test]
fn blur_rows_blurs_each_row_on_its_own() {
    let src = [10u8, 20, 30, 40, 50, 60];
    let mut dst = [0u8; 6];
    blur_rows(&src, &mut dst, 3, 2, 1);
    assert_eq!(dst, [13, 20, 26, 43, 50, 56]);
}

#[test]
fn blur_rows_leaves_the_rest_of_the_destination_alone() {
    let src = [9u8, 9, 9, 9];
    let mut dst = [7u8; 6];
    blur_rows(&src, &mut dst, 2, 2, 3);
    assert_eq!(dst, [9, 9, 9, 9, 7, 7]);
}

#[test]
fn transpose_swaps_rows_and_columns() {
    let src = [1u8, 2, 3, 4, 5, 6];
    let mut dst = [0u8; 6];
    transpose(&src, &mut dst, 3, 2);
    assert_eq!(dst, [1, 4, 2, 5, 3, 6]);
    let mut back = [0u8; 6];
    transpose(&dst, &mut back, 2, 3);
    assert_eq!(back, src, "transposing twice gives the image back");
}

#[test]
fn blur_spreads_a_single_pixel_symmetrically() {
    let mut img = vec![0u8; 16];
    img[5] = 255;
    blur(&mut img, 4, 4, 1);
    assert_eq!(
        img,
        vec![28, 24, 18, 12, 24, 21, 16, 10, 18, 16, 12, 8, 12, 10, 8, 5]
    );
}

#[test]
fn blur_of_a_centred_pixel_in_a_small_image_is_flat() {
    let mut img = vec![0u8, 0, 0, 0, 255, 0, 0, 0, 0];
    blur(&mut img, 3, 3, 1);
    assert_eq!(img, vec![28; 9]);
}

#[test]
fn blur_with_no_radius_or_no_pixels_does_nothing() {
    let mut img = vec![1u8, 2, 3, 4];
    blur(&mut img, 2, 2, 0);
    assert_eq!(img, vec![1, 2, 3, 4]);
    let mut empty: Vec<u8> = Vec::new();
    blur(&mut empty, 0, 5, 3);
    assert!(empty.is_empty());
}

#[test]
fn a_uniform_image_is_unchanged_by_blurring() {
    let mut img = vec![137u8; 5 * 7];
    blur(&mut img, 5, 7, 4);
    assert_eq!(img, vec![137u8; 5 * 7]);
}

#[test]
fn coverage_keys_compare_by_every_field() {
    let a = CoverageKey {
        w: 10,
        h: 20,
        radius_16th: [16; 4],
        border_16th: [0; 4],
        blur_16th: 0,
        inset_16th: 0,
    };
    let mut b = a;
    assert_eq!(a, b);
    b.blur_16th = 1;
    assert_ne!(a, b);
}
