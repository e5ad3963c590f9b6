use std::io::Cursor;

use image::{DynamicImage, GenericImageView, ImageFormat};
use matcha_ecs_widgets::imaging::{decode_bytes, decoded_image};
use matcha_ecs_widgets::{ImageFit, ObjectFit};

fn png(width: u32, height: u32) -> Vec<u8> {
    let mut bytes = Vec::new();
    DynamicImage::new_rgba8(width, height)
        .write_to(&mut Cursor::new(&mut bytes), ImageFormat::Png)
        .unwrap();
    bytes
}

#[test]
fn encoded_bytes_decode_to_an_image_of_their_size() {
    let decoded = decode_bytes(&png(3, 5)).expect("a PNG decodes");
    assert_eq!(decoded.dimensions(), (3, 5));
}

#[test]
fn bytes_that_are_no_image_do_not_decode() {
    assert!(decode_bytes(b"not an image").is_none());
    assert!(decode_bytes(&[]).is_none());
}

#[test]
fn fill_stretches_to_the_box_exactly() {
    let img = DynamicImage::new_rgba8(4, 2);
    assert_eq!(ObjectFit::Fill.apply(&img, [8, 3]).dimensions(), (8, 3));
}

#[test]
fn contain_keeps_the_aspect_ratio_inside_the_box() {
    let img = DynamicImage::new_rgba8(4, 2);
    assert_eq!(ObjectFit::Contain.apply(&img, [8, 8]).dimensions(), (8, 4));
    assert_eq!(ObjectFit::Contain.apply(&img, [4, 2]), img);
}

#[test]
fn cover_fills_the_box_and_crops_the_rest() {
    let img = DynamicImage::new_rgba8(4, 2);
    assert_eq!(ObjectFit::Cover.apply(&img, [6, 6]).dimensions(), (6, 6));
}

#[test]
fn scale_down_only_shrinks() {
    let img = DynamicImage::new_rgba8(4, 2);
    assert_eq!(ObjectFit::ScaleDown.apply(&img, [10, 10]), img);
    assert_eq!(ObjectFit::ScaleDown.apply(&img, [2, 10]).dimensions(), (2, 1));
}

#[test]
fn the_default_fit_is_contain() {
    assert_eq!(ObjectFit::default(), ObjectFit::Contain);
    assert_eq!(ImageFit(ObjectFit::Cover), ImageFit(ObjectFit::Cover));
}

#[test]
fn a_failed_decode_gives_no_image() {
    assert!(decoded_image(image::load_from_memory(b"junk")).is_none());
    let img = DynamicImage::new_rgba8(2, 2);
    assert_eq!(decoded_image(Ok(img.clone())), Some(img));
}

#[test]
fn cover_is_exactly_the_box_for_any_aspect_ratio() {
    for (w, h) in [(1u32, 9u32), (9, 1), (5, 5), (7, 3)] {
        let img = DynamicImage::new_rgba8(w, h);
        assert_eq!(ObjectFit::Cover.apply(&img, [4, 6]).dimensions(), (4, 6));
    }
}
